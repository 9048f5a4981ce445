use vstd::prelude::*;

use crate::task::Task;
use crate::task::TaskError;
use crate::task::core_of;
use crate::task::cores_of;
use crate::task::lemma_cores_push;
use crate::task::names_of;
use crate::task::views_of;
use crate::text::is_blank;
use crate::text::seq_contains;
use crate::text::str_contains;

verus! {

/// The not-yet-done tasks of a list, in their relative order.
pub open spec fn todo_part(tasks: Seq<Task>) -> Seq<Task> {
    tasks.filter(|t: Task| !t.done)
}

/// The done tasks of a list, in their relative order.
pub open spec fn done_part(tasks: Seq<Task>) -> Seq<Task> {
    tasks.filter(|t: Task| t.done)
}

/// The tasks whose name contains `term`, in their relative order.
pub open spec fn matching_part(tasks: Seq<Task>, term: Seq<char>) -> Seq<Task> {
    tasks.filter(|t: Task| seq_contains(t.name@, term))
}

/// Does the incoming batch of names collide with the existing ones, or
/// repeat a name within itself?
pub open spec fn duplicate_names(existing: Seq<Seq<char>>, incoming: Seq<Seq<char>>) -> bool {
    ||| exists|i: int| 0 <= i < incoming.len() && existing.contains(#[trigger] incoming[i])
    ||| exists|i: int, j: int| 0 <= i < j < incoming.len() && incoming[i] == incoming[j]
}

/// Rows that can form a valid store: identifiers all assigned, within
/// range and unique, names non-empty and unique, and a representable count.
pub open spec fn loadable(rows: Seq<Task>) -> bool {
    &&& rows.len() <= i32::MAX as int
    &&& forall|i: int| 0 <= i < rows.len() ==> (#[trigger] rows[i]).id is Some
    &&& forall|i: int| 0 <= i < rows.len() ==> 0 <= (#[trigger] rows[i]).id->0 < i32::MAX as int
    &&& forall|i: int| 0 <= i < rows.len() ==> (#[trigger] rows[i]).name@.len() > 0
    &&& forall|i: int| 0 <= i < rows.len() ==> !is_blank((#[trigger] rows[i]).name@)
    &&& forall|i: int, j: int|
        0 <= i < j < rows.len() ==> (#[trigger] rows[i]).id->0 != (#[trigger] rows[j]).id->0
    &&& forall|i: int, j: int|
        0 <= i < j < rows.len() ==> (#[trigger] rows[i]).name@ != (#[trigger] rows[j]).name@
}

/// Some task caches the given display position.
pub open spec fn occupies(tasks: Seq<Task>, position: i32) -> bool {
    exists|i: int| 0 <= i < tasks.len() && (#[trigger] tasks[i]).idx == Some(position)
}

/// Law: in a resynchronised store of N tasks the cached positions are
/// exactly 1..N — dense, with no gap and no duplicate — and strictly
/// increasing in listing order.
pub proof fn lemma_positions_contiguous(s: TaskStore)
    requires
        s.synced(),
    ensures
        forall|i: int|
            0 <= i < s.tasks@.len() ==> (#[trigger] s.tasks@[i]).idx == Some((i + 1) as i32),
        forall|p: i32| #[trigger] occupies(s.tasks@, p) <==> 1 <= p <= s.tasks@.len(),
{
    assert forall|p: i32| #[trigger] occupies(s.tasks@, p) <==> 1 <= p <= s.tasks@.len() by {
        if 1 <= p <= s.tasks@.len() {
            assert(s.tasks@[p - 1].idx == Some(p));
        }
    }
}

/// Law: a well-formed store can always be reloaded from its own task list,
/// so carrying the rows to a backup and reading them back reproduces a
/// store with the same names, completion flags, and order.
pub proof fn lemma_store_reloadable(s: TaskStore)
    requires
        s.wf(),
    ensures
        loadable(s.tasks@),
{
}

/// The task store: the tasks in display order, and the next identifier to
/// hand out. Identifiers are never reused.
pub struct TaskStore {
    pub tasks: Vec<Task>,
    pub next_id: i32,
}

impl TaskStore {
    /// The part of the invariant that does not concern the position cache:
    /// identifiers are assigned, bounded by `next_id` and unique, and names
    /// are non-empty and unique.
    pub open spec fn base_wf(self) -> bool {
        &&& self.tasks@.len() <= i32::MAX as int
        &&& 0 <= self.next_id
        &&& forall|i: int|
            0 <= i < self.tasks@.len() ==> (#[trigger] self.tasks@[i]).id is Some
        &&& forall|i: int|
            0 <= i < self.tasks@.len() ==> 0 <= (#[trigger] self.tasks@[i]).id->0 < self.next_id
        &&& forall|i: int|
            0 <= i < self.tasks@.len() ==> (#[trigger] self.tasks@[i]).name@.len() > 0
        &&& forall|i: int|
            0 <= i < self.tasks@.len() ==> !is_blank((#[trigger] self.tasks@[i]).name@)
        &&& forall|i: int, j: int|
            0 <= i < j < self.tasks@.len() ==> (#[trigger] self.tasks@[i]).id->0 != (
            #[trigger] self.tasks@[j]).id->0
        &&& forall|i: int, j: int|
            0 <= i < j < self.tasks@.len() ==> (#[trigger] self.tasks@[i]).name@ != (
            #[trigger] self.tasks@[j]).name@
    }

    /// The store's standing invariant: besides `base_wf`, every task has a
    /// cached position, at least 1, and positions strictly increase in
    /// listing order. Dense positions are only guaranteed after a resync.
    pub open spec fn wf(self) -> bool {
        &&& self.base_wf()
        &&& forall|i: int|
            0 <= i < self.tasks@.len() ==> (#[trigger] self.tasks@[i]).idx is Some
        &&& forall|i: int|
            0 <= i < self.tasks@.len() ==> 1 <= (#[trigger] self.tasks@[i]).idx->0
        &&& forall|i: int, j: int|
            0 <= i < j < self.tasks@.len() ==> (#[trigger] self.tasks@[i]).idx->0 < (
            #[trigger] self.tasks@[j]).idx->0
    }

    /// A resynchronised store: the cached positions are exactly 1..N in
    /// listing order.
    pub open spec fn synced(self) -> bool {
        &&& self.wf()
        &&& forall|i: int|
            0 <= i < self.tasks@.len() ==> (#[trigger] self.tasks@[i]).idx == Some((i + 1) as i32)
    }

    /// An empty store, as first provisioning creates it.
    pub fn new() -> (s: TaskStore)
        ensures
            s.synced(),
            s.tasks@.len() == 0,
            s.next_id == 0,
    {
        TaskStore { tasks: Vec::new(), next_id: 0 }
    }

    /// The number of tasks, clamped to the largest representable count.
    pub fn count(&self) -> (n: i32)
        ensures
            self.tasks@.len() <= i32::MAX as int ==> n as int == self.tasks@.len(),
            self.tasks@.len() > i32::MAX as int ==> n == i32::MAX,
    {
        if self.tasks.len() > i32::MAX as usize {
            i32::MAX
        } else {
            self.tasks.len() as i32
        }
    }

    /// Recomputes the cached positions as 1..N in listing order and writes
    /// them back: the canonical step that makes positions trustworthy again.
    pub fn resync(&mut self)
        requires
            old(self).base_wf(),
        ensures
            final(self).synced(),
            final(self).next_id == old(self).next_id,
            final(self).tasks@.len() == old(self).tasks@.len(),
            forall|i: int|
                0 <= i < old(self).tasks@.len() ==> final(self).tasks@[i] == (Task {
                    idx: Some((i + 1) as i32),
                    ..old(self).tasks@[i]
                }),
    {
        let n = self.tasks.len();
        let mut out: Vec<Task> = Vec::new();
        let mut i: usize = 0;
        while i < n
            invariant
                i <= n,
                n == self.tasks@.len(),
                *self == *old(self),
                old(self).base_wf(),
                out@.len() == i as int,
                forall|k: int|
                    0 <= k < i as int ==> out@[k] == (Task {
                        idx: Some((k + 1) as i32),
                        ..old(self).tasks@[k]
                    }),
            decreases n - i,
        {
            let t = &self.tasks[i];
            out.push(
                Task { id: t.id, idx: Some(i as i32 + 1), name: t.name.clone(), done: t.done },
            );
            i += 1;
        }
        self.tasks = out;
    }

    /// Resynchronises and returns the task list with its fresh positions:
    /// the canonical read path.
    pub fn list_and_resync(&mut self) -> (r: Vec<Task>)
        requires
            old(self).base_wf(),
        ensures
            final(self).synced(),
            final(self).next_id == old(self).next_id,
            final(self).tasks@.len() == old(self).tasks@.len(),
            forall|i: int|
                0 <= i < old(self).tasks@.len() ==> final(self).tasks@[i] == (Task {
                    idx: Some((i + 1) as i32),
                    ..old(self).tasks@[i]
                }),
            r@ == final(self).tasks@,
    {
        self.resync();
        let r = clone_tasks(&self.tasks);
        r
    }

    /// Appends one task per name at the end of the list, in input order,
    /// with fresh identifiers, then resynchronises. A name that collides
    /// with an existing one, or repeats within the batch, fails the whole
    /// call without mutating the store.
    pub fn append_many(&mut self, names: &Vec<String>) -> (r: Result<(), TaskError>)
        requires
            old(self).wf(),
            old(self).tasks@.len() + names@.len() <= i32::MAX as int,
            old(self).next_id + names@.len() <= i32::MAX as int,
            forall|i: int| 0 <= i < names@.len() ==> #[trigger] views_of(names@)[i].len() > 0,
            forall|i: int| 0 <= i < names@.len() ==> !is_blank(#[trigger] views_of(names@)[i]),
        ensures
            r is Err <==> duplicate_names(names_of(old(self).tasks@), views_of(names@)),
            r is Err ==> r == Result::<(), TaskError>::Err(TaskError::DuplicateName)
                && *final(self) == *old(self),
            r is Ok ==> {
                &&& final(self).synced()
                &&& final(self).tasks@.len() == old(self).tasks@.len() + names@.len()
                &&& final(self).next_id == old(self).next_id + names@.len()
                &&& forall|i: int|
                    0 <= i < old(self).tasks@.len() ==> final(self).tasks@[i] == (Task {
                        idx: Some((i + 1) as i32),
                        ..old(self).tasks@[i]
                    })
                &&& forall|i: int|
                    old(self).tasks@.len() <= i < final(self).tasks@.len()
                        ==> final(self).tasks@[i] == (Task {
                        id: Some((old(self).next_id + (i - old(self).tasks@.len())) as i32),
                        idx: Some((i + 1) as i32),
                        name: names@[i - old(self).tasks@.len()],
                        done: false,
                    })
            },
    {
        if self.batch_has_duplicate(names) {
            return Err(TaskError::DuplicateName);
        }
        let ghost pre = *self;
        let n = names.len();
        let mut i: usize = 0;
        while i < n
            invariant
                i <= n,
                n == names@.len(),
                pre.wf(),
                pre.tasks@.len() + n <= i32::MAX as int,
                pre.next_id + n <= i32::MAX as int,
                forall|k: int| 0 <= k < n ==> #[trigger] views_of(names@)[k].len() > 0,
                forall|k: int| 0 <= k < n ==> !is_blank(#[trigger] views_of(names@)[k]),
                !duplicate_names(names_of(pre.tasks@), views_of(names@)),
                self.next_id == pre.next_id + i,
                self.tasks@.len() == pre.tasks@.len() + i,
                forall|k: int|
                    0 <= k < pre.tasks@.len() ==> self.tasks@[k] == pre.tasks@[k],
                forall|k: int|
                    pre.tasks@.len() <= k < self.tasks@.len() ==> self.tasks@[k] == (Task {
                        id: Some((pre.next_id + (k - pre.tasks@.len())) as i32),
                        idx: None,
                        name: names@[k - pre.tasks@.len()],
                        done: false,
                    }),
            decreases n - i,
        {
            let t = Task { id: Some(self.next_id), idx: None, name: names[i].clone(), done: false };
            self.tasks.push(t);
            self.next_id = self.next_id + 1;
            i += 1;
        }
        proof {
            lemma_append_base_wf(pre, *self, names@);
        }
        self.resync();
        Ok(())
    }

    /// Shifts the cached position of every task at or past `target` upward
    /// by `amount`: the step that makes room for an insertion. Positions are
    /// reassigned from the largest downward, so at no point do two tasks
    /// share a position.
    pub fn shift_indices(&mut self, target: i32, amount: i32)
        requires
            old(self).wf(),
            0 <= amount,
            forall|i: int|
                0 <= i < old(self).tasks@.len() ==> (#[trigger] old(self).tasks@[i]).idx->0
                    + amount <= i32::MAX as int,
        ensures
            final(self).wf(),
            final(self).next_id == old(self).next_id,
            final(self).tasks@.len() == old(self).tasks@.len(),
            forall|i: int|
                0 <= i < old(self).tasks@.len() ==> {
                    let t0 = old(self).tasks@[i];
                    (#[trigger] final(self).tasks@[i]) == (Task {
                        idx: Some(
                            if t0.idx->0 >= target {
                                (t0.idx->0 + amount) as i32
                            } else {
                                t0.idx->0
                            },
                        ),
                        ..t0
                    })
                },
    {
        let n = self.tasks.len();
        let mut i: usize = n;
        while i > 0
            invariant
                i <= n,
                n == self.tasks@.len(),
                n == old(self).tasks@.len(),
                self.next_id == old(self).next_id,
                old(self).wf(),
                0 <= amount,
                forall|k: int|
                    0 <= k < n ==> (#[trigger] old(self).tasks@[k]).idx->0 + amount
                        <= i32::MAX as int,
                forall|k: int| 0 <= k < i as int ==> self.tasks@[k] == old(self).tasks@[k],
                forall|k: int|
                    i as int <= k < n ==> {
                        let t0 = old(self).tasks@[k];
                        (#[trigger] self.tasks@[k]) == (Task {
                            idx: Some(
                                if t0.idx->0 >= target {
                                    (t0.idx->0 + amount) as i32
                                } else {
                                    t0.idx->0
                                },
                            ),
                            ..t0
                        })
                    },
            decreases i,
        {
            i = i - 1;
            proof {
                assert(self.tasks@[i as int] == old(self).tasks@[i as int]);
            }
            let t = &self.tasks[i];
            let cur = t.idx.unwrap();
            if cur >= target {
                let replacement = Task {
                    id: t.id,
                    idx: Some(cur + amount),
                    name: t.name.clone(),
                    done: t.done,
                };
                self.tasks.set(i, replacement);
            } else {
                proof {
                    let t0 = old(self).tasks@[i as int];
                    assert(t0.idx == Some(t0.idx->0));
                    assert(self.tasks@[i as int] == (Task { idx: Some(t0.idx->0), ..t0 }));
                }
            }
        }
        proof {
            assert forall|p: int, q: int|
                0 <= p < q < self.tasks@.len() implies (#[trigger] self.tasks@[p]).idx->0 < (
            #[trigger] self.tasks@[q]).idx->0 by {
                assert(old(self).tasks@[p].idx->0 < old(self).tasks@[q].idx->0);
            }
        }
    }

    /// Inserts one task per name so that they occupy positions
    /// `target, target + 1, ...` in input order, after shifting every task
    /// at or past `target` out of the way. The store must be freshly
    /// resynchronised, and comes out dense again, the earlier tasks
    /// untouched and the shifted ones moved up by the batch size. A name
    /// collision fails the whole call without mutating the store.
    pub fn insert_many_at(&mut self, target: i32, names: &Vec<String>) -> (r: Result<
        (),
        TaskError,
    >)
        requires
            old(self).synced(),
            1 <= target <= old(self).tasks@.len() + 1,
            old(self).tasks@.len() + names@.len() <= i32::MAX as int,
            old(self).next_id + names@.len() <= i32::MAX as int,
            forall|i: int| 0 <= i < names@.len() ==> #[trigger] views_of(names@)[i].len() > 0,
            forall|i: int| 0 <= i < names@.len() ==> !is_blank(#[trigger] views_of(names@)[i]),
        ensures
            r is Err <==> duplicate_names(names_of(old(self).tasks@), views_of(names@)),
            r is Err ==> r == Result::<(), TaskError>::Err(TaskError::DuplicateName)
                && *final(self) == *old(self),
            r is Ok ==> {
                &&& final(self).synced()
                &&& final(self).tasks@.len() == old(self).tasks@.len() + names@.len()
                &&& final(self).next_id == old(self).next_id + names@.len()
                &&& forall|i: int|
                    0 <= i < target - 1 ==> final(self).tasks@[i] == old(self).tasks@[i]
                &&& forall|i: int|
                    target - 1 <= i < target - 1 + names@.len() ==> final(self).tasks@[i] == (Task {
                        id: Some((old(self).next_id + (i - (target - 1))) as i32),
                        idx: Some((i + 1) as i32),
                        name: names@[i - (target - 1)],
                        done: false,
                    })
                &&& forall|i: int|
                    target - 1 + names@.len() <= i < final(self).tasks@.len()
                        ==> final(self).tasks@[i] == (Task {
                        idx: Some((i + 1) as i32),
                        ..old(self).tasks@[i - names@.len()]
                    })
            },
    {
        if self.batch_has_duplicate(names) {
            return Err(TaskError::DuplicateName);
        }
        let ghost pre = *self;
        let k = names.len();
        self.shift_indices(target, k as i32);
        let ghost shifted = self.tasks@;
        let base = (target - 1) as usize;
        let mut m: usize = 0;
        while m < k
            invariant
                m <= k,
                k == names@.len(),
                pre.synced(),
                1 <= target <= pre.tasks@.len() + 1,
                pre.tasks@.len() + k <= i32::MAX as int,
                pre.next_id + k <= i32::MAX as int,
                forall|i: int| 0 <= i < k ==> #[trigger] views_of(names@)[i].len() > 0,
                forall|i: int| 0 <= i < k ==> !is_blank(#[trigger] views_of(names@)[i]),
                base == target - 1,
                shifted.len() == pre.tasks@.len(),
                forall|i: int|
                    0 <= i < pre.tasks@.len() ==> shifted[i] == (Task {
                        idx: Some(
                            if pre.tasks@[i].idx->0 >= target {
                                (pre.tasks@[i].idx->0 + k) as i32
                            } else {
                                pre.tasks@[i].idx->0
                            },
                        ),
                        ..pre.tasks@[i]
                    }),
                self.next_id == pre.next_id + m,
                self.tasks@.len() == pre.tasks@.len() + m,
                forall|i: int| 0 <= i < base as int ==> self.tasks@[i] == shifted[i],
                forall|i: int|
                    base as int <= i < base as int + m ==> self.tasks@[i] == (Task {
                        id: Some((pre.next_id + (i - base as int)) as i32),
                        idx: Some((target + (i - base as int)) as i32),
                        name: names@[i - base as int],
                        done: false,
                    }),
                forall|i: int|
                    base as int + m <= i < self.tasks@.len() ==> self.tasks@[i] == shifted[i - m],
            decreases k - m,
        {
            let t = Task {
                id: Some(self.next_id),
                idx: Some(target + m as i32),
                name: names[m].clone(),
                done: false,
            };
            proof {
                self.tasks@.insert_ensures(base as int + m as int, t);
            }
            self.tasks.insert(base + m, t);
            self.next_id = self.next_id + 1;
            m += 1;
        }
        proof {
            let fin = *self;
            let pn = pre.tasks@.len() as int;
            let kk = k as int;
            let lo = target - 1;
            assert forall|i: int| 0 <= i < lo implies #[trigger] fin.tasks@[i]
                == pre.tasks@[i] by {
                assert(fin.tasks@[i] == shifted[i]);
                let t0 = pre.tasks@[i];
                assert(t0.idx == Some((i + 1) as i32));
                assert(t0.idx->0 == i + 1);
                assert(shifted[i] == (Task { idx: Some(t0.idx->0), ..t0 }));
            }
            assert forall|i: int| lo + kk <= i < fin.tasks@.len() implies #[trigger] fin.tasks@[i]
                == (Task { idx: Some((i + 1) as i32), ..pre.tasks@[i - kk] }) by {
                assert(fin.tasks@[i] == shifted[i - kk]);
                let t0 = pre.tasks@[i - kk];
                assert(t0.idx == Some((i - kk + 1) as i32));
                assert(t0.idx->0 == i - kk + 1);
            }
            assert forall|i: int| 0 <= i < fin.tasks@.len() implies (#[trigger] fin.tasks@[i]).idx
                == Some((i + 1) as i32) by {
                if i < lo {
                    assert(fin.tasks@[i] == pre.tasks@[i]);
                    assert(pre.tasks@[i].idx == Some((i + 1) as i32));
                } else if i < lo + kk {
                } else {
                    assert(fin.tasks@[i] == (Task {
                        idx: Some((i + 1) as i32),
                        ..pre.tasks@[i - kk]
                    }));
                }
            }
            lemma_insert_wf(pre, fin, names@, target, kk);
        }
        Ok(())
    }

    /// Sets the completion flag of the task whose cached position is
    /// `position`; fails when no task occupies that position, mutating
    /// nothing. Positions are untouched, so a resynchronised store stays
    /// resynchronised.
    pub fn mark_done(&mut self, position: i32) -> (r: Result<(), TaskError>)
        requires
            old(self).wf(),
        ensures
            (r is Ok) <==> exists|i: int|
                0 <= i < old(self).tasks@.len() && (#[trigger] old(self).tasks@[i]).idx == Some(
                    position,
                ),
            r is Err ==> r == Result::<(), TaskError>::Err(TaskError::NoSuchPosition { position })
                && *final(self) == *old(self),
            r is Ok ==> {
                &&& final(self).wf()
                &&& final(self).next_id == old(self).next_id
                &&& final(self).tasks@.len() == old(self).tasks@.len()
                &&& forall|i: int|
                    0 <= i < old(self).tasks@.len() ==> {
                        let t0 = old(self).tasks@[i];
                        (#[trigger] final(self).tasks@[i]) == (Task {
                            done: t0.done || t0.idx == Some(position),
                            ..t0
                        })
                    }
            },
            old(self).synced() ==> final(self).synced(),
    {
        match find_position(&self.tasks, position) {
            Some(m) => {
                let t = &self.tasks[m];
                let replacement = Task {
                    id: t.id,
                    idx: t.idx,
                    name: t.name.clone(),
                    done: true,
                };
                self.tasks.set(m, replacement);
                proof {
                    lemma_unique_position(old(self).tasks@, position, m as int);
                    assert forall|i: int| 0 <= i < old(self).tasks@.len() implies {
                        let t0 = old(self).tasks@[i];
                        (#[trigger] self.tasks@[i]) == (Task {
                            done: t0.done || t0.idx == Some(position),
                            ..t0
                        })
                    } by {
                        let t0 = old(self).tasks@[i];
                        if i != m as int {
                            assert(t0.idx != Some(position));
                            assert(self.tasks@[i] == t0);
                            assert(t0 == (Task { done: t0.done, ..t0 }));
                        }
                    }
                }
                Ok(())
            },
            None => Err(TaskError::NoSuchPosition { position }),
        }
    }

    /// Renames the task whose cached position is `position`. Fails, mutating
    /// nothing, when no task occupies that position, or when another task
    /// already bears the new name; renaming a task to its own name is
    /// allowed.
    pub fn rename(&mut self, position: i32, new_name: &String) -> (r: Result<(), TaskError>)
        requires
            old(self).wf(),
            new_name@.len() > 0,
            !is_blank(new_name@),
        ensures
            ({
                let found = exists|i: int|
                    0 <= i < old(self).tasks@.len() && (#[trigger] old(self).tasks@[i]).idx
                        == Some(position);
                let dup = exists|i: int|
                    0 <= i < old(self).tasks@.len() && (#[trigger] old(self).tasks@[i]).name@
                        == new_name@ && old(self).tasks@[i].idx != Some(position);
                &&& (r is Ok <==> found && !dup)
                &&& (!found ==> r == Result::<(), TaskError>::Err(
                    TaskError::NoSuchPosition { position },
                ) && *final(self) == *old(self))
                &&& (found && dup ==> r == Result::<(), TaskError>::Err(TaskError::DuplicateName)
                    && *final(self) == *old(self))
                &&& (r is Ok ==> {
                    &&& final(self).wf()
                    &&& final(self).next_id == old(self).next_id
                    &&& final(self).tasks@.len() == old(self).tasks@.len()
                    &&& forall|i: int|
                        0 <= i < old(self).tasks@.len() ==> {
                            let t0 = old(self).tasks@[i];
                            (#[trigger] final(self).tasks@[i]) == (Task {
                                name: if t0.idx == Some(position) {
                                    *new_name
                                } else {
                                    t0.name
                                },
                                ..t0
                            })
                        }
                })
            }),
            old(self).synced() ==> r is Ok ==> final(self).synced(),
    {
        match find_position(&self.tasks, position) {
            Some(m) => {
                let n = self.tasks.len();
                let mut j: usize = 0;
                while j < n
                    invariant
                        j <= n,
                        n == self.tasks@.len(),
                        *self == *old(self),
                        old(self).wf(),
                        m < n,
                        self.tasks@[m as int].idx == Some(position),
                        forall|l: int|
                            0 <= l < j as int && l != m as int ==> (#[trigger] self.tasks@[l]).name@
                                != new_name@,
                    decreases n - j,
                {
                    if j != m && self.tasks[j].name == *new_name {
                        proof {
                            lemma_unique_position(old(self).tasks@, position, m as int);
                        }
                        return Err(TaskError::DuplicateName);
                    }
                    j += 1;
                }
                let t = &self.tasks[m];
                let replacement = Task {
                    id: t.id,
                    idx: t.idx,
                    name: new_name.clone(),
                    done: t.done,
                };
                self.tasks.set(m, replacement);
                proof {
                    lemma_unique_position(old(self).tasks@, position, m as int);
                    assert forall|i: int| 0 <= i < old(self).tasks@.len() implies {
                        let t0 = old(self).tasks@[i];
                        (#[trigger] self.tasks@[i]) == (Task {
                            name: if t0.idx == Some(position) {
                                *new_name
                            } else {
                                t0.name
                            },
                            ..t0
                        })
                    } by {
                        let t0 = old(self).tasks@[i];
                        if i != m as int {
                            assert(t0.idx != Some(position));
                            assert(self.tasks@[i] == t0);
                            assert(t0 == (Task { name: t0.name, ..t0 }));
                        }
                    }
                }
                Ok(())
            },
            None => Err(TaskError::NoSuchPosition { position }),
        }
    }

    /// Deletes the task whose cached position is `position`; fails, mutating
    /// nothing, when no task occupies it. The remaining positions are not
    /// re-packed here: that happens lazily on the next resync.
    pub fn remove(&mut self, position: i32) -> (r: Result<(), TaskError>)
        requires
            old(self).wf(),
        ensures
            (r is Ok) <==> exists|i: int|
                0 <= i < old(self).tasks@.len() && (#[trigger] old(self).tasks@[i]).idx == Some(
                    position,
                ),
            r is Err ==> r == Result::<(), TaskError>::Err(TaskError::NoSuchPosition { position })
                && *final(self) == *old(self),
            r is Ok ==> {
                &&& final(self).wf()
                &&& final(self).next_id == old(self).next_id
                &&& exists|m: int|
                    0 <= m < old(self).tasks@.len() && (#[trigger] old(self).tasks@[m]).idx
                        == Some(position) && final(self).tasks@ == old(self).tasks@.remove(m)
            },
    {
        match find_position(&self.tasks, position) {
            Some(m) => {
                proof {
                    self.tasks@.remove_ensures(m as int);
                }
                self.tasks.remove(m);
                proof {
                    let m = m as int;
                    let pre = old(self).tasks@;
                    assert forall|i: int|
                        0 <= i < self.tasks@.len() implies (#[trigger] self.tasks@[i]).id is Some
                        && 0 <= self.tasks@[i].id->0 < self.next_id && self.tasks@[i].name@.len()
                        > 0 && self.tasks@[i].idx is Some && 1 <= self.tasks@[i].idx->0 by {
                        let p = if i < m {
                            i
                        } else {
                            i + 1
                        };
                        assert(self.tasks@[i] == pre[p]);
                    }
                    assert forall|i: int, j: int|
                        0 <= i < j < self.tasks@.len() implies (#[trigger] self.tasks@[i]).idx->0
                        < (#[trigger] self.tasks@[j]).idx->0 && self.tasks@[i].id->0
                        != self.tasks@[j].id->0 && self.tasks@[i].name@
                        != self.tasks@[j].name@ by {
                        let p = if i < m {
                            i
                        } else {
                            i + 1
                        };
                        let q = if j < m {
                            j
                        } else {
                            j + 1
                        };
                        assert(self.tasks@[i] == pre[p]);
                        assert(self.tasks@[j] == pre[q]);
                        assert(0 <= p < q < pre.len());
                    }
                }
                Ok(())
            },
            None => Err(TaskError::NoSuchPosition { position }),
        }
    }

    /// Empties the store unconditionally. Identifiers are still never
    /// reused: the next identifier is kept.
    pub fn delete_all(&mut self)
        requires
            0 <= old(self).next_id,
        ensures
            final(self).synced(),
            final(self).tasks@.len() == 0,
            final(self).next_id == old(self).next_id,
    {
        self.tasks = Vec::new();
    }

    /// Repartitions the tasks into the not-yet-done ones followed by the
    /// done ones, each group keeping its relative order, and reassigns
    /// dense positions: a stable two-bucket sort on the completion flag.
    pub fn sort(&mut self)
        requires
            old(self).wf(),
        ensures
            final(self).synced(),
            final(self).next_id == old(self).next_id,
            final(self).tasks@.len() == old(self).tasks@.len(),
            cores_of(final(self).tasks@) == cores_of(todo_part(old(self).tasks@)) + cores_of(
                done_part(old(self).tasks@),
            ),
    {
        let ghost pre_tasks = self.tasks@;
        let n = self.tasks.len();
        let mut out: Vec<Task> = Vec::new();
        let ghost mut surv: Seq<int> = Seq::empty();
        let mut i: usize = 0;
        while i < n
            invariant
                i <= n,
                n == pre_tasks.len(),
                self.tasks@ == pre_tasks,
                *self == *old(self),
                old(self).wf(),
                cores_of(out@) == cores_of(todo_part(pre_tasks.subrange(0, i as int))),
                surv.len() == out@.len(),
                forall|p: int|
                    0 <= p < out@.len() ==> 0 <= #[trigger] surv[p] < i as int && out@[p] == (Task {
                        idx: None,
                        ..pre_tasks[surv[p]]
                    }) && !pre_tasks[surv[p]].done,
                forall|p: int, q: int| 0 <= p < q < out@.len() ==> surv[p] < surv[q],
            decreases n - i,
        {
            let t = &self.tasks[i];
            let ghost out_before = out@;
            if !t.done {
                let nt = Task { id: t.id, idx: None, name: t.name.clone(), done: t.done };
                out.push(nt);
                proof {
                    surv = surv.push(i as int);
                    assert(core_of(nt) == core_of(pre_tasks[i as int]));
                    lemma_part_step(pre_tasks, i as int);
                    lemma_cores_push(out_before, nt);
                    lemma_cores_push(
                        todo_part(pre_tasks.subrange(0, i as int)),
                        pre_tasks[i as int],
                    );
                    assert(cores_of(out@) == cores_of(
                        todo_part(pre_tasks.subrange(0, i as int + 1)),
                    ));
                }
            } else {
                proof {
                    lemma_part_step(pre_tasks, i as int);
                }
            }
            i += 1;
        }
        let ghost n1 = out@.len() as int;
        let ghost mut surv2: Seq<int> = Seq::empty();
        proof {
            reveal(Seq::filter);
            assert(pre_tasks.subrange(0, n as int) =~= pre_tasks);
            assert(out@.subrange(0, n1) =~= out@);
            assert(out@.subrange(n1, out@.len() as int) =~= Seq::<Task>::empty());
            assert(pre_tasks.subrange(0, 0) =~= Seq::<Task>::empty());
            assert(cores_of(out@.subrange(n1, out@.len() as int)) =~= cores_of(
                done_part(pre_tasks.subrange(0, 0)),
            ));
        }
        let mut j: usize = 0;
        while j < n
            invariant
                j <= n,
                n == pre_tasks.len(),
                self.tasks@ == pre_tasks,
                *self == *old(self),
                old(self).wf(),
                n1 <= out@.len(),
                cores_of(out@.subrange(0, n1)) == cores_of(todo_part(pre_tasks)),
                cores_of(out@.subrange(n1, out@.len() as int)) == cores_of(
                    done_part(pre_tasks.subrange(0, j as int)),
                ),
                surv.len() == n1,
                forall|p: int|
                    0 <= p < n1 ==> 0 <= #[trigger] surv[p] < n as int && out@[p] == (Task {
                        idx: None,
                        ..pre_tasks[surv[p]]
                    }) && !pre_tasks[surv[p]].done,
                forall|p: int, q: int| 0 <= p < q < n1 ==> surv[p] < surv[q],
                surv2.len() == out@.len() - n1,
                forall|m: int|
                    0 <= m < surv2.len() ==> {
                        let s2 = #[trigger] surv2[m];
                        0 <= s2 < j as int && out@[n1 + m] == (Task {
                            idx: None,
                            ..pre_tasks[s2]
                        }) && pre_tasks[s2].done
                    },
                forall|p: int, q: int| 0 <= p < q < surv2.len() ==> surv2[p] < surv2[q],
            decreases n - j,
        {
            let t = &self.tasks[j];
            let ghost out_before = out@;
            if t.done {
                let nt = Task { id: t.id, idx: None, name: t.name.clone(), done: t.done };
                out.push(nt);
                proof {
                    surv2 = surv2.push(j as int);
                    assert(core_of(nt) == core_of(pre_tasks[j as int]));
                    lemma_part_step(pre_tasks, j as int);
                    assert(out@.subrange(0, n1) =~= out_before.subrange(0, n1));
                    assert(out@.subrange(n1, out@.len() as int) =~= out_before.subrange(
                        n1,
                        out_before.len() as int,
                    ).push(nt));
                    lemma_cores_push(out_before.subrange(n1, out_before.len() as int), nt);
                    lemma_cores_push(
                        done_part(pre_tasks.subrange(0, j as int)),
                        pre_tasks[j as int],
                    );
                    assert(cores_of(out@.subrange(n1, out@.len() as int)) == cores_of(
                        done_part(pre_tasks.subrange(0, j as int + 1)),
                    ));
                }
            } else {
                proof {
                    lemma_part_step(pre_tasks, j as int);
                }
            }
            j += 1;
        }
        proof {
            assert(pre_tasks.subrange(0, n as int) =~= pre_tasks);
            lemma_partition_len(pre_tasks);
            assert(out@.len() == n as int) by {
                assert(cores_of(out@.subrange(0, n1)).len() == cores_of(todo_part(pre_tasks)).len());
                assert(cores_of(out@.subrange(n1, out@.len() as int)).len() == cores_of(
                    done_part(pre_tasks),
                ).len());
            }
            assert forall|p: int| 0 <= p < out@.len() implies (#[trigger] out@[p]).id is Some && 0
                <= out@[p].id->0 < self.next_id && out@[p].name@.len() > 0 && !is_blank(
                out@[p].name@,
            ) by {
                let s = if p < n1 {
                    surv[p]
                } else {
                    surv2[p - n1]
                };
                assert(out@[p] == (Task { idx: None, ..pre_tasks[s] }));
            }
            assert forall|p: int, q: int|
                0 <= p < q < out@.len() implies (#[trigger] out@[p]).id->0 != (
            #[trigger] out@[q]).id->0 && out@[p].name@ != out@[q].name@ by {
                let sp = if p < n1 {
                    surv[p]
                } else {
                    surv2[p - n1]
                };
                let sq = if q < n1 {
                    surv[q]
                } else {
                    surv2[q - n1]
                };
                assert(out@[p] == (Task { idx: None, ..pre_tasks[sp] }));
                assert(out@[q] == (Task { idx: None, ..pre_tasks[sq] }));
                assert(sp != sq);
                if sp < sq {
                    assert(pre_tasks[sp].id->0 != pre_tasks[sq].id->0);
                    assert(pre_tasks[sp].name@ != pre_tasks[sq].name@);
                } else {
                    assert(pre_tasks[sq].id->0 != pre_tasks[sp].id->0);
                    assert(pre_tasks[sq].name@ != pre_tasks[sp].name@);
                }
            }
        }
        self.tasks = out;
        let ghost mid_tasks = self.tasks@;
        self.resync();
        proof {
            assert(cores_of(self.tasks@) =~= cores_of(mid_tasks));
            assert(cores_of(mid_tasks.subrange(0, n1)) == cores_of(todo_part(pre_tasks)));
            assert(cores_of(mid_tasks.subrange(n1, mid_tasks.len() as int)) == cores_of(
                done_part(pre_tasks),
            ));
            assert(cores_of(self.tasks@) =~= cores_of(todo_part(pre_tasks)) + cores_of(
                done_part(pre_tasks),
            ));
        }
    }

    /// All tasks whose name contains `term` as a case-sensitive substring,
    /// in listing order, with positions renumbered 1..K over the match set
    /// alone, independent of the stored positions.
    pub fn search(&self, term: &str) -> (r: Vec<Task>)
        requires
            self.wf(),
        ensures
            cores_of(r@) == cores_of(matching_part(self.tasks@, term@)),
            forall|i: int| 0 <= i < r@.len() ==> (#[trigger] r@[i]).idx == Some((i + 1) as i32),
    {
        let n = self.tasks.len();
        let mut out: Vec<Task> = Vec::new();
        let mut i: usize = 0;
        while i < n
            invariant
                i <= n,
                n == self.tasks@.len(),
                self.wf(),
                out@.len() <= i as int,
                cores_of(out@) == cores_of(matching_part(self.tasks@.subrange(0, i as int), term@)),
                forall|p: int|
                    0 <= p < out@.len() ==> (#[trigger] out@[p]).idx == Some((p + 1) as i32),
            decreases n - i,
        {
            let t = &self.tasks[i];
            let ghost out_before = out@;
            if str_contains(t.name.as_str(), term) {
                let pos = out.len() as i32 + 1;
                let nt = Task { id: t.id, idx: Some(pos), name: t.name.clone(), done: t.done };
                out.push(nt);
                proof {
                    assert(core_of(nt) == core_of(self.tasks@[i as int]));
                    lemma_match_step(self.tasks@, term@, i as int);
                    lemma_cores_push(out_before, nt);
                    lemma_cores_push(
                        matching_part(self.tasks@.subrange(0, i as int), term@),
                        self.tasks@[i as int],
                    );
                    assert(cores_of(out@) == cores_of(
                        matching_part(self.tasks@.subrange(0, i as int + 1), term@),
                    ));
                }
            } else {
                proof {
                    lemma_match_step(self.tasks@, term@, i as int);
                }
            }
            i += 1;
        }
        proof {
            assert(self.tasks@.subrange(0, n as int) =~= self.tasks@);
        }
        out
    }

    /// Removes every task that is marked done, keeping the rest in order,
    /// and resynchronises. Returns the names of the removed tasks, in
    /// their display order.
    pub fn remove_done(&mut self) -> (r: Vec<String>)
        requires
            old(self).wf(),
        ensures
            final(self).synced(),
            final(self).next_id == old(self).next_id,
            cores_of(final(self).tasks@) == cores_of(todo_part(old(self).tasks@)),
            views_of(r@) == names_of(done_part(old(self).tasks@)),
    {
        let ghost pre_tasks = self.tasks@;
        let n = self.tasks.len();
        let mut out: Vec<Task> = Vec::new();
        let mut removed: Vec<String> = Vec::new();
        let ghost mut surv: Seq<int> = Seq::empty();
        let mut i: usize = 0;
        while i < n
            invariant
                i <= n,
                n == pre_tasks.len(),
                self.tasks@ == pre_tasks,
                *self == *old(self),
                old(self).wf(),
                out@.len() <= i as int,
                cores_of(out@) == cores_of(todo_part(pre_tasks.subrange(0, i as int))),
                views_of(removed@) == names_of(done_part(pre_tasks.subrange(0, i as int))),
                surv.len() == out@.len(),
                forall|p: int|
                    0 <= p < out@.len() ==> 0 <= #[trigger] surv[p] < i as int && out@[p] == (Task {
                        idx: None,
                        ..pre_tasks[surv[p]]
                    }),
                forall|p: int, q: int| 0 <= p < q < out@.len() ==> surv[p] < surv[q],
            decreases n - i,
        {
            let t = &self.tasks[i];
            let ghost out_before = out@;
            let ghost removed_before = removed@;
            if t.done {
                let nm = t.name.clone();
                removed.push(nm);
                proof {
                    lemma_part_step(pre_tasks, i as int);
                    crate::task::lemma_views_push(removed_before, nm);
                    crate::task::lemma_names_push(
                        done_part(pre_tasks.subrange(0, i as int)),
                        pre_tasks[i as int],
                    );
                    assert(views_of(removed@) == names_of(
                        done_part(pre_tasks.subrange(0, i as int + 1)),
                    ));
                }
            } else {
                let nt = Task { id: t.id, idx: None, name: t.name.clone(), done: t.done };
                out.push(nt);
                proof {
                    surv = surv.push(i as int);
                    assert(core_of(nt) == core_of(pre_tasks[i as int]));
                    lemma_part_step(pre_tasks, i as int);
                    lemma_cores_push(out_before, nt);
                    lemma_cores_push(
                        todo_part(pre_tasks.subrange(0, i as int)),
                        pre_tasks[i as int],
                    );
                    assert(cores_of(out@) == cores_of(
                        todo_part(pre_tasks.subrange(0, i as int + 1)),
                    ));
                }
            }
            i += 1;
        }
        proof {
            assert(pre_tasks.subrange(0, n as int) =~= pre_tasks);
            assert forall|p: int| 0 <= p < out@.len() implies (#[trigger] out@[p]).id is Some && 0
                <= out@[p].id->0 < self.next_id && out@[p].name@.len() > 0 && !is_blank(
                out@[p].name@,
            ) by {
                assert(out@[p] == (Task { idx: None, ..pre_tasks[surv[p]] }));
            }
            assert forall|p: int, q: int|
                0 <= p < q < out@.len() implies (#[trigger] out@[p]).id->0 != (
            #[trigger] out@[q]).id->0 && out@[p].name@ != out@[q].name@ by {
                assert(out@[p] == (Task { idx: None, ..pre_tasks[surv[p]] }));
                assert(out@[q] == (Task { idx: None, ..pre_tasks[surv[q]] }));
                assert(surv[p] < surv[q]);
            }
        }
        self.tasks = out;
        let ghost mid_tasks = self.tasks@;
        self.resync();
        proof {
            assert(cores_of(self.tasks@) =~= cores_of(mid_tasks));
        }
        removed
    }

    /// Rebuilds a store from externally supplied rows in listing order, as
    /// when reading the persisted table back. The rows are validated
    /// against the store invariant, given dense positions, and the next
    /// identifier starts past the largest one present; rows that cannot
    /// form a valid store yield nothing.
    pub fn load(rows: Vec<Task>) -> (r: Option<TaskStore>)
        ensures
            r is Some <==> loadable(rows@),
            r is Some ==> {
                let s = r->0;
                &&& s.synced()
                &&& s.tasks@.len() == rows@.len()
                &&& forall|i: int|
                    0 <= i < rows@.len() ==> s.tasks@[i] == (Task {
                        idx: Some((i + 1) as i32),
                        ..rows@[i]
                    })
            },
    {
        let n = rows.len();
        if n > i32::MAX as usize {
            return None;
        }
        let mut max_id: i32 = -1;
        let mut i: usize = 0;
        while i < n
            invariant
                i <= n,
                n == rows@.len(),
                -1 <= max_id < i32::MAX,
                forall|k: int| 0 <= k < i as int ==> (#[trigger] rows@[k]).id is Some,
                forall|k: int|
                    0 <= k < i as int ==> 0 <= (#[trigger] rows@[k]).id->0 < i32::MAX as int,
                forall|k: int| 0 <= k < i as int ==> (#[trigger] rows@[k]).name@.len() > 0,
                forall|k: int| 0 <= k < i as int ==> !is_blank((#[trigger] rows@[k]).name@),
                forall|k: int| 0 <= k < i as int ==> (#[trigger] rows@[k]).id->0 <= max_id,
            decreases n - i,
        {
            let t = &rows[i];
            match t.id {
                Some(id) => {
                    if id < 0 || id == i32::MAX {
                        return None;
                    }
                    if crate::text::blank_text(t.name.as_str()) {
                        return None;
                    }
                    if id > max_id {
                        max_id = id;
                    }
                },
                None => {
                    return None;
                },
            }
            i += 1;
        }
        let mut i: usize = 0;
        while i < n
            invariant
                i <= n,
                n == rows@.len(),
                forall|k: int| 0 <= k < n ==> (#[trigger] rows@[k]).id is Some,
                forall|p: int, q: int|
                    0 <= p < q < n && q < i as int ==> (#[trigger] rows@[p]).id->0 != (
                    #[trigger] rows@[q]).id->0 && rows@[p].name@ != rows@[q].name@,
            decreases n - i,
        {
            let mut j: usize = 0;
            while j < i
                invariant
                    j <= i < n,
                    n == rows@.len(),
                    forall|k: int| 0 <= k < n ==> (#[trigger] rows@[k]).id is Some,
                    forall|l: int|
                        0 <= l < j as int ==> (#[trigger] rows@[l]).id->0 != rows@[i as int].id->0
                            && rows@[l].name@ != rows@[i as int].name@,
                decreases i - j,
            {
                let same_id = match (rows[j].id, rows[i].id) {
                    (Some(a), Some(b)) => a == b,
                    _ => false,
                };
                if same_id || rows[j].name == rows[i].name {
                    return None;
                }
                j += 1;
            }
            i += 1;
        }
        let mut s = TaskStore { tasks: rows, next_id: max_id + 1 };
        proof {
            assert forall|p: int, q: int|
                0 <= p < q < s.tasks@.len() implies (#[trigger] s.tasks@[p]).id->0 != (
            #[trigger] s.tasks@[q]).id->0 && s.tasks@[p].name@ != s.tasks@[q].name@ by {}
        }
        s.resync();
        Some(s)
    }

    /// Does some incoming name collide with an existing task's name, or with
    /// an earlier name of the same batch?
    fn batch_has_duplicate(&self, names: &Vec<String>) -> (b: bool)
        ensures
            b == duplicate_names(names_of(self.tasks@), views_of(names@)),
    {
        let n = names.len();
        let mut i: usize = 0;
        while i < n
            invariant
                i <= n,
                n == names@.len(),
                forall|k: int|
                    0 <= k < i as int ==> !names_of(self.tasks@).contains(
                        #[trigger] views_of(names@)[k],
                    ),
                forall|k: int, l: int|
                    0 <= k < l < i as int ==> views_of(names@)[k] != views_of(names@)[l],
            decreases n - i,
        {
            if name_among(&self.tasks, &names[i]) {
                proof {
                    assert(names_of(self.tasks@).contains(views_of(names@)[i as int]));
                }
                return true;
            }
            let mut j: usize = 0;
            while j < i
                invariant
                    j <= i < n,
                    n == names@.len(),
                    forall|l: int|
                        0 <= l < j as int ==> views_of(names@)[l] != views_of(names@)[i as int],
                decreases i - j,
            {
                if names[j] == names[i] {
                    proof {
                        assert(views_of(names@)[j as int] == views_of(names@)[i as int]);
                    }
                    return true;
                }
                j += 1;
            }
            i += 1;
        }
        false
    }
}

/// Extending a prefix by one element extends its two completion-flag
/// buckets by that element or leaves them unchanged, according to the flag.
pub(crate) proof fn lemma_part_step(s: Seq<Task>, i: int)
    requires
        0 <= i < s.len(),
    ensures
        !s[i].done ==> todo_part(s.subrange(0, i + 1)) == todo_part(s.subrange(0, i)).push(s[i]),
        s[i].done ==> todo_part(s.subrange(0, i + 1)) == todo_part(s.subrange(0, i)),
        s[i].done ==> done_part(s.subrange(0, i + 1)) == done_part(s.subrange(0, i)).push(s[i]),
        !s[i].done ==> done_part(s.subrange(0, i + 1)) == done_part(s.subrange(0, i)),
{
    reveal(Seq::filter);
    let a = s.subrange(0, i + 1);
    assert(a.drop_last() =~= s.subrange(0, i));
    assert(a.last() == s[i]);
}

/// The same step, for the bucket of tasks whose name contains a term.
proof fn lemma_match_step(s: Seq<Task>, term: Seq<char>, i: int)
    requires
        0 <= i < s.len(),
    ensures
        seq_contains(s[i].name@, term) ==> matching_part(s.subrange(0, i + 1), term)
            == matching_part(s.subrange(0, i), term).push(s[i]),
        !seq_contains(s[i].name@, term) ==> matching_part(s.subrange(0, i + 1), term)
            == matching_part(s.subrange(0, i), term),
{
    reveal(Seq::filter);
    let a = s.subrange(0, i + 1);
    assert(a.drop_last() =~= s.subrange(0, i));
    assert(a.last() == s[i]);
}

/// Every task lands in exactly one of the two completion-flag buckets.
proof fn lemma_partition_len(s: Seq<Task>)
    ensures
        todo_part(s).len() + done_part(s).len() == s.len(),
    decreases s.len(),
{
    reveal(Seq::filter);
    if s.len() > 0 {
        lemma_partition_len(s.drop_last());
    }
}

/// The vector index of the task caching position `position`, if any.
fn find_position(tasks: &Vec<Task>, position: i32) -> (r: Option<usize>)
    ensures
        match r {
            Some(m) => m < tasks@.len() && tasks@[m as int].idx == Some(position),
            None => forall|i: int|
                0 <= i < tasks@.len() ==> (#[trigger] tasks@[i]).idx != Some(position),
        },
{
    let n = tasks.len();
    let mut i: usize = 0;
    while i < n
        invariant
            i <= n,
            n == tasks@.len(),
            forall|k: int| 0 <= k < i as int ==> (#[trigger] tasks@[k]).idx != Some(position),
        decreases n - i,
    {
        let here = match tasks[i].idx {
            Some(x) => x == position,
            None => false,
        };
        if here {
            return Some(i);
        }
        i += 1;
    }
    None
}

/// Under the invariant, at most one task caches any given position: the
/// cached positions strictly increase in listing order.
pub proof fn lemma_unique_position(tasks: Seq<Task>, position: i32, m: int)
    requires
        0 <= m < tasks.len(),
        tasks[m].idx == Some(position),
        forall|i: int, j: int|
            0 <= i < j < tasks.len() ==> (#[trigger] tasks[i]).idx->0 < (#[trigger] tasks[j]).idx
                ->0,
    ensures
        forall|i: int|
            0 <= i < tasks.len() && i != m ==> (#[trigger] tasks[i]).idx != Some(position),
{
    assert forall|i: int| 0 <= i < tasks.len() && i != m implies (#[trigger] tasks[i]).idx != Some(
        position,
    ) by {
        if i < m {
            assert(tasks[i].idx->0 < tasks[m].idx->0);
        } else {
            assert(tasks[m].idx->0 < tasks[i].idx->0);
        }
    }
}

/// Does `name` occur among the names of `tasks`?
fn name_among(tasks: &Vec<Task>, name: &String) -> (b: bool)
    ensures
        b == names_of(tasks@).contains(name@),
{
    let n = tasks.len();
    let mut i: usize = 0;
    while i < n
        invariant
            i <= n,
            n == tasks@.len(),
            forall|k: int| 0 <= k < i as int ==> #[trigger] names_of(tasks@)[k] != name@,
        decreases n - i,
    {
        if tasks[i].name == *name {
            proof {
                assert(names_of(tasks@)[i as int] == name@);
            }
            return true;
        }
        i += 1;
    }
    proof {
        assert forall|k: int| 0 <= k < tasks@.len() implies #[trigger] names_of(tasks@)[k]
            != name@ by {}
        assert(!names_of(tasks@).contains(name@));
    }
    false
}

/// Clones a task list element for element.
pub fn clone_tasks(v: &Vec<Task>) -> (r: Vec<Task>)
    ensures
        r@ == v@,
{
    let n = v.len();
    let mut r: Vec<Task> = Vec::new();
    let mut i: usize = 0;
    while i < n
        invariant
            i <= n,
            n == v@.len(),
            r@.len() == i as int,
            forall|k: int| 0 <= k < i as int ==> r@[k] == v@[k],
        decreases n - i,
    {
        let t = v[i].clone();
        r.push(t);
        i += 1;
    }
    proof {
        assert(r@ =~= v@);
    }
    r
}

/// After shifting and splicing a batch into the list, the store still
/// meets the position-free part of the invariant: identifiers and names
/// stay unique because the fresh identifiers are new and the duplicate
/// check ruled out name collisions.
proof fn lemma_insert_wf(pre: TaskStore, fin: TaskStore, names: Seq<String>, target: i32, kk: int)
    requires
        pre.wf(),
        1 <= target <= pre.tasks@.len() + 1,
        pre.tasks@.len() + kk <= i32::MAX as int,
        pre.next_id + kk <= i32::MAX as int,
        kk == names.len(),
        forall|i: int| 0 <= i < kk ==> #[trigger] views_of(names)[i].len() > 0,
        forall|i: int| 0 <= i < kk ==> !is_blank(#[trigger] views_of(names)[i]),
        !duplicate_names(names_of(pre.tasks@), views_of(names)),
        fin.next_id == pre.next_id + kk,
        fin.tasks@.len() == pre.tasks@.len() + kk,
        forall|i: int|
            0 <= i < target - 1 ==> {
                let t1 = #[trigger] fin.tasks@[i];
                let t0 = pre.tasks@[i];
                t1.id == t0.id && t1.name == t0.name && t1.done == t0.done
            },
        forall|i: int|
            target - 1 <= i < target - 1 + kk ==> {
                let t1 = #[trigger] fin.tasks@[i];
                t1.id == Some((pre.next_id + (i - (target - 1))) as i32) && t1.name == names[i - (
                target - 1)] && t1.done == false
            },
        forall|i: int|
            target - 1 + kk <= i < fin.tasks@.len() ==> {
                let t1 = #[trigger] fin.tasks@[i];
                let t0 = pre.tasks@[i - kk];
                t1.id == t0.id && t1.name == t0.name && t1.done == t0.done
            },
    ensures
        fin.base_wf(),
{
    let pn = pre.tasks@.len() as int;
    let lo = target - 1;
    let spec_pre_index = |i: int|
        if i < lo {
            i
        } else {
            i - kk
        };
    assert forall|i: int| 0 <= i < fin.tasks@.len() implies (#[trigger] fin.tasks@[i]).id is Some
        && 0 <= fin.tasks@[i].id->0 < fin.next_id && fin.tasks@[i].name@.len() > 0 && !is_blank(
        fin.tasks@[i].name@,
    ) by {
        if lo <= i < lo + kk {
            assert(views_of(names)[i - lo] == names[i - lo]@);
        }
    }
    assert forall|i: int, j: int|
        0 <= i < j < fin.tasks@.len() implies (#[trigger] fin.tasks@[i]).id->0 != (
    #[trigger] fin.tasks@[j]).id->0 by {
        if (i < lo || i >= lo + kk) && (j < lo || j >= lo + kk) {
            let p = spec_pre_index(i);
            let q = spec_pre_index(j);
            assert(0 <= p < q < pn);
        }
    }
    assert forall|i: int, j: int|
        0 <= i < j < fin.tasks@.len() implies (#[trigger] fin.tasks@[i]).name@ != (
    #[trigger] fin.tasks@[j]).name@ by {
        let old_i = i < lo || i >= lo + kk;
        let old_j = j < lo || j >= lo + kk;
        if old_i && old_j {
            let p = spec_pre_index(i);
            let q = spec_pre_index(j);
            assert(0 <= p < q < pn);
            assert(fin.tasks@[i].name@ == pre.tasks@[p].name@);
            assert(fin.tasks@[j].name@ == pre.tasks@[q].name@);
        } else if old_i && !old_j {
            let p = spec_pre_index(i);
            assert(fin.tasks@[i].name@ == pre.tasks@[p].name@);
            assert(fin.tasks@[j].name@ == names[j - lo]@);
            assert(names_of(pre.tasks@)[p] == pre.tasks@[p].name@);
            if pre.tasks@[p].name@ == names[j - lo]@ {
                assert(names_of(pre.tasks@).contains(views_of(names)[j - lo]));
            }
        } else if !old_i && old_j {
            let q = spec_pre_index(j);
            assert(fin.tasks@[j].name@ == pre.tasks@[q].name@);
            assert(fin.tasks@[i].name@ == names[i - lo]@);
            assert(names_of(pre.tasks@)[q] == pre.tasks@[q].name@);
            if pre.tasks@[q].name@ == names[i - lo]@ {
                assert(names_of(pre.tasks@).contains(views_of(names)[i - lo]));
            }
        } else {
            assert(views_of(names)[i - lo] == names[i - lo]@);
            assert(views_of(names)[j - lo] == names[j - lo]@);
        }
    }
}

/// After the push phase of an append, the store still meets the
/// position-free part of the invariant: the fresh identifiers are new and
/// the duplicate check ruled out name collisions.
proof fn lemma_append_base_wf(pre: TaskStore, cur: TaskStore, names: Seq<String>)
    requires
        pre.wf(),
        pre.tasks@.len() + names.len() <= i32::MAX as int,
        pre.next_id + names.len() <= i32::MAX as int,
        forall|k: int| 0 <= k < names.len() ==> #[trigger] views_of(names)[k].len() > 0,
        forall|k: int| 0 <= k < names.len() ==> !is_blank(#[trigger] views_of(names)[k]),
        !duplicate_names(names_of(pre.tasks@), views_of(names)),
        cur.next_id == pre.next_id + names.len(),
        cur.tasks@.len() == pre.tasks@.len() + names.len(),
        forall|k: int| 0 <= k < pre.tasks@.len() ==> cur.tasks@[k] == pre.tasks@[k],
        forall|k: int|
            pre.tasks@.len() <= k < cur.tasks@.len() ==> cur.tasks@[k] == (Task {
                id: Some((pre.next_id + (k - pre.tasks@.len())) as i32),
                idx: None,
                name: names[k - pre.tasks@.len()],
                done: false,
            }),
    ensures
        cur.base_wf(),
{
    let pn = pre.tasks@.len() as int;
    assert forall|i: int|
        0 <= i < cur.tasks@.len() implies (#[trigger] cur.tasks@[i]).id is Some && 0
        <= cur.tasks@[i].id->0 < cur.next_id && cur.tasks@[i].name@.len() > 0 && !is_blank(
        cur.tasks@[i].name@,
    ) by {
        if i < pn {
            assert(cur.tasks@[i] == pre.tasks@[i]);
        } else {
            assert(views_of(names)[i - pn] == names[i - pn]@);
        }
    }
    assert forall|i: int, j: int|
        0 <= i < j < cur.tasks@.len() implies (#[trigger] cur.tasks@[i]).id->0 != (
    #[trigger] cur.tasks@[j]).id->0 by {
        if i < pn && j < pn {
            assert(cur.tasks@[i] == pre.tasks@[i]);
            assert(cur.tasks@[j] == pre.tasks@[j]);
        }
    }
    assert forall|i: int, j: int|
        0 <= i < j < cur.tasks@.len() implies (#[trigger] cur.tasks@[i]).name@ != (
    #[trigger] cur.tasks@[j]).name@ by {
        if i < pn && j >= pn {
            assert(names_of(pre.tasks@)[i] == pre.tasks@[i].name@);
            assert(views_of(names)[j - pn] == names[j - pn]@);
            if pre.tasks@[i].name@ == names[j - pn]@ {
                assert(names_of(pre.tasks@).contains(views_of(names)[j - pn]));
            }
        } else if i >= pn {
            assert(views_of(names)[i - pn] == names[i - pn]@);
            assert(views_of(names)[j - pn] == names[j - pn]@);
        }
    }
}

} // verus!
