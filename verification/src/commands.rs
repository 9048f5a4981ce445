use vstd::prelude::*;

use crate::store::TaskStore;
use crate::store::clone_tasks;
use crate::store::done_part;
use crate::store::duplicate_names;
use crate::store::lemma_unique_position;
use crate::store::matching_part;
use crate::store::occupies;
use crate::store::todo_part;
use crate::task::Task;
use crate::task::TaskError;
use crate::task::cores_of;
use crate::task::lemma_views_push;
use crate::task::names_of;
use crate::task::views_of;
use crate::text::is_blank;
use crate::text::blank_text;
use crate::text::lowered_of;
use crate::text::lowercase_text;
use crate::text::trimmed_of;
use crate::text::trim_text;
use vstd::string::StringExecFns;

verus! {

/// The parsed command line: one optional subcommand.
pub struct Cli {
    pub command: Option<Commands>,
}

/// The commands the tool understands, with their argument shapes.
pub enum Commands {
    /// Adds new tasks at the end of the list.
    Add { task_names: Vec<String> },
    /// Adds new tasks at a given position.
    Insert { index: i32, task_names: Vec<String> },
    /// Changes the name of a task.
    Modify { task_index: i32, new_name: String },
    /// Lists tasks of the given kind, decorated.
    List { display_type: String },
    /// Prints bare task names of the given kind.
    Raw { display_type: String },
    /// Lists tasks whose name contains the search term.
    Find { search_term: String },
    /// Marks tasks as done.
    Done { task_indices: Vec<i32> },
    /// Reorders tasks: to-do first, done last.
    Sort,
    /// Removes tasks.
    Remove { task_indices: Vec<i32> },
    /// Removes all tasks marked as done.
    Clear,
    /// Deletes all tasks.
    Reset,
    /// Copies the task store to a backup file.
    Backup,
    /// Restores the task store from a backup file.
    Restore { backup_path: String },
}

/// The kinds of listing a display command can ask for.
#[derive(Debug, PartialEq, Eq, Structural, Clone, Copy)]
pub enum DisplayType {
    All,
    Todo,
    Done,
}

impl DisplayType {
    /// Parses a display kind, ignoring case and surrounding whitespace.
    pub fn from_str(s: &str) -> (r: Option<DisplayType>)
        ensures
            ({
                let canon = lowered_of(trimmed_of(s@));
                &&& (r == Some(DisplayType::All) <==> canon == "all"@)
                &&& (r == Some(DisplayType::Todo) <==> canon == "todo"@)
                &&& (r == Some(DisplayType::Done) <==> canon == "done"@)
                &&& (r is None <==> canon != "all"@ && canon != "todo"@ && canon != "done"@)
            }),
    {
        proof {
            reveal_strlit("all");
            reveal_strlit("todo");
            reveal_strlit("done");
            assert("all"@.len() == 3);
            assert("todo"@.len() == 4);
            assert("done"@.len() == 4);
            assert("todo"@[0] == 't');
            assert("done"@[0] == 'd');
            assert("all"@ != "todo"@);
            assert("all"@ != "done"@);
            assert("todo"@ != "done"@);
        }
        let t = trim_text(s);
        let low = lowercase_text(t);
        if low == String::from_str("all") {
            Some(DisplayType::All)
        } else if low == String::from_str("todo") {
            Some(DisplayType::Todo)
        } else if low == String::from_str("done") {
            Some(DisplayType::Done)
        } else {
            None
        }
    }
}

/// The names of a batch that survive the blank filter, as views.
pub open spec fn kept_names(names: Seq<String>) -> Seq<Seq<char>> {
    views_of(names).filter(|s: Seq<char>| !is_blank(s))
}

/// Extending a batch by one name extends its kept part by that name's view,
/// or leaves it unchanged when the name is blank.
proof fn lemma_keep_step(names: Seq<String>, i: int)
    requires
        0 <= i < names.len(),
    ensures
        !is_blank(names[i]@) ==> kept_names(names.subrange(0, i + 1)) == kept_names(
            names.subrange(0, i),
        ).push(names[i]@),
        is_blank(names[i]@) ==> kept_names(names.subrange(0, i + 1)) == kept_names(
            names.subrange(0, i),
        ),
{
    reveal(Seq::filter);
    assert(views_of(names.subrange(0, i + 1)).drop_last() =~= views_of(names.subrange(0, i)));
    assert(views_of(names.subrange(0, i + 1)).last() == names[i]@);
}

/// Drops the blank names of a batch, keeping the rest in order.
fn filter_blank(names: &Vec<String>) -> (r: Vec<String>)
    ensures
        views_of(r@) == kept_names(names@),
        r@.len() <= names@.len(),
        forall|i: int| 0 <= i < r@.len() ==> #[trigger] views_of(r@)[i].len() > 0,
        forall|i: int| 0 <= i < r@.len() ==> !is_blank(#[trigger] views_of(r@)[i]),
{
    let n = names.len();
    let mut r: Vec<String> = Vec::new();
    let mut i: usize = 0;
    while i < n
        invariant
            i <= n,
            n == names@.len(),
            r@.len() <= i as int,
            views_of(r@) == kept_names(names@.subrange(0, i as int)),
            forall|k: int| 0 <= k < r@.len() ==> #[trigger] views_of(r@)[k].len() > 0,
            forall|k: int| 0 <= k < r@.len() ==> !is_blank(#[trigger] views_of(r@)[k]),
        decreases n - i,
    {
        let ghost r_before = r@;
        if !blank_text(names[i].as_str()) {
            let x = names[i].clone();
            r.push(x);
            proof {
                lemma_views_push(r_before, x);
                lemma_keep_step(names@, i as int);
            }
        } else {
            proof {
                lemma_keep_step(names@, i as int);
            }
        }
        i += 1;
    }
    proof {
        assert(names@.subrange(0, n as int) =~= names@);
    }
    r
}

/// Adds the given tasks at the end of the list: blank names are dropped, an
/// all-blank batch is refused, and a duplicate name refuses the whole batch
/// without mutating the store. On success the surviving names are returned
/// and the store is resynchronised with the new tasks at the end, in input
/// order.
pub fn add(store: &mut TaskStore, task_names: &Vec<String>) -> (r: Result<Vec<String>, TaskError>)
    requires
        old(store).wf(),
        old(store).tasks@.len() + task_names@.len() <= i32::MAX as int,
        old(store).next_id + task_names@.len() <= i32::MAX as int,
    ensures
        ({
            let kept = kept_names(task_names@);
            let n0 = old(store).tasks@.len() as int;
            &&& (r == Result::<Vec<String>, TaskError>::Err(TaskError::NoValidTasks) <==> kept.len()
                == 0)
            &&& (r == Result::<Vec<String>, TaskError>::Err(TaskError::DuplicateName) <==> kept.len()
                > 0 && duplicate_names(names_of(old(store).tasks@), kept))
            &&& (r is Ok <==> kept.len() > 0 && !duplicate_names(names_of(old(store).tasks@), kept))
            &&& (r is Err ==> *final(store) == *old(store))
            &&& (r is Ok ==> {
                &&& views_of(r->Ok_0@) == kept
                &&& final(store).synced()
                &&& final(store).tasks@.len() == n0 + kept.len()
                &&& final(store).next_id == old(store).next_id + kept.len()
                &&& forall|i: int|
                    0 <= i < n0 ==> final(store).tasks@[i] == (Task {
                        idx: Some((i + 1) as i32),
                        ..old(store).tasks@[i]
                    })
                &&& forall|i: int|
                    n0 <= i < n0 + kept.len() ==> {
                        let t = #[trigger] final(store).tasks@[i];
                        &&& t.id == Some((old(store).next_id + (i - n0)) as i32)
                        &&& t.idx == Some((i + 1) as i32)
                        &&& t.name@ == kept[i - n0]
                        &&& t.done == false
                    }
            })
        }),
{
    let kept = filter_blank(task_names);
    if kept.len() == 0 {
        return Err(TaskError::NoValidTasks);
    }
    match store.append_many(&kept) {
        Ok(()) => Ok(kept),
        Err(e) => Err(e),
    }
}

/// Inserts the given tasks so that they occupy positions
/// `index, index + 1, ...` (an index of 0 behaves like 1), after validating
/// the index against the task count and dropping blank names. Existing
/// tasks at or past the insertion point move up by the batch size; a
/// duplicate name refuses the whole batch without changing the content.
pub fn insert(store: &mut TaskStore, index: i32, task_names: &Vec<String>) -> (r: Result<
    Vec<String>,
    TaskError,
>)
    requires
        old(store).wf(),
        old(store).tasks@.len() + task_names@.len() <= i32::MAX as int,
        old(store).next_id + task_names@.len() <= i32::MAX as int,
    ensures
        ({
            let kept = kept_names(task_names@);
            let n0 = old(store).tasks@.len() as int;
            let target = if index == 0 {
                1
            } else {
                index as int
            };
            &&& (index < 0 ==> r == Result::<Vec<String>, TaskError>::Err(TaskError::NegativeIndex)
                && *final(store) == *old(store))
            &&& (0 <= index && index > n0 ==> r == Result::<Vec<String>, TaskError>::Err(
                TaskError::IndexOutOfRange { index, count: n0 as i32 },
            ) && *final(store) == *old(store))
            &&& (0 <= index <= n0 ==> {
                &&& (kept.len() == 0 ==> r == Result::<Vec<String>, TaskError>::Err(
                    TaskError::NoValidTasks,
                ) && *final(store) == *old(store))
                &&& (kept.len() > 0 && duplicate_names(names_of(old(store).tasks@), kept) ==> r
                    == Result::<Vec<String>, TaskError>::Err(TaskError::DuplicateName) && final(store).synced() && final(store).next_id == old(store).next_id && final(store).tasks@.len() == n0 && (forall|i: int|
                    0 <= i < n0 ==> final(store).tasks@[i] == (Task {
                        idx: Some((i + 1) as i32),
                        ..old(store).tasks@[i]
                    })))
                &&& (kept.len() > 0 && !duplicate_names(names_of(old(store).tasks@), kept) ==> {
                    &&& r is Ok
                    &&& views_of(r->Ok_0@) == kept
                    &&& final(store).synced()
                    &&& final(store).tasks@.len() == n0 + kept.len()
                    &&& final(store).next_id == old(store).next_id + kept.len()
                    &&& forall|i: int|
                        0 <= i < target - 1 ==> final(store).tasks@[i] == (Task {
                            idx: Some((i + 1) as i32),
                            ..old(store).tasks@[i]
                        })
                    &&& forall|i: int|
                        target - 1 <= i < target - 1 + kept.len() ==> {
                            let t = #[trigger] final(store).tasks@[i];
                            &&& t.id == Some((old(store).next_id + (i - (target - 1))) as i32)
                            &&& t.idx == Some((i + 1) as i32)
                            &&& t.name@ == kept[i - (target - 1)]
                            &&& t.done == false
                        }
                    &&& forall|i: int|
                        target - 1 + kept.len() <= i < n0 + kept.len() ==> final(store).tasks@[i]
                            == (Task {
                            idx: Some((i + 1) as i32),
                            ..old(store).tasks@[i - kept.len()]
                        })
                })
            })
        }),
{
    if index < 0 {
        return Err(TaskError::NegativeIndex);
    }
    let cnt = store.count();
    if index > cnt {
        return Err(TaskError::IndexOutOfRange { index, count: cnt });
    }
    let kept = filter_blank(task_names);
    if kept.len() == 0 {
        return Err(TaskError::NoValidTasks);
    }
    store.resync();
    let ghost resynced = *store;
    proof {
        assert(names_of(resynced.tasks@) =~= names_of(old(store).tasks@));
    }
    let target = if index == 0 {
        1
    } else {
        index
    };
    match store.insert_many_at(target, &kept) {
        Ok(()) => {
            proof {
                let n0 = old(store).tasks@.len() as int;
                let kk = kept@.len() as int;
                assert forall|i: int|
                    target - 1 + kk <= i < n0 + kk implies final(store).tasks@[i] == (Task {
                    idx: Some((i + 1) as i32),
                    ..old(store).tasks@[i - kk]
                }) by {
                    assert(store.tasks@[i] == (Task {
                        idx: Some((i + 1) as i32),
                        ..resynced.tasks@[i - kk]
                    }));
                    assert(resynced.tasks@[i - kk] == (Task {
                        idx: Some((i - kk + 1) as i32),
                        ..old(store).tasks@[i - kk]
                    }));
                }
            }
            Ok(kept)
        },
        Err(e) => Err(e),
    }
}

/// Renames the task at the given 1-based position, after validating the
/// position against the task count and refusing a blank name. A name
/// another task already bears is refused; the content is otherwise
/// unchanged on failure.
pub fn modify(store: &mut TaskStore, task_index: i32, new_name: &String) -> (r: Result<
    (),
    TaskError,
>)
    requires
        old(store).wf(),
    ensures
        ({
            let n0 = old(store).tasks@.len() as int;
            let dup = exists|i: int|
                0 <= i < n0 && (#[trigger] old(store).tasks@[i]).name@ == new_name@ && i
                    != task_index - 1;
            &&& (task_index <= 0 || task_index > n0 ==> r == Result::<(), TaskError>::Err(
                TaskError::InvalidIndex { index: task_index },
            ) && *final(store) == *old(store))
            &&& (1 <= task_index <= n0 ==> {
                &&& (is_blank(new_name@) ==> r == Result::<(), TaskError>::Err(
                    TaskError::EmptyName,
                ) && *final(store) == *old(store))
                &&& (!is_blank(new_name@) && dup ==> r == Result::<(), TaskError>::Err(
                    TaskError::DuplicateName,
                ) && final(store).synced() && final(store).next_id == old(store).next_id && final(store).tasks@.len() == n0 && (forall|i: int|
                    0 <= i < n0 ==> final(store).tasks@[i] == (Task {
                        idx: Some((i + 1) as i32),
                        ..old(store).tasks@[i]
                    })))
                &&& (!is_blank(new_name@) && !dup ==> r is Ok && final(store).synced() && final(store).next_id == old(store).next_id && final(store).tasks@.len() == n0 && (forall|
                    i: int,
                |
                    0 <= i < n0 ==> final(store).tasks@[i] == (Task {
                        idx: Some((i + 1) as i32),
                        name: if i == task_index - 1 {
                            *new_name
                        } else {
                            old(store).tasks@[i].name
                        },
                        ..old(store).tasks@[i]
                    })))
            })
        }),
{
    let cnt = store.count();
    if task_index <= 0 || task_index > cnt {
        return Err(TaskError::InvalidIndex { index: task_index });
    }
    if blank_text(new_name.as_str()) {
        return Err(TaskError::EmptyName);
    }
    store.resync();
    let ghost resynced = *store;
    proof {
        assert(resynced.tasks@[task_index - 1].idx == Some(task_index));
        let n0 = old(store).tasks@.len() as int;
        let rdup = exists|i: int|
            0 <= i < n0 && (#[trigger] resynced.tasks@[i]).name@ == new_name@
                && resynced.tasks@[i].idx != Some(task_index);
        let odup = exists|i: int|
            0 <= i < n0 && (#[trigger] old(store).tasks@[i]).name@ == new_name@ && i != task_index
                - 1;
        if rdup {
            let i = choose|i: int|
                0 <= i < n0 && (#[trigger] resynced.tasks@[i]).name@ == new_name@
                    && resynced.tasks@[i].idx != Some(task_index);
            assert(old(store).tasks@[i].name@ == new_name@ && i != task_index - 1);
        }
        if odup {
            let i = choose|i: int|
                0 <= i < n0 && (#[trigger] old(store).tasks@[i]).name@ == new_name@ && i
                    != task_index - 1;
            assert(resynced.tasks@[i].name@ == new_name@);
            assert(resynced.tasks@[i].idx == Some((i + 1) as i32));
            assert(resynced.tasks@[i].idx != Some(task_index));
        }
        assert(rdup == odup);
    }
    let r = store.rename(task_index, new_name);
    proof {
        if r is Ok {
            assert forall|i: int| 0 <= i < old(store).tasks@.len() implies final(store).tasks@[i]
                == (Task {
                idx: Some((i + 1) as i32),
                name: if i == task_index - 1 {
                    *new_name
                } else {
                    old(store).tasks@[i].name
                },
                ..old(store).tasks@[i]
            }) by {
                assert(store.tasks@[i] == (Task {
                    name: if resynced.tasks@[i].idx == Some(task_index) {
                        *new_name
                    } else {
                        resynced.tasks@[i].name
                    },
                    ..resynced.tasks@[i]
                }));
                assert(resynced.tasks@[i].idx == Some((i + 1) as i32));
            }
        }
    }
    r
}

/// A position has been named by one of the first `k` entries of a batch.
pub open spec fn removed_in(indices: Seq<i32>, k: int, p: i32) -> bool {
    exists|j: int| 0 <= j < k && #[trigger] indices[j] == p
}

/// What a batch mark-done leaves behind when it stops after `k` entries:
/// the first `k` positions were valid and are now marked, the store is
/// resynchronised, and the call either finished the batch or reports the
/// first invalid position, never touching the entries after it.
pub open spec fn done_outcome(
    pre: TaskStore,
    indices: Seq<i32>,
    post: TaskStore,
    r: Result<(), TaskError>,
    k: int,
) -> bool {
    let n0 = pre.tasks@.len() as int;
    &&& 0 <= k <= indices.len()
    &&& forall|j: int| 0 <= j < k ==> 1 <= #[trigger] indices[j] <= n0
    &&& (k == indices.len() ==> r is Ok)
    &&& (k < indices.len() ==> !(1 <= indices[k] <= n0) && r == Result::<(), TaskError>::Err(
        TaskError::NoSuchPosition { position: indices[k] },
    ))
    &&& post.synced()
    &&& post.next_id == pre.next_id
    &&& post.tasks@.len() == n0
    &&& forall|q: int|
        0 <= q < n0 ==> (#[trigger] post.tasks@[q]) == (Task {
            idx: Some((q + 1) as i32),
            done: pre.tasks@[q].done || removed_in(indices, k, (q + 1) as i32),
            ..pre.tasks@[q]
        })
}

/// Marks the tasks at the given 1-based positions as done, in the given
/// order, stopping at the first position that does not exist: earlier
/// positions stay marked, later ones are never attempted.
pub fn done(store: &mut TaskStore, task_indices: &Vec<i32>) -> (r: Result<(), TaskError>)
    requires
        old(store).wf(),
    ensures
        exists|k: int| #[trigger] done_outcome(*old(store), task_indices@, *final(store), r, k),
{
    store.resync();
    let n = task_indices.len();
    let mut i: usize = 0;
    while i < n
        invariant
            i <= n,
            n == task_indices@.len(),
            old(store).wf(),
            store.synced(),
            store.next_id == old(store).next_id,
            store.tasks@.len() == old(store).tasks@.len(),
            forall|j: int|
                0 <= j < i as int ==> 1 <= #[trigger] task_indices@[j] <= old(
                    store,
                ).tasks@.len() as int,
            forall|q: int|
                0 <= q < old(store).tasks@.len() ==> (#[trigger] store.tasks@[q]) == (Task {
                    idx: Some((q + 1) as i32),
                    done: old(store).tasks@[q].done || removed_in(
                        task_indices@,
                        i as int,
                        (q + 1) as i32,
                    ),
                    ..old(store).tasks@[q]
                }),
        decreases n - i,
    {
        let p = task_indices[i];
        let ghost mid = *store;
        let res = store.mark_done(p);
        match res {
            Ok(()) => {
                proof {
                    assert forall|q: int| 0 <= q < old(store).tasks@.len() implies (
                    #[trigger] store.tasks@[q]) == (Task {
                        idx: Some((q + 1) as i32),
                        done: old(store).tasks@[q].done || removed_in(
                            task_indices@,
                            i as int + 1,
                            (q + 1) as i32,
                        ),
                        ..old(store).tasks@[q]
                    }) by {
                        let t0 = mid.tasks@[q];
                        assert(store.tasks@[q] == (Task {
                            done: t0.done || t0.idx == Some(p),
                            ..t0
                        }));
                        if removed_in(task_indices@, i as int + 1, (q + 1) as i32) {
                            let j = choose|j: int|
                                0 <= j < i as int + 1 && #[trigger] task_indices@[j] == (q
                                    + 1) as i32;
                            if j < i as int {
                                assert(removed_in(task_indices@, i as int, (q + 1) as i32));
                            } else {
                                assert(t0.idx == Some(p));
                            }
                        } else {
                            assert(!removed_in(task_indices@, i as int, (q + 1) as i32));
                            assert(task_indices@[i as int] != (q + 1) as i32);
                        }
                    }
                    let witness = exists|x: int|
                        0 <= x < mid.tasks@.len() && (#[trigger] mid.tasks@[x]).idx == Some(p);
                    assert(witness);
                    let x = choose|x: int|
                        0 <= x < mid.tasks@.len() && (#[trigger] mid.tasks@[x]).idx == Some(p);
                    assert(mid.tasks@[x].idx == Some((x + 1) as i32));
                    assert(p == x + 1);
                    assert(1 <= p <= old(store).tasks@.len() as int);
                }
            },
            Err(_) => {
                proof {
                    if 1 <= p <= old(store).tasks@.len() as int {
                        assert(mid.tasks@[p - 1].idx == Some(p));
                    }
                    assert(done_outcome(
                        *old(store),
                        task_indices@,
                        *store,
                        Result::<(), TaskError>::Err(TaskError::NoSuchPosition { position: p }),
                        i as int,
                    ));
                }
                return Err(TaskError::NoSuchPosition { position: p });
            },
        }
        i += 1;
    }
    proof {
        assert(done_outcome(
            *old(store),
            task_indices@,
            *store,
            Result::<(), TaskError>::Ok(()),
            n as int,
        ));
    }
    Ok(())
}

/// The `j`-th entry of a remove batch can succeed: it names a position
/// that existed at the start of the batch and was not already removed by
/// an earlier entry. Positions do not shift during the batch: they are
/// only re-packed by the next resynchronisation.
pub open spec fn batch_removable(indices: Seq<i32>, n0: int, j: int) -> bool {
    &&& 1 <= indices[j] <= n0
    &&& !removed_in(indices, j, indices[j])
}

/// What a batch removal leaves behind when it stops after `k` entries: the
/// tasks whose fresh position was named by the first `k` entries are gone,
/// all others survive in order with their positions still cached, and the
/// call either finished the batch or reports the first failing entry.
pub open spec fn remove_outcome(
    pre: TaskStore,
    indices: Seq<i32>,
    post: TaskStore,
    r: Result<(), TaskError>,
    k: int,
) -> bool {
    let n0 = pre.tasks@.len() as int;
    &&& 0 <= k <= indices.len()
    &&& forall|j: int| 0 <= j < k ==> #[trigger] batch_removable(indices, n0, j)
    &&& (k == indices.len() ==> r is Ok)
    &&& (k < indices.len() ==> !batch_removable(indices, n0, k) && r == Result::<(),
    TaskError>::Err(TaskError::NoSuchPosition { position: indices[k] }))
    &&& post.wf()
    &&& post.next_id == pre.next_id
    &&& forall|m: int|
        0 <= m < post.tasks@.len() ==> {
            let t = #[trigger] post.tasks@[m];
            exists|q: int|
                0 <= q < n0 && t == (Task { idx: Some((q + 1) as i32), ..#[trigger] pre.tasks@[q] })
        }
    &&& forall|q: int|
        0 <= q < n0 ==> (#[trigger] occupies(post.tasks@, (q + 1) as i32) <==> !removed_in(
            indices,
            k,
            (q + 1) as i32,
        ))
}

/// Removes the tasks at the given 1-based positions, in the given order,
/// stopping at the first position that no task occupies: earlier removals
/// stay, later positions are never attempted. Positions are not re-packed
/// between removals, so repeating a position fails the batch there.
pub fn remove(store: &mut TaskStore, task_indices: &Vec<i32>) -> (r: Result<(), TaskError>)
    requires
        old(store).wf(),
    ensures
        exists|k: int| #[trigger] remove_outcome(*old(store), task_indices@, *final(store), r, k),
{
    store.resync();
    proof {
        assert forall|q: int| 0 <= q < old(store).tasks@.len() implies (#[trigger] occupies(
            store.tasks@,
            (q + 1) as i32,
        ) <==> !removed_in(task_indices@, 0, (q + 1) as i32)) by {
            assert(store.tasks@[q].idx == Some((q + 1) as i32));
        }
    }
    let n = task_indices.len();
    let ghost n0 = old(store).tasks@.len() as int;
    let mut i: usize = 0;
    while i < n
        invariant
            i <= n,
            n == task_indices@.len(),
            n0 == old(store).tasks@.len() as int,
            old(store).wf(),
            store.wf(),
            store.next_id == old(store).next_id,
            forall|j: int| 0 <= j < i as int ==> #[trigger] batch_removable(task_indices@, n0, j),
            forall|m: int|
                0 <= m < store.tasks@.len() ==> {
                    let t = #[trigger] store.tasks@[m];
                    exists|q: int|
                        0 <= q < n0 && t == (Task {
                            idx: Some((q + 1) as i32),
                            ..#[trigger] old(store).tasks@[q]
                        })
                },
            forall|q: int|
                0 <= q < n0 ==> (#[trigger] occupies(store.tasks@, (q + 1) as i32) <==> !removed_in(
                    task_indices@,
                    i as int,
                    (q + 1) as i32,
                )),
        decreases n - i,
    {
        let p = task_indices[i];
        let ghost mid = *store;
        let res = store.remove(p);
        match res {
            Ok(()) => {
                proof {
                    let m = choose|m: int|
                        0 <= m < mid.tasks@.len() && (#[trigger] mid.tasks@[m]).idx == Some(p)
                            && store.tasks@ == mid.tasks@.remove(m);
                    mid.tasks@.remove_ensures(m);
                    lemma_unique_position(mid.tasks@, p, m);
                    // the removed entry names an existing, not yet removed position
                    let q0 = choose|q: int|
                        0 <= q < n0 && mid.tasks@[m] == (Task {
                            idx: Some((q + 1) as i32),
                            ..#[trigger] old(store).tasks@[q]
                        });
                    assert(p == q0 + 1);
                    assert(occupies(mid.tasks@, p));
                    assert(batch_removable(task_indices@, n0, i as int));
                    // survivors keep their description
                    assert forall|m2: int| 0 <= m2 < store.tasks@.len() implies {
                        let t = #[trigger] store.tasks@[m2];
                        exists|q: int|
                            0 <= q < n0 && t == (Task {
                                idx: Some((q + 1) as i32),
                                ..#[trigger] old(store).tasks@[q]
                            })
                    } by {
                        if m2 < m {
                            assert(store.tasks@[m2] == mid.tasks@[m2]);
                        } else {
                            assert(store.tasks@[m2] == mid.tasks@[m2 + 1]);
                        }
                    }
                    // which positions remain occupied
                    assert forall|q: int| 0 <= q < n0 implies (#[trigger] occupies(
                        store.tasks@,
                        (q + 1) as i32,
                    ) <==> !removed_in(task_indices@, i as int + 1, (q + 1) as i32)) by {
                        let pq = (q + 1) as i32;
                        if occupies(store.tasks@, pq) {
                            let x = choose|x: int|
                                0 <= x < store.tasks@.len() && (#[trigger] store.tasks@[x]).idx
                                    == Some(pq);
                            let y = if x < m {
                                x
                            } else {
                                x + 1
                            };
                            assert(store.tasks@[x] == mid.tasks@[y]);
                            assert(occupies(mid.tasks@, pq));
                            assert(y != m);
                            assert(pq != p);
                            assert(!removed_in(task_indices@, i as int, pq));
                            if removed_in(task_indices@, i as int + 1, pq) {
                                let j = choose|j: int|
                                    0 <= j < i as int + 1 && #[trigger] task_indices@[j] == pq;
                                assert(j == i as int);
                                assert(false);
                            }
                        }
                        if !removed_in(task_indices@, i as int + 1, pq) {
                            assert(!removed_in(task_indices@, i as int, pq));
                            assert(task_indices@[i as int] == p);
                            assert(pq != p);
                            assert(occupies(mid.tasks@, pq));
                            let x = choose|x: int|
                                0 <= x < mid.tasks@.len() && (#[trigger] mid.tasks@[x]).idx
                                    == Some(pq);
                            assert(x != m);
                            let y = if x < m {
                                x
                            } else {
                                x - 1
                            };
                            assert(store.tasks@[y] == mid.tasks@[x]);
                            assert(occupies(store.tasks@, pq));
                        }
                    }
                }
            },
            Err(_) => {
                proof {
                    if batch_removable(task_indices@, n0, i as int) {
                        let q: int = p as int - 1;
                        assert(!removed_in(task_indices@, i as int, (q + 1) as i32));
                        assert(occupies(store.tasks@, (q + 1) as i32));
                        assert(occupies(mid.tasks@, p));
                        assert(false);
                    }
                    assert(remove_outcome(
                        *old(store),
                        task_indices@,
                        *store,
                        Result::<(), TaskError>::Err(TaskError::NoSuchPosition { position: p }),
                        i as int,
                    ));
                }
                return Err(TaskError::NoSuchPosition { position: p });
            },
        }
        i += 1;
    }
    proof {
        assert(remove_outcome(
            *old(store),
            task_indices@,
            *store,
            Result::<(), TaskError>::Ok(()),
            n as int,
        ));
    }
    Ok(())
}

/// Reorders the tasks: to-do first, then done, each group keeping its
/// relative order, with positions reassigned densely.
pub fn sort(store: &mut TaskStore) -> (r: Result<(), TaskError>)
    requires
        old(store).wf(),
    ensures
        r is Ok,
        final(store).synced(),
        final(store).next_id == old(store).next_id,
        final(store).tasks@.len() == old(store).tasks@.len(),
        cores_of(final(store).tasks@) == cores_of(todo_part(old(store).tasks@)) + cores_of(
            done_part(old(store).tasks@),
        ),
{
    store.sort();
    Ok(())
}

/// Removes every task that is marked done, keeping the rest in order, and
/// reports the names of the removed tasks in their display order. Removal
/// goes by the tasks themselves, not by a stale position snapshot, so all
/// done tasks are removed however they interleave with the rest.
pub fn clear(store: &mut TaskStore) -> (r: Vec<String>)
    requires
        old(store).wf(),
    ensures
        final(store).synced(),
        final(store).next_id == old(store).next_id,
        cores_of(final(store).tasks@) == cores_of(todo_part(old(store).tasks@)),
        views_of(r@) == names_of(done_part(old(store).tasks@)),
{
    store.remove_done()
}

/// Keeps the tasks a display kind selects, in order, positions included.
fn filter_tasks(tasks: &Vec<Task>, dt: &DisplayType) -> (r: Vec<Task>)
    ensures
        *dt == DisplayType::All ==> r@ == tasks@,
        *dt == DisplayType::Todo ==> r@ == todo_part(tasks@),
        *dt == DisplayType::Done ==> r@ == done_part(tasks@),
{
    match dt {
        DisplayType::All => clone_tasks(tasks),
        DisplayType::Todo => {
            let n = tasks.len();
            let mut out: Vec<Task> = Vec::new();
            let mut i: usize = 0;
            while i < n
                invariant
                    i <= n,
                    n == tasks@.len(),
                    out@ == todo_part(tasks@.subrange(0, i as int)),
                decreases n - i,
            {
                let t = &tasks[i];
                if !t.done {
                    let c = t.clone();
                    out.push(c);
                }
                proof {
                    crate::store::lemma_part_step(tasks@, i as int);
                }
                i += 1;
            }
            proof {
                assert(tasks@.subrange(0, n as int) =~= tasks@);
            }
            out
        },
        DisplayType::Done => {
            let n = tasks.len();
            let mut out: Vec<Task> = Vec::new();
            let mut i: usize = 0;
            while i < n
                invariant
                    i <= n,
                    n == tasks@.len(),
                    out@ == done_part(tasks@.subrange(0, i as int)),
                decreases n - i,
            {
                let t = &tasks[i];
                if t.done {
                    let c = t.clone();
                    out.push(c);
                }
                proof {
                    crate::store::lemma_part_step(tasks@, i as int);
                }
                i += 1;
            }
            proof {
                assert(tasks@.subrange(0, n as int) =~= tasks@);
            }
            out
        },
    }
}

/// The bare names of a task list, in order.
fn names_vec(tasks: &Vec<Task>) -> (r: Vec<String>)
    ensures
        views_of(r@) == names_of(tasks@),
{
    let n = tasks.len();
    let mut r: Vec<String> = Vec::new();
    let mut i: usize = 0;
    while i < n
        invariant
            i <= n,
            n == tasks@.len(),
            r@.len() == i as int,
            forall|k: int| 0 <= k < i as int ==> (#[trigger] r@[k])@ == tasks@[k].name@,
        decreases n - i,
    {
        let nm = tasks[i].name.clone();
        r.push(nm);
        i += 1;
    }
    proof {
        assert(views_of(r@) =~= names_of(tasks@));
    }
    r
}

/// Resynchronises, then returns the tasks the display kind selects, with
/// their fresh positions. An unknown kind selects nothing, but the resync
/// has already repacked the positions to 1..N.
pub fn list(store: &mut TaskStore, display_type: &str) -> (r: Option<Vec<Task>>)
    requires
        old(store).wf(),
    ensures
        final(store).synced(),
        final(store).next_id == old(store).next_id,
        final(store).tasks@.len() == old(store).tasks@.len(),
        forall|i: int|
            0 <= i < old(store).tasks@.len() ==> final(store).tasks@[i] == (Task {
                idx: Some((i + 1) as i32),
                ..old(store).tasks@[i]
            }),
        ({
            let canon = lowered_of(trimmed_of(display_type@));
            let known = canon == "all"@ || canon == "todo"@ || canon == "done"@;
            &&& (r is None <==> !known)
            &&& (canon == "all"@ ==> r->0@ == final(store).tasks@)
            &&& (canon == "todo"@ ==> r->0@ == todo_part(final(store).tasks@))
            &&& (canon == "done"@ ==> r->0@ == done_part(final(store).tasks@))
        }),
{
    store.resync();
    match DisplayType::from_str(display_type) {
        None => None,
        Some(dt) => {
            let tasks = clone_tasks(&store.tasks);
            let f = filter_tasks(&tasks, &dt);
            Some(f)
        },
    }
}

/// Like `list`, but yields the bare names the display kind selects.
pub fn raw(store: &mut TaskStore, display_type: &str) -> (r: Option<Vec<String>>)
    requires
        old(store).wf(),
    ensures
        final(store).synced(),
        final(store).next_id == old(store).next_id,
        final(store).tasks@.len() == old(store).tasks@.len(),
        forall|i: int|
            0 <= i < old(store).tasks@.len() ==> final(store).tasks@[i] == (Task {
                idx: Some((i + 1) as i32),
                ..old(store).tasks@[i]
            }),
        ({
            let canon = lowered_of(trimmed_of(display_type@));
            let known = canon == "all"@ || canon == "todo"@ || canon == "done"@;
            &&& (r is None <==> !known)
            &&& (canon == "all"@ ==> views_of(r->0@) == names_of(final(store).tasks@))
            &&& (canon == "todo"@ ==> views_of(r->0@) == names_of(
                todo_part(final(store).tasks@),
            ))
            &&& (canon == "done"@ ==> views_of(r->0@) == names_of(
                done_part(final(store).tasks@),
            ))
        }),
{
    match list(store, display_type) {
        None => None,
        Some(v) => Some(names_vec(&v)),
    }
}

/// Resynchronises, then reports the tasks whose name contains the search
/// term as a case-sensitive substring, renumbered 1..K over the matches
/// alone.
pub fn find(store: &mut TaskStore, search_term: &str) -> (r: Vec<Task>)
    requires
        old(store).wf(),
    ensures
        final(store).synced(),
        final(store).next_id == old(store).next_id,
        final(store).tasks@.len() == old(store).tasks@.len(),
        forall|i: int|
            0 <= i < old(store).tasks@.len() ==> final(store).tasks@[i] == (Task {
                idx: Some((i + 1) as i32),
                ..old(store).tasks@[i]
            }),
        cores_of(r@) == cores_of(matching_part(final(store).tasks@, search_term@)),
        forall|i: int| 0 <= i < r@.len() ==> (#[trigger] r@[i]).idx == Some((i + 1) as i32),
{
    store.resync();
    store.search(search_term)
}

/// Deletes all tasks unconditionally.
pub fn reset(store: &mut TaskStore)
    requires
        old(store).wf(),
    ensures
        final(store).synced(),
        final(store).tasks@.len() == 0,
        final(store).next_id == old(store).next_id,
{
    store.delete_all();
}

} // verus!
