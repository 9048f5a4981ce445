use vstd::prelude::*;

verus! {

/// A single task as the store keeps it: a stable identifier, a cached
/// 1-based display position, a name, and a completion flag.
///
/// The position is a cache: it is only trustworthy right after the store
/// has resynchronised it, and it may change on any mutation. The identifier
/// is assigned once and never changes.
pub struct Task {
    pub id: Option<i32>,
    pub idx: Option<i32>,
    pub name: String,
    pub done: bool,
}

impl Clone for Task {
    fn clone(&self) -> (r: Task)
        ensures
            r == *self,
    {
        Task { id: self.id, idx: self.idx, name: self.name.clone(), done: self.done }
    }
}

/// The name views of a task sequence.
pub open spec fn names_of(tasks: Seq<Task>) -> Seq<Seq<char>> {
    tasks.map_values(|t: Task| t.name@)
}

/// The views of a sequence of owned strings.
pub open spec fn views_of(names: Seq<String>) -> Seq<Seq<char>> {
    names.map_values(|s: String| s@)
}

/// Everything about a task except its cached position.
pub open spec fn core_of(t: Task) -> (Option<i32>, Seq<char>, bool) {
    (t.id, t.name@, t.done)
}

/// The position-free cores of a task sequence.
pub open spec fn cores_of(tasks: Seq<Task>) -> Seq<(Option<i32>, Seq<char>, bool)> {
    tasks.map_values(|t: Task| core_of(t))
}

/// Taking views commutes with appending one name.
pub proof fn lemma_views_push(s: Seq<String>, x: String)
    ensures
        views_of(s.push(x)) == views_of(s).push(x@),
{
    assert(views_of(s.push(x)) =~= views_of(s).push(x@));
}

/// Taking names commutes with appending one task.
pub proof fn lemma_names_push(s: Seq<Task>, t: Task)
    ensures
        names_of(s.push(t)) == names_of(s).push(t.name@),
{
    assert(names_of(s.push(t)) =~= names_of(s).push(t.name@));
}

/// Taking cores commutes with appending one task.
pub proof fn lemma_cores_push(s: Seq<Task>, t: Task)
    ensures
        cores_of(s.push(t)) == cores_of(s).push(core_of(t)),
{
    assert(cores_of(s.push(t)) =~= cores_of(s).push(core_of(t)));
}

/// The user-facing failure of a command or store operation.
#[derive(Debug, PartialEq, Eq, Structural, Clone, Copy)]
pub enum TaskError {
    /// Every given name was empty or whitespace-only.
    NoValidTasks,
    /// The insertion index was negative.
    NegativeIndex,
    /// The insertion index lies past the end of the list.
    IndexOutOfRange { index: i32, count: i32 },
    /// The addressed position is not between 1 and the task count.
    InvalidIndex { index: i32 },
    /// The new name for a task was empty or whitespace-only.
    EmptyName,
    /// A name equal to one the store already holds, or repeated in a batch.
    DuplicateName,
    /// No task occupies the given position.
    NoSuchPosition { position: i32 },
}

} // verus!
