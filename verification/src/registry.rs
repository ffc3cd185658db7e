//! Registry of in-flight tasks: tasks handed to a worker and not yet
//! completed. Detecting stragglers and deduplicating completions both
//! go through membership in this registry.
use vstd::prelude::*;
use crate::task::{Task, TaskView, task_views};

verus! {

/// Whether some entry of `s` carries the id.
pub open spec fn contains_id(s: Seq<TaskView>, id: u64) -> bool {
    exists|i: int| 0 <= i < s.len() && s[i].id == id
}

/// No two entries of `s` carry the same id.
pub open spec fn unique_ids(s: Seq<TaskView>) -> bool {
    forall|i: int, j: int| 0 <= i < j < s.len() ==> s[i].id != s[j].id
}

/// The position of the entry carrying the id (meaningful when the id is
/// present and ids are unique).
pub open spec fn index_of_id(s: Seq<TaskView>, id: u64) -> int {
    choose|i: int| 0 <= i < s.len() && s[i].id == id
}

/// `s` with the entry carrying the id taken out, if it is present.
pub open spec fn remove_id(s: Seq<TaskView>, id: u64) -> Seq<TaskView> {
    if contains_id(s, id) {
        s.remove(index_of_id(s, id))
    } else {
        s
    }
}

/// The in-flight tasks, viewed as the sequence of their images in
/// insertion order, each id at most once.
pub struct Registry {
    entries: Vec<Task>,
}

impl View for Registry {
    type V = Seq<TaskView>;

    closed spec fn view(&self) -> Seq<TaskView> {
        task_views(self.entries@)
    }
}

impl Registry {
    /// Ids never repeat among the entries.
    pub open spec fn wf(&self) -> bool {
        unique_ids(self@)
    }

    /// An empty registry.
    pub fn new() -> (r: Self)
        ensures
            r.wf(),
            r@ =~= Seq::<TaskView>::empty(),
    {
        Registry { entries: Vec::new() }
    }

    /// The number of in-flight tasks.
    pub fn len(&self) -> (n: usize)
        ensures
            n == self@.len(),
    {
        self.entries.len()
    }

    /// True when no task is in flight.
    pub fn is_empty(&self) -> (r: bool)
        ensures
            r == (self@.len() == 0),
    {
        self.entries.len() == 0
    }

    /// Records a task as in flight; its id must be new.
    pub fn insert(&mut self, t: Task)
        requires
            old(self).wf(),
            !contains_id(old(self)@, t@.id),
        ensures
            final(self).wf(),
            final(self)@ =~= old(self)@.push(t@),
    {
        self.entries.push(t);
        proof {
            assert(self@ =~= old(self)@.push(t@));
        }
    }

    /// Evicts the task carrying the id, handing it back; without such a
    /// task the registry is untouched. Membership here is the single
    /// source of truth for the race between a completion and a retry
    /// timer: the first caller to evict the entry wins.
    pub fn remove(&mut self, id: u64) -> (r: Option<Task>)
        requires
            old(self).wf(),
        ensures
            final(self).wf(),
            final(self)@ =~= remove_id(old(self)@, id),
            contains_id(old(self)@, id) ==> (r matches Some(t)
                && t@ == old(self)@[index_of_id(old(self)@, id)]
                && t@.id == id),
            !contains_id(old(self)@, id) ==> r is None && final(self)@ =~= old(self)@,
    {
        let n = self.entries.len();
        let mut i: usize = 0;
        while i < n
            invariant
                n == self.entries.len(),
                i <= n,
                old(self).wf(),
                *self == *old(self),
                forall|j: int| 0 <= j < i ==> self@[j].id != id,
            decreases n - i,
        {
            if self.entries[i].id == id {
                proof {
                    assert(self@[i as int].id == id);
                    assert(contains_id(self@, id));
                    let w = index_of_id(self@, id);
                    assert(0 <= w < self@.len() && self@[w].id == id);
                    if w != i as int {
                        assert(false);
                    }
                }
                let t = self.entries.remove(i);
                proof {
                    assert(self@ =~= old(self)@.remove(i as int));
                    assert(self@ =~= remove_id(old(self)@, id));
                }
                return Some(t);
            }
            i += 1;
        }
        proof {
            assert(!contains_id(self@, id));
        }
        None
    }
}

} // verus!
