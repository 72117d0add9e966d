//! The records of tasks, workers and clients.

use vstd::prelude::*;
use crate::clientmsg::ClientTaskSpec;
use crate::frames::SerializedMemory;

verus! {

pub type TaskId = u64;

pub type WorkerId = u64;

pub type ClientId = u64;

pub type Priority = i32;

/// What is known of the result of a finished task.
pub struct DataInfo {
    /// The opaque type tag that the worker reported.
    pub data_type: Vec<u8>,
}

/// Why a task failed.
pub struct ErrorInfo {
    pub exception: SerializedMemory,
    pub traceback: SerializedMemory,
    /// The task whose failure this is: the task itself where a worker
    /// reported it, else the failed task that it depends on.
    pub cause: TaskId,
}

/// Where a task stands in its life cycle.
pub enum TaskRuntimeState {
    /// Some dependency is not in memory yet.
    Waiting,
    /// Every dependency is in memory and no worker has been told to run it.
    Ready,
    /// The given worker has been told to run it.
    Assigned(WorkerId),
    /// At least one worker holds the result.
    InMemory(DataInfo),
    /// It failed, or a task that it depends on did.
    Error(ErrorInfo),
    /// It was removed; its slot only keeps the id from being used again.
    Released,
}

pub struct Task {
    pub id: TaskId,
    pub key: String,
    pub spec: ClientTaskSpec<SerializedMemory>,
    /// The tasks whose results the task needs, each once.
    pub dependencies: Vec<TaskId>,
    /// The tasks that need the result of the task, in ascending order.
    pub dependents: Vec<TaskId>,
    /// The number of dependencies that are not in memory.
    pub unmet_count: usize,
    pub user_priority: Priority,
    pub client_priority: Priority,
    pub scheduler_priority: Priority,
    /// The clients that asked for the result.
    pub client_owners: Vec<ClientId>,
    /// The workers that hold the result.
    pub worker_owners: Vec<WorkerId>,
    /// Whether the client marked the submission as one of actors; handed on as it came.
    pub actors: Option<bool>,
    pub state: TaskRuntimeState,
}

pub struct Worker {
    pub id: WorkerId,
    pub ncpus: u32,
    pub listen_address: String,
}

pub struct Client {
    pub id: ClientId,
    pub key: String,
}

impl Task {
    /// Whether the priority of the task is above that of `other`: the
    /// user's priority decides, then the scheduler's.
    pub open spec fn spec_outranks(&self, other: &Task) -> bool {
        self.user_priority > other.user_priority || (self.user_priority == other.user_priority
            && self.scheduler_priority > other.scheduler_priority)
    }

    #[verifier::when_used_as_spec(spec_outranks)]
    pub fn outranks(&self, other: &Task) -> (higher: bool)
        ensures
            higher == self.spec_outranks(other),
    {
        self.user_priority > other.user_priority || (self.user_priority == other.user_priority
            && self.scheduler_priority > other.scheduler_priority)
    }
}

/// The characters of each key.
pub open spec fn key_views(keys: Seq<String>) -> Seq<Seq<char>> {
    keys.map_values(|k: String| k@)
}

/// Whether `list` holds `item`.
pub fn list_contains(list: &Vec<u64>, item: u64) -> (found: bool)
    ensures
        found == list@.contains(item),
{
    let mut i: usize = 0;
    while i < list.len()
        invariant
            i <= list.len(),
            !list@.take(i as int).contains(item),
        decreases list.len() - i,
    {
        if list[i] == item {
            return true;
        }
        proof {
            assert(list@.take(i + 1) =~= list@.take(i as int).push(list@[i as int]));
        }
        i += 1;
    }
    proof {
        assert(list@.take(i as int) =~= list@);
    }
    false
}

/// Removes `item` from a list that holds nothing twice; what is left keeps its order.
pub fn list_remove(list: &mut Vec<u64>, item: u64) -> (removed: bool)
    requires
        old(list)@.no_duplicates(),
    ensures
        removed == old(list)@.contains(item),
        final(list)@ == without(old(list)@, item),
{
    let mut i: usize = 0;
    while i < list.len()
        invariant
            i <= list.len(),
            *list == *old(list),
            list@.no_duplicates(),
            !list@.take(i as int).contains(item),
        decreases list.len() - i,
    {
        if list[i] == item {
            list.remove(i);
            proof {
                assert(old(list)@.contains(item));
                let at = old(list)@.index_of(item);
                assert(old(list)@[at] == old(list)@[i as int]);
            }
            return true;
        }
        proof {
            assert(list@.take(i + 1) =~= list@.take(i as int).push(list@[i as int]));
        }
        i += 1;
    }
    proof {
        assert(list@.take(i as int) =~= list@);
    }
    false
}

/// A list without `item`, which it holds at most once.
pub open spec fn without(s: Seq<u64>, item: u64) -> Seq<u64> {
    if s.contains(item) {
        s.remove(s.index_of(item))
    } else {
        s
    }
}

/// Whether each item of a list is below the next.
pub open spec fn ascending(s: Seq<u64>) -> bool {
    forall|a: int, b: int| 0 <= a < b < s.len() ==> s[a] < s[b]
}

/// What a list without repetition holds once an item is removed from it.
pub proof fn lemma_without(s: Seq<u64>, item: u64)
    requires
        s.no_duplicates(),
    ensures
        without(s, item).no_duplicates(),
        forall|x: u64| without(s, item).contains(x) <==> s.contains(x) && x != item,
        without(s, item).len() == s.len() - (if s.contains(item) { 1int } else { 0int }),
        ascending(s) ==> ascending(without(s, item)),
{
    if s.contains(item) {
        let at = s.index_of(item);
        let r = s.remove(at);
        assert forall|x: u64| r.contains(x) <==> s.contains(x) && x != item by {
            if r.contains(x) {
                let k = choose|k: int| 0 <= k < r.len() && r[k] == x;
                if k < at {
                    assert(s[k] == x);
                } else {
                    assert(s[k + 1] == x);
                }
            }
            if s.contains(x) && x != item {
                let k = choose|k: int| 0 <= k < s.len() && s[k] == x;
                if k < at {
                    assert(r[k] == x);
                } else {
                    assert(r[k - 1] == x);
                }
            }
        }
    }
}

/// An ascending list holds nothing twice.
pub proof fn lemma_ascending_distinct(s: Seq<u64>)
    requires
        ascending(s),
    ensures
        s.no_duplicates(),
{
}

} // verus!
