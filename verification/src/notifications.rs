//! The batch of what is owed to clients, workers and the scheduling policy
//! while one inbound message is processed.

use vstd::prelude::*;
use crate::error::EngineError;
use crate::task::{list_contains, ClientId, TaskId, WorkerId};

verus! {

/// What the scheduling policy is told.
#[derive(Clone, Copy, Debug, PartialEq, Eq, Structural)]
pub enum SchedulerEvent {
    /// A task was added to the store.
    NewTask(TaskId),
    /// The last missing dependency of a waiting task is in memory.
    TaskReady(TaskId),
    /// The last worker that held the result of a task is gone.
    LostData(TaskId),
    /// A worker registered.
    NewWorker(WorkerId),
}

/// A submission that was turned down, for one key that the client asked for.
pub struct Rejection {
    pub client: ClientId,
    pub key: String,
    pub error: EngineError,
}

/// Mathematical content of a [`Rejection`].
pub struct RejectionModel {
    pub client: ClientId,
    pub key: Seq<char>,
    pub error: EngineError,
}

impl View for Rejection {
    type V = RejectionModel;

    open spec fn view(&self) -> RejectionModel {
        RejectionModel { client: self.client, key: self.key@, error: self.error }
    }
}

/// The content of each rejection.
pub open spec fn rejection_views(rejections: Seq<Rejection>) -> Seq<RejectionModel> {
    rejections.map_values(|r: Rejection| r@)
}

/// What is owed to clients, workers and the scheduling policy while one
/// inbound message is processed. Each list is in the order in which its
/// entries were recorded.
pub struct Notifications {
    /// A client and a task that failed.
    pub error_tasks: Vec<(ClientId, TaskId)>,
    /// A client and a task whose result is in memory.
    pub in_memory_tasks: Vec<(ClientId, TaskId)>,
    pub rejections: Vec<Rejection>,
    /// A worker and a task that it is to run.
    pub compute_tasks: Vec<(WorkerId, TaskId)>,
    /// A worker and a task whose result it may drop.
    pub delete_keys: Vec<(WorkerId, TaskId)>,
    /// A worker and a task that it is asked to give back.
    pub steal_requests: Vec<(WorkerId, TaskId)>,
    pub scheduler_events: Vec<SchedulerEvent>,
}

/// What one client is owed.
pub struct ClientNotification {
    pub error_tasks: Vec<TaskId>,
    pub in_memory_tasks: Vec<TaskId>,
}

/// What one worker is owed.
pub struct WorkerUpdate {
    pub compute_tasks: Vec<TaskId>,
    pub delete_keys: Vec<TaskId>,
    pub steal_tasks: Vec<TaskId>,
}

/// The entries for `who`, in their order.
pub open spec fn addressed_to(entries: Seq<(u64, u64)>, who: u64) -> Seq<u64>
    decreases entries.len(),
{
    if entries.len() == 0 {
        Seq::empty()
    } else if entries.last().0 == who {
        addressed_to(entries.drop_last(), who).push(entries.last().1)
    } else {
        addressed_to(entries.drop_last(), who)
    }
}

/// The items that are not among `banned`, in their order.
pub open spec fn excluding(items: Seq<u64>, banned: Seq<u64>) -> Seq<u64>
    decreases items.len(),
{
    if items.len() == 0 {
        Seq::empty()
    } else if banned.contains(items.last()) {
        excluding(items.drop_last(), banned)
    } else {
        excluding(items.drop_last(), banned).push(items.last())
    }
}

/// The recipients of the entries, each once, in the order in which they first occur.
pub open spec fn recipients(entries: Seq<(u64, u64)>, seen: Seq<u64>) -> Seq<u64>
    decreases entries.len(),
{
    if entries.len() == 0 {
        seen
    } else {
        let before = recipients(entries.drop_last(), seen);
        if before.contains(entries.last().0) {
            before
        } else {
            before.push(entries.last().0)
        }
    }
}

/// The clients whose submissions were turned down, each once, in the
/// order in which they first occur.
pub open spec fn refused_clients(rejections: Seq<RejectionModel>) -> Seq<ClientId>
    decreases rejections.len(),
{
    if rejections.len() == 0 {
        Seq::empty()
    } else {
        let before = refused_clients(rejections.drop_last());
        if before.contains(rejections.last().client) {
            before
        } else {
            before.push(rejections.last().client)
        }
    }
}

/// The tasks whose failure `client` is told of.
pub open spec fn client_errors(errors: Seq<(ClientId, TaskId)>, client: ClientId) -> Seq<TaskId> {
    addressed_to(errors, client)
}

/// The tasks that `client` is told are in memory: those recorded for it,
/// but for the tasks whose failure it is told of in the same batch.
pub open spec fn client_in_memory(
    in_memory: Seq<(ClientId, TaskId)>,
    errors: Seq<(ClientId, TaskId)>,
    client: ClientId,
) -> Seq<TaskId> {
    excluding(addressed_to(in_memory, client), addressed_to(errors, client))
}

fn select(entries: &Vec<(u64, u64)>, who: u64) -> (chosen: Vec<u64>)
    ensures
        chosen@ == addressed_to(entries@, who),
{
    let mut chosen: Vec<u64> = Vec::new();
    let mut i: usize = 0;
    while i < entries.len()
        invariant
            i <= entries.len(),
            chosen@ == addressed_to(entries@.take(i as int), who),
        decreases entries.len() - i,
    {
        proof {
            assert(entries@.take(i + 1).drop_last() =~= entries@.take(i as int));
        }
        if entries[i].0 == who {
            chosen.push(entries[i].1);
        }
        i += 1;
    }
    proof {
        assert(entries@.take(i as int) =~= entries@);
    }
    chosen
}

fn exclude(items: Vec<u64>, banned: &Vec<u64>) -> (kept: Vec<u64>)
    ensures
        kept@ == excluding(items@, banned@),
{
    let mut kept: Vec<u64> = Vec::new();
    let mut i: usize = 0;
    while i < items.len()
        invariant
            i <= items.len(),
            kept@ == excluding(items@.take(i as int), banned@),
        decreases items.len() - i,
    {
        proof {
            assert(items@.take(i + 1).drop_last() =~= items@.take(i as int));
        }
        if !list_contains(banned, items[i]) {
            kept.push(items[i]);
        }
        i += 1;
    }
    proof {
        assert(items@.take(i as int) =~= items@);
    }
    kept
}

fn add_recipients(entries: &Vec<(u64, u64)>, seen: Vec<u64>) -> (all: Vec<u64>)
    ensures
        all@ == recipients(entries@, seen@),
{
    let mut all: Vec<u64> = seen;
    let mut i: usize = 0;
    while i < entries.len()
        invariant
            i <= entries.len(),
            all@ == recipients(entries@.take(i as int), seen@),
        decreases entries.len() - i,
    {
        proof {
            assert(entries@.take(i + 1).drop_last() =~= entries@.take(i as int));
        }
        if !list_contains(&all, entries[i].0) {
            all.push(entries[i].0);
        }
        i += 1;
    }
    proof {
        assert(entries@.take(i as int) =~= entries@);
    }
    all
}

impl Notifications {
    /// An empty batch.
    pub fn new() -> (batch: Notifications)
        ensures
            batch.error_tasks@.len() == 0,
            batch.in_memory_tasks@.len() == 0,
            batch.rejections@.len() == 0,
            batch.compute_tasks@.len() == 0,
            batch.delete_keys@.len() == 0,
            batch.steal_requests@.len() == 0,
            batch.scheduler_events@.len() == 0,
    {
        Notifications {
            error_tasks: Vec::new(),
            in_memory_tasks: Vec::new(),
            rejections: Vec::new(),
            compute_tasks: Vec::new(),
            delete_keys: Vec::new(),
            steal_requests: Vec::new(),
            scheduler_events: Vec::new(),
        }
    }

    /// Whether nothing was recorded.
    pub fn is_empty(&self) -> (empty: bool)
        ensures
            empty == (self.error_tasks@.len() == 0 && self.in_memory_tasks@.len() == 0
                && self.rejections@.len() == 0 && self.compute_tasks@.len() == 0
                && self.delete_keys@.len() == 0 && self.steal_requests@.len() == 0
                && self.scheduler_events@.len() == 0),
    {
        self.error_tasks.len() == 0 && self.in_memory_tasks.len() == 0 && self.rejections.len()
            == 0 && self.compute_tasks.len() == 0 && self.delete_keys.len() == 0
            && self.steal_requests.len() == 0 && self.scheduler_events.len() == 0
    }

    /// The clients that are owed a message, each once, in the order in
    /// which they were first recorded: refusals first, then failures,
    /// then results.
    pub fn client_ids(&self) -> (ids: Vec<ClientId>)
        ensures
            ids@ == recipients(
                self.in_memory_tasks@,
                recipients(self.error_tasks@, refused_clients(rejection_views(self.rejections@))),
            ),
    {
        let ghost refused = rejection_views(self.rejections@);
        let mut seen: Vec<ClientId> = Vec::new();
        let mut i: usize = 0;
        while i < self.rejections.len()
            invariant
                i <= self.rejections.len(),
                refused == rejection_views(self.rejections@),
                seen@ == refused_clients(refused.take(i as int)),
            decreases self.rejections.len() - i,
        {
            proof {
                assert(refused.take(i + 1).drop_last() =~= refused.take(i as int));
                assert(refused.take(i + 1).last().client == self.rejections@[i as int].client);
            }
            if !list_contains(&seen, self.rejections[i].client) {
                seen.push(self.rejections[i].client);
            }
            i += 1;
        }
        proof {
            assert(refused.take(i as int) =~= refused);
        }
        let first = add_recipients(&self.error_tasks, seen);
        add_recipients(&self.in_memory_tasks, first)
    }

    /// The workers that are owed a message, each once, in the order in
    /// which they were first recorded: tasks to run, then results to drop,
    /// then tasks to give back.
    pub fn worker_ids(&self) -> (ids: Vec<WorkerId>)
        ensures
            ids@ == recipients(
                self.steal_requests@,
                recipients(self.delete_keys@, recipients(self.compute_tasks@, Seq::empty())),
            ),
    {
        let first = add_recipients(&self.compute_tasks, Vec::new());
        let second = add_recipients(&self.delete_keys, first);
        add_recipients(&self.steal_requests, second)
    }

    /// What `client` is owed. A task whose failure the client is told of
    /// is left out of the results it is told of.
    pub fn client_notification(&self, client: ClientId) -> (owed: ClientNotification)
        ensures
            owed.error_tasks@ == client_errors(self.error_tasks@, client),
            owed.in_memory_tasks@ == client_in_memory(
                self.in_memory_tasks@,
                self.error_tasks@,
                client,
            ),
    {
        let error_tasks = select(&self.error_tasks, client);
        let in_memory_tasks = exclude(select(&self.in_memory_tasks, client), &error_tasks);
        ClientNotification { error_tasks, in_memory_tasks }
    }

    /// What `worker` is owed.
    pub fn worker_update(&self, worker: WorkerId) -> (owed: WorkerUpdate)
        ensures
            owed.compute_tasks@ == addressed_to(self.compute_tasks@, worker),
            owed.delete_keys@ == addressed_to(self.delete_keys@, worker),
            owed.steal_tasks@ == addressed_to(self.steal_requests@, worker),
    {
        WorkerUpdate {
            compute_tasks: select(&self.compute_tasks, worker),
            delete_keys: select(&self.delete_keys, worker),
            steal_tasks: select(&self.steal_requests, worker),
        }
    }
}

/// What is kept of a list holds nothing that is banned, and everything else of the list.
pub proof fn lemma_excluding(items: Seq<u64>, banned: Seq<u64>, x: u64)
    ensures
        excluding(items, banned).contains(x) <==> items.contains(x) && !banned.contains(x),
    decreases items.len(),
{
    if items.len() > 0 {
        let front = items.drop_last();
        let last = items.last();
        lemma_excluding(front, banned, x);
        assert(items =~= front.push(last));
        assert(items.contains(x) <==> front.contains(x) || last == x) by {
            if items.contains(x) {
                let k = choose|k: int| 0 <= k < items.len() && items[k] == x;
                if k < front.len() {
                    assert(front[k] == x);
                }
            }
            if front.contains(x) {
                let k = choose|k: int| 0 <= k < front.len() && front[k] == x;
                assert(items[k] == x);
            }
            if last == x {
                assert(items[items.len() - 1] == x);
            }
        }
        let kept = excluding(front, banned);
        if !banned.contains(last) {
            let all = kept.push(last);
            assert(all.contains(x) <==> kept.contains(x) || last == x) by {
                if all.contains(x) {
                    let k = choose|k: int| 0 <= k < all.len() && all[k] == x;
                    if k < kept.len() {
                        assert(kept[k] == x);
                    }
                }
                if kept.contains(x) {
                    let k = choose|k: int| 0 <= k < kept.len() && kept[k] == x;
                    assert(all[k] == x);
                }
                if last == x {
                    assert(all[all.len() - 1] == x);
                }
            }
        }
    }
}

/// No client is told in one batch both that a task failed and that its
/// result is in memory.
pub proof fn lemma_error_suppresses_in_memory(
    in_memory: Seq<(ClientId, TaskId)>,
    errors: Seq<(ClientId, TaskId)>,
    client: ClientId,
    task: TaskId,
)
    ensures
        !(client_errors(errors, client).contains(task) && client_in_memory(
            in_memory,
            errors,
            client,
        ).contains(task)),
{
    lemma_excluding(addressed_to(in_memory, client), addressed_to(errors, client), task);
}

} // verus!
