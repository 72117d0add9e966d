//! The submission of a client: from the message to the stored tasks.

use vstd::prelude::*;
use vstd::hash_map::StringHashMap;
use crate::clientmsg::{
    task_spec_frames_after, task_spec_frames_in_range, task_spec_in_range, task_spec_memory,
    task_spec_to_memory, ClientTaskSpec, UpdateGraphMsg,
};
use crate::clients::{desired, desired_errors, desired_in_memory};
use crate::error::{EngineError, ProtocolViolation};
use crate::frames::{frames_view, Frames, SerializedTransport, TransportModel};
use crate::ingest::{added, added_keys, rejection};
use crate::notifications::{
    rejection_views, Notifications, Rejection, RejectionModel, SchedulerEvent,
};
use crate::order::is_topological;
use crate::plan::{batch_views, fresh_lists, NewTask, NewTaskModel};
use crate::store::Core;
use crate::task::{key_views, ClientId, Priority, TaskId};

verus! {

/// The specifications of the submitted tasks, as they travelled.
pub open spec fn spec_views(tasks: Seq<(String, ClientTaskSpec<SerializedTransport>)>) -> Seq<
    ClientTaskSpec<TransportModel>,
> {
    Seq::new(tasks.len(), |i: int| tasks[i].1@)
}

/// Whether a specification names none of its parts.
pub open spec fn is_empty_spec(spec: ClientTaskSpec<TransportModel>) -> bool {
    spec matches ClientTaskSpec::Direct(d) && !d.spec_is_valid()
}

/// Whether one of the specifications names none of its parts.
pub open spec fn has_empty_spec(specs: Seq<ClientTaskSpec<TransportModel>>) -> bool {
    exists|i: int| 0 <= i < specs.len() && is_empty_spec(#[trigger] specs[i])
}

/// Whether one of the specifications refers to a frame that is not among `count` frames.
pub open spec fn has_stray_frame(specs: Seq<ClientTaskSpec<TransportModel>>, count: nat) -> bool {
    exists|i: int| 0 <= i < specs.len() && !task_spec_in_range(#[trigger] specs[i], count)
}

/// What is wrong with the specifications of a submission, if anything.
pub open spec fn spec_violation(specs: Seq<ClientTaskSpec<TransportModel>>, count: nat) -> Option<
    ProtocolViolation,
> {
    if has_empty_spec(specs) {
        Some(ProtocolViolation::EmptyTaskSpec)
    } else if has_stray_frame(specs, count) {
        Some(ProtocolViolation::FrameOutOfRange)
    } else {
        None
    }
}

/// The frames that the first `n` specifications leave, each taking its
/// own from what those before it left.
pub open spec fn frames_left(
    specs: Seq<ClientTaskSpec<TransportModel>>,
    frames: Seq<Seq<u8>>,
    n: int,
) -> Seq<Seq<u8>>
    decreases n,
{
    if n <= 0 {
        frames
    } else {
        task_spec_frames_after(specs[n - 1], frames_left(specs, frames, n - 1))
    }
}

/// The keys that the task with the given key is said to depend on.
pub open spec fn deps_of(dependencies: Map<Seq<char>, Vec<String>>, key: Seq<char>) -> Seq<
    Seq<char>,
> {
    if dependencies.contains_key(key) {
        key_views(dependencies[key]@)
    } else {
        Seq::empty()
    }
}

/// The priority that the client gave the task with the given key; 0 if it gave none.
pub open spec fn priority_of(priority: Map<Seq<char>, Priority>, key: Seq<char>) -> Priority {
    if priority.contains_key(key) {
        priority[key]
    } else {
        0
    }
}

/// The tasks of a submission, each specification in its stored form.
pub open spec fn message_batch(
    tasks: Seq<(String, ClientTaskSpec<SerializedTransport>)>,
    dependencies: Map<Seq<char>, Vec<String>>,
    priority: Map<Seq<char>, Priority>,
    actors: Option<bool>,
    frames: Seq<Seq<u8>>,
) -> Seq<NewTaskModel> {
    Seq::new(
        tasks.len(),
        |i: int|
            NewTaskModel {
                key: tasks[i].0@,
                spec: task_spec_memory(tasks[i].1@, frames_left(spec_views(tasks), frames, i)),
                dependencies: deps_of(dependencies, tasks[i].0@),
                client_priority: priority_of(priority, tasks[i].0@),
                actors,
            },
    )
}

impl UpdateGraphMsg {
    /// What is wrong with the message, if anything.
    pub open spec fn violation(&self) -> Option<ProtocolViolation> {
        spec_violation(spec_views(self.tasks@), self.frames@.len())
    }

    /// The tasks that the message submits.
    pub open spec fn batch(&self) -> Seq<NewTaskModel> {
        message_batch(
            self.tasks@,
            self.dependencies@,
            self.priority@,
            self.actors,
            frames_view(self.frames@),
        )
    }
}

/// One event for each of the given tasks, telling the policy that it is new.
pub open spec fn new_task_events(order: Seq<TaskId>) -> Seq<SchedulerEvent> {
    Seq::new(order.len(), |i: int| SchedulerEvent::NewTask(order[i]))
}

/// What `client` is told when its submission is turned down: the reason,
/// once for each key that it asked for.
pub open spec fn refusals(client: ClientId, keys: Seq<Seq<char>>, error: EngineError) -> Seq<
    RejectionModel,
> {
    Seq::new(keys.len(), |i: int| RejectionModel { client, key: keys[i], error })
}

fn check_specs(tasks: &Vec<(String, ClientTaskSpec<SerializedTransport>)>, count: usize) -> (found:
    Option<ProtocolViolation>)
    ensures
        found == spec_violation(spec_views(tasks@), count as nat),
{
    let ghost specs = spec_views(tasks@);
    let mut i: usize = 0;
    while i < tasks.len()
        invariant
            i <= tasks.len(),
            specs == spec_views(tasks@),
            forall|k: int| 0 <= k < i ==> !is_empty_spec(#[trigger] specs[k]),
        decreases tasks.len() - i,
    {
        proof {
            assert(specs[i as int] == tasks@[i as int].1@);
        }
        let empty = match &tasks[i].1 {
            ClientTaskSpec::Direct(d) => !d.is_valid(),
            ClientTaskSpec::Serialized(_) => false,
        };
        if empty {
            return Some(ProtocolViolation::EmptyTaskSpec);
        }
        i += 1;
    }
    let mut j: usize = 0;
    while j < tasks.len()
        invariant
            j <= tasks.len(),
            specs == spec_views(tasks@),
            !has_empty_spec(specs),
            forall|k: int| 0 <= k < j ==> task_spec_in_range(#[trigger] specs[k], count as nat),
        decreases tasks.len() - j,
    {
        proof {
            assert(specs[j as int] == tasks@[j as int].1@);
        }
        if !task_spec_frames_in_range(&tasks[j].1, count) {
            return Some(ProtocolViolation::FrameOutOfRange);
        }
        j += 1;
    }
    None
}

/// A copy of the given keys.
pub fn copy_keys(keys: &Vec<String>) -> (copy: Vec<String>)
    ensures
        copy@ == keys@,
{
    let mut copy: Vec<String> = Vec::new();
    let mut i: usize = 0;
    while i < keys.len()
        invariant
            i <= keys.len(),
            copy@ == keys@.take(i as int),
        decreases keys.len() - i,
    {
        copy.push(keys[i].clone());
        proof {
            assert(keys@.take(i + 1) =~= keys@.take(i as int).push(keys@[i as int]));
        }
        i += 1;
    }
    proof {
        assert(keys@.take(i as int) =~= keys@);
    }
    copy
}

fn build_batch(
    tasks: Vec<(String, ClientTaskSpec<SerializedTransport>)>,
    dependencies: &StringHashMap<Vec<String>>,
    priority: &StringHashMap<Priority>,
    actors: Option<bool>,
    frames: Frames,
) -> (batch: Vec<NewTask>)
    requires
        !has_stray_frame(spec_views(tasks@), frames@.len()),
    ensures
        batch_views(batch@) == message_batch(
            tasks@,
            dependencies@,
            priority@,
            actors,
            frames_view(frames@),
        ),
{
    let ghost sent = tasks@;
    let ghost specs = spec_views(tasks@);
    let ghost first = frames_view(frames@);
    let ghost goal = message_batch(sent, dependencies@, priority@, actors, first);
    let ghost count = frames@.len();
    let mut tasks = tasks;
    let mut frames = frames;
    let mut batch: Vec<NewTask> = Vec::new();
    let mut i: usize = 0;
    while i < tasks.len()
        invariant
            i <= tasks@.len(),
            tasks@.len() == sent.len(),
            specs == spec_views(sent),
            goal == message_batch(sent, dependencies@, priority@, actors, first),
            frames@.len() == count,
            !has_stray_frame(specs, count),
            forall|k: int| i <= k < sent.len() ==> tasks@[k] == sent[k],
            frames_view(frames@) == frames_left(specs, first, i as int),
            batch_views(batch@) == goal.take(i as int),
        decreases tasks@.len() - i,
    {
        let ghost before = batch@;
        let mut item: (String, ClientTaskSpec<SerializedTransport>) = (
            String::new(),
            ClientTaskSpec::Serialized(SerializedTransport::Inline(Vec::new())),
        );
        std::mem::swap(&mut tasks[i], &mut item);
        let (key, spec) = item;
        proof {
            assert(spec@ == specs[i as int]);
            assert(task_spec_in_range(specs[i as int], count));
        }
        let wanted = match dependencies.get(key.as_str()) {
            Some(list) => copy_keys(list),
            None => Vec::new(),
        };
        let client_priority: Priority = match priority.get(key.as_str()) {
            Some(p) => *p,
            None => 0,
        };
        let memory = task_spec_to_memory(spec, &mut frames);
        let task = NewTask { key, spec: memory, dependencies: wanted, client_priority, actors };
        proof {
            assert(task@.dependencies =~= deps_of(dependencies@, sent[i as int].0@));
            assert(task@ == goal[i as int]);
        }
        batch.push(task);
        proof {
            assert(batch_views(batch@) =~= batch_views(before).push(task@));
            assert(goal.take(i + 1) =~= goal.take(i as int).push(goal[i as int]));
        }
        i += 1;
    }
    proof {
        assert(goal.take(i as int) =~= goal);
    }
    batch
}

fn record_refusals(
    notifications: &mut Notifications,
    client: ClientId,
    keys: &Vec<String>,
    error: EngineError,
)
    ensures
        rejection_views(final(notifications).rejections@) == rejection_views(
            old(notifications).rejections@,
        ) + refusals(client, key_views(keys@), error),
        final(notifications).error_tasks == old(notifications).error_tasks,
        final(notifications).in_memory_tasks == old(notifications).in_memory_tasks,
        final(notifications).compute_tasks == old(notifications).compute_tasks,
        final(notifications).delete_keys == old(notifications).delete_keys,
        final(notifications).steal_requests == old(notifications).steal_requests,
        final(notifications).scheduler_events == old(notifications).scheduler_events,
{
    let ghost all = refusals(client, key_views(keys@), error);
    let mut i: usize = 0;
    proof {
        assert(rejection_views(notifications.rejections@) + all.take(0) =~= rejection_views(
            notifications.rejections@,
        ));
    }
    while i < keys.len()
        invariant
            i <= keys.len(),
            all == refusals(client, key_views(keys@), error),
            rejection_views(notifications.rejections@) == rejection_views(
                old(notifications).rejections@,
            ) + all.take(i as int),
            notifications.error_tasks == old(notifications).error_tasks,
            notifications.in_memory_tasks == old(notifications).in_memory_tasks,
            notifications.compute_tasks == old(notifications).compute_tasks,
            notifications.delete_keys == old(notifications).delete_keys,
            notifications.steal_requests == old(notifications).steal_requests,
            notifications.scheduler_events == old(notifications).scheduler_events,
        decreases keys.len() - i,
    {
        let ghost before = notifications.rejections@;
        let entry = Rejection { client, key: keys[i].clone(), error };
        notifications.rejections.push(entry);
        proof {
            assert(rejection_views(notifications.rejections@) =~= rejection_views(before).push(
                entry@,
            ));
            assert(all.take(i + 1) =~= all.take(i as int).push(all[i as int]));
            assert(rejection_views(notifications.rejections@) =~= rejection_views(
                old(notifications).rejections@,
            ) + all.take(i + 1));
        }
        i += 1;
    }
    proof {
        assert(all.take(i as int) =~= all);
    }
}

fn record_new_tasks(notifications: &mut Notifications, order: &Vec<TaskId>)
    ensures
        final(notifications).scheduler_events@ == old(notifications).scheduler_events@
            + new_task_events(order@),
        final(notifications).error_tasks == old(notifications).error_tasks,
        final(notifications).in_memory_tasks == old(notifications).in_memory_tasks,
        final(notifications).rejections == old(notifications).rejections,
        final(notifications).compute_tasks == old(notifications).compute_tasks,
        final(notifications).delete_keys == old(notifications).delete_keys,
        final(notifications).steal_requests == old(notifications).steal_requests,
{
    let ghost all = new_task_events(order@);
    let mut i: usize = 0;
    proof {
        assert(notifications.scheduler_events@ + all.take(0) =~= notifications.scheduler_events@);
    }
    while i < order.len()
        invariant
            i <= order.len(),
            all == new_task_events(order@),
            notifications.scheduler_events@ == old(notifications).scheduler_events@ + all.take(
                i as int,
            ),
            notifications.error_tasks == old(notifications).error_tasks,
            notifications.in_memory_tasks == old(notifications).in_memory_tasks,
            notifications.rejections == old(notifications).rejections,
            notifications.compute_tasks == old(notifications).compute_tasks,
            notifications.delete_keys == old(notifications).delete_keys,
            notifications.steal_requests == old(notifications).steal_requests,
        decreases order.len() - i,
    {
        notifications.scheduler_events.push(SchedulerEvent::NewTask(order[i]));
        proof {
            assert(all.take(i + 1) =~= all.take(i as int).push(all[i as int]));
            assert(notifications.scheduler_events@ =~= old(notifications).scheduler_events@
                + all.take(i + 1));
        }
        i += 1;
    }
    proof {
        assert(all.take(i as int) =~= all);
    }
}

/// The ids that a submission returns, or the reason for which it was turned down.
pub open spec fn order_view(result: Result<Vec<TaskId>, EngineError>) -> Result<
    Seq<TaskId>,
    EngineError,
> {
    match result {
        Ok(order) => Ok(order@),
        Err(e) => Err(e),
    }
}

/// What a well-formed submission of `client` does to the store `pre`
/// and to the batch `noted`: `post` and `sent` are what they are
/// afterwards, and `result` holds the ids of the new tasks in the order
/// in which the policy is told of them, or the reason for which the
/// submission was turned down.
pub open spec fn submitted(
    pre: &Core,
    noted: &Notifications,
    client: ClientId,
    msg: UpdateGraphMsg,
    post: &Core,
    sent: &Notifications,
    result: Result<Seq<TaskId>, EngineError>,
) -> bool {
    &&& post.workers_view() == pre.workers_view()
    &&& post.clients_view() == pre.clients_view()
    &&& sent.compute_tasks == noted.compute_tasks
    &&& sent.delete_keys == noted.delete_keys
    &&& sent.steal_requests == noted.steal_requests
    &&& match rejection(pre.tasks_view(), pre.keys_view(), msg.batch()) {
        Some(e) => {
            &&& result == Err::<Seq<TaskId>, EngineError>(e)
            &&& post.tasks_view() == pre.tasks_view()
            &&& post.keys_view() == pre.keys_view()
            &&& rejection_views(sent.rejections@) == rejection_views(noted.rejections@) + refusals(
                client,
                key_views(msg.keys@),
                e,
            )
            &&& sent.error_tasks == noted.error_tasks
            &&& sent.in_memory_tasks == noted.in_memory_tasks
            &&& sent.scheduler_events == noted.scheduler_events
        },
        None => {
            let tasks = added(pre.tasks_view(), pre.keys_view(), msg.batch(), msg.user_priority);
            let keys = added_keys(pre.tasks_view(), pre.keys_view(), msg.batch());
            &&& result is Ok
            &&& is_topological(
                result->Ok_0,
                pre.tasks_view().len() as TaskId,
                fresh_lists(
                    pre.keys_view(),
                    pre.tasks_view().len(),
                    msg.batch(),
                    msg.batch().len() as int,
                ),
            )
            &&& post.tasks_view() == desired(tasks, keys, client, key_views(msg.keys@))
            &&& post.keys_view() == keys
            &&& sent.scheduler_events@ == noted.scheduler_events@ + new_task_events(result->Ok_0)
            &&& sent.in_memory_tasks@ == noted.in_memory_tasks@ + desired_in_memory(
                tasks,
                keys,
                client,
                key_views(msg.keys@),
            )
            &&& sent.error_tasks@ == noted.error_tasks@ + desired_errors(
                tasks,
                keys,
                client,
                key_views(msg.keys@),
            )
            &&& sent.rejections == noted.rejections
        },
    }
}

/// A submission is never turned down as malformed by the store: the
/// reasons of the store are a key that occurs twice, an unknown
/// dependency, and a cycle.
pub proof fn lemma_turned_down_otherwise(pre: &Core, msg: UpdateGraphMsg)
    ensures
        !(rejection(pre.tasks_view(), pre.keys_view(), msg.batch()) matches Some(
            EngineError::ProtocolError(_),
        )),
{
}

impl Core {
    /// Takes the submission of a client.
    ///
    /// A message whose specifications are malformed is a protocol
    /// error, and changes nothing. Otherwise the tasks are added, unless
    /// the submission is turned down because a key occurs twice in it, a
    /// task depends on an unknown key, or the new tasks depend on each
    /// other in a cycle; then the store stays as it is, and the client
    /// is owed the reason once for each key that it asked for.
    ///
    /// Where the tasks are added, the client is entered as an owner of
    /// each key that it asked for, and is owed at once the news of those
    /// that are in memory or have failed already. The policy is told of
    /// the new tasks, each after its dependencies; the ids are returned
    /// in that order.
    pub fn update_graph(
        &mut self,
        client: ClientId,
        msg: UpdateGraphMsg,
        notifications: &mut Notifications,
    ) -> (result: Result<Vec<TaskId>, EngineError>)
        requires
            old(self).wf(),
            old(self).tasks_view().len() + msg.tasks@.len() <= usize::MAX,
        ensures
            final(self).wf(),
            final(self).workers_view() == old(self).workers_view(),
            final(self).clients_view() == old(self).clients_view(),
            final(notifications).compute_tasks == old(notifications).compute_tasks,
            final(notifications).delete_keys == old(notifications).delete_keys,
            final(notifications).steal_requests == old(notifications).steal_requests,
            match msg.violation() {
                Some(v) => {
                    &&& result == Err::<Vec<TaskId>, EngineError>(EngineError::ProtocolError(v))
                    &&& final(self).tasks_view() == old(self).tasks_view()
                    &&& final(self).keys_view() == old(self).keys_view()
                    &&& *final(notifications) == *old(notifications)
                },
                None => submitted(
                    old(self),
                    old(notifications),
                    client,
                    msg,
                    final(self),
                    final(notifications),
                    order_view(result),
                ),
            },
    {
        let UpdateGraphMsg { tasks, dependencies, keys, priority, user_priority, actors, frames } =
            msg;
        match check_specs(&tasks, frames.len()) {
            Some(v) => { return Err(EngineError::ProtocolError(v)); },
            None => {},
        }
        let batch = build_batch(tasks, &dependencies, &priority, actors, frames);
        proof {
            assert(batch_views(batch@).len() == batch@.len());
            assert(msg.batch().len() == msg.tasks@.len());
        }
        match self.add_tasks(batch, user_priority) {
            Err(e) => {
                record_refusals(notifications, client, &keys, e);
                Err(e)
            },
            Ok(order) => {
                self.desire_keys(client, &keys, notifications);
                record_new_tasks(notifications, &order);
                Ok(order)
            },
        }
    }
}

} // verus!
