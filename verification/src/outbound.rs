//! What goes out at the end of a tick: the messages for the scheduling
//! policy and the packets for workers and clients.

use vstd::prelude::*;
use crate::clientmsg::{task_spec_frames_with, task_spec_to_transport, task_spec_transport};
use crate::comm::{client_packets, notify_clients, packet_views, ClientPacket};
use crate::descriptor::{heading, write_descriptor};
use crate::error::{EngineError, ProtocolViolation};
use crate::failure::append_ids;
use crate::frames::{frames_view, Frames};
use crate::model::{is_live, TaskModel};
use crate::notifications::{
    addressed_to, recipients, refused_clients, rejection_views, Notifications, SchedulerEvent,
    WorkerUpdate,
};
use crate::store::Core;
use crate::task::{key_views, Priority, TaskId, Worker, WorkerId};
use crate::worker::WorkerInfo;
use crate::workermsg::{
    holder_views, ComputeTaskMsg, DeleteDataMsg, StealRequestMsg, ToWorkerMessage, ToWorkerModel,
};

verus! {

/// What the policy is told of a new task: no specification, only what
/// placing the task takes.
pub struct TaskInfo {
    pub id: TaskId,
    /// The tasks whose results the task needs.
    pub inputs: Vec<TaskId>,
    pub user_priority: Priority,
    pub client_priority: Priority,
}

/// What the scheduling policy is sent.
pub enum ToSchedulerMessage {
    NewTask(TaskInfo),
    TaskReady(TaskId),
    LostData(TaskId),
    NewWorker(WorkerInfo),
}

/// Mathematical content of a [`ToSchedulerMessage`].
pub enum ToSchedulerModel {
    NewTask { id: TaskId, inputs: Seq<TaskId>, user_priority: Priority, client_priority: Priority },
    TaskReady(TaskId),
    LostData(TaskId),
    NewWorker(WorkerInfo),
}

impl View for ToSchedulerMessage {
    type V = ToSchedulerModel;

    open spec fn view(&self) -> ToSchedulerModel {
        match *self {
            ToSchedulerMessage::NewTask(info) => ToSchedulerModel::NewTask {
                id: info.id,
                inputs: info.inputs@,
                user_priority: info.user_priority,
                client_priority: info.client_priority,
            },
            ToSchedulerMessage::TaskReady(id) => ToSchedulerModel::TaskReady(id),
            ToSchedulerMessage::LostData(id) => ToSchedulerModel::LostData(id),
            ToSchedulerMessage::NewWorker(info) => ToSchedulerModel::NewWorker(info),
        }
    }
}

/// The content of each message.
pub open spec fn scheduler_views(messages: Seq<ToSchedulerMessage>) -> Seq<ToSchedulerModel> {
    messages.map_values(|m: ToSchedulerMessage| m@)
}

/// Whether a worker with the given id is connected.
pub open spec fn connected(workers: Seq<Option<Worker>>, id: WorkerId) -> bool {
    id < workers.len() && workers[id as int] is Some
}

/// The messages with the one that tells the policy of `event`. A new
/// task that is gone by now, or a new worker that is, is passed over.
pub open spec fn with_event(
    messages: Seq<ToSchedulerModel>,
    tasks: Seq<TaskModel>,
    workers: Seq<Option<Worker>>,
    event: SchedulerEvent,
) -> Seq<ToSchedulerModel> {
    match event {
        SchedulerEvent::NewTask(id) => if is_live(tasks, id) {
            messages.push(
                ToSchedulerModel::NewTask {
                    id,
                    inputs: tasks[id as int].dependencies,
                    user_priority: tasks[id as int].user_priority,
                    client_priority: tasks[id as int].client_priority,
                },
            )
        } else {
            messages
        },
        SchedulerEvent::TaskReady(id) => messages.push(ToSchedulerModel::TaskReady(id)),
        SchedulerEvent::LostData(id) => messages.push(ToSchedulerModel::LostData(id)),
        SchedulerEvent::NewWorker(id) => if connected(workers, id) {
            messages.push(
                ToSchedulerModel::NewWorker(
                    WorkerInfo { id: workers[id as int]->0.id, ncpus: workers[id as int]->0.ncpus },
                ),
            )
        } else {
            messages
        },
    }
}

/// The messages that tell the policy of the given events, in their order.
pub open spec fn scheduler_messages_of(
    tasks: Seq<TaskModel>,
    workers: Seq<Option<Worker>>,
    events: Seq<SchedulerEvent>,
) -> Seq<ToSchedulerModel>
    decreases events.len(),
{
    if events.len() == 0 {
        Seq::empty()
    } else {
        with_event(
            scheduler_messages_of(tasks, workers, events.drop_last()),
            tasks,
            workers,
            events.last(),
        )
    }
}

/// The messages that tell the policy of what was recorded for it.
pub fn scheduler_messages(core: &Core, events: &Vec<SchedulerEvent>) -> (messages: Vec<
    ToSchedulerMessage,
>)
    ensures
        scheduler_views(messages@) == scheduler_messages_of(
            core.tasks_view(),
            core.workers_view(),
            events@,
        ),
{
    let ghost tasks = core.tasks_view();
    let ghost workers = core.workers_view();
    let mut messages: Vec<ToSchedulerMessage> = Vec::new();
    let mut i: usize = 0;
    proof {
        assert(scheduler_views(messages@) =~= Seq::<ToSchedulerModel>::empty());
    }
    while i < events.len()
        invariant
            i <= events.len(),
            tasks == core.tasks_view(),
            workers == core.workers_view(),
            scheduler_views(messages@) == scheduler_messages_of(
                tasks,
                workers,
                events@.take(i as int),
            ),
        decreases events.len() - i,
    {
        let ghost before = messages@;
        proof {
            assert(events@.take(i + 1).drop_last() =~= events@.take(i as int));
            assert(events@.take(i + 1).last() == events@[i as int]);
        }
        let message = match events[i] {
            SchedulerEvent::NewTask(id) => match core.get_task(id) {
                Some(task) => {
                    let mut inputs: Vec<TaskId> = Vec::new();
                    append_ids(&mut inputs, &task.dependencies);
                    proof {
                        assert(inputs@ =~= task@.dependencies);
                    }
                    Some(
                        ToSchedulerMessage::NewTask(
                            TaskInfo {
                                id,
                                inputs,
                                user_priority: task.user_priority,
                                client_priority: task.client_priority,
                            },
                        ),
                    )
                },
                None => None,
            },
            SchedulerEvent::TaskReady(id) => Some(ToSchedulerMessage::TaskReady(id)),
            SchedulerEvent::LostData(id) => Some(ToSchedulerMessage::LostData(id)),
            SchedulerEvent::NewWorker(id) => match core.get_worker(id) {
                Some(worker) => Some(ToSchedulerMessage::NewWorker(worker.make_sched_info())),
                None => None,
            },
        };
        match message {
            Some(m) => {
                messages.push(m);
                proof {
                    assert(scheduler_views(messages@) =~= scheduler_views(before).push(m@));
                }
            },
            None => {},
        }
        i += 1;
    }
    proof {
        assert(events@.take(i as int) =~= events@);
    }
    messages
}

/// The addresses of those of the given workers that are connected.
pub open spec fn addresses(workers: Seq<Option<Worker>>, owners: Seq<WorkerId>) -> Seq<Seq<char>>
    decreases owners.len(),
{
    if owners.len() == 0 {
        Seq::empty()
    } else if connected(workers, owners.last()) {
        addresses(workers, owners.drop_last()).push(
            workers[owners.last() as int]->0.listen_address@,
        )
    } else {
        addresses(workers, owners.drop_last())
    }
}

/// For each of the given tasks, its key and the addresses of the
/// connected workers that hold its result.
pub open spec fn who_has(tasks: Seq<TaskModel>, workers: Seq<Option<Worker>>, deps: Seq<TaskId>) -> Seq<
    (Seq<char>, Seq<Seq<char>>),
>
    decreases deps.len(),
{
    if deps.len() == 0 {
        Seq::empty()
    } else if deps.last() < tasks.len() {
        who_has(tasks, workers, deps.drop_last()).push(
            (
                tasks[deps.last() as int].key,
                addresses(workers, tasks[deps.last() as int].worker_owners),
            ),
        )
    } else {
        who_has(tasks, workers, deps.drop_last())
    }
}

/// The message that tells a worker to run task `id`. The payloads of
/// the specification refer to the frames of the message, counted from 0.
pub open spec fn compute_message(
    tasks: Seq<TaskModel>,
    workers: Seq<Option<Worker>>,
    id: TaskId,
) -> ToWorkerModel {
    ToWorkerModel::ComputeTask {
        key: tasks[id as int].key,
        user_priority: tasks[id as int].user_priority,
        scheduler_priority: tasks[id as int].scheduler_priority,
        who_has: who_has(tasks, workers, tasks[id as int].dependencies),
        spec: task_spec_transport(tasks[id as int].spec, Seq::empty()),
        actors: tasks[id as int].actors,
    }
}

/// The frames that go with the message that tells a worker to run task `id`.
pub open spec fn compute_frames(tasks: Seq<TaskModel>, id: TaskId) -> Seq<Seq<u8>> {
    task_spec_frames_with(tasks[id as int].spec, Seq::empty())
}

/// A packet for a worker before it is sealed: its messages, its frames,
/// and for each frame the position of the message that it belongs to.
pub struct Draft {
    pub messages: Vec<ToWorkerMessage>,
    pub descriptor: Vec<u64>,
    pub frames: Frames,
}

/// Mathematical content of a [`Draft`].
pub struct DraftModel {
    pub messages: Seq<ToWorkerModel>,
    pub descriptor: Seq<u64>,
    pub frames: Seq<Seq<u8>>,
}

impl View for Draft {
    type V = DraftModel;

    open spec fn view(&self) -> DraftModel {
        DraftModel {
            messages: self.messages@.map_values(|m: ToWorkerMessage| m@),
            descriptor: self.descriptor@,
            frames: frames_view(self.frames@),
        }
    }
}

/// A draft with the message that tells the worker to run task `id`,
/// and with the frames of that message. A task that is gone is passed over.
pub open spec fn with_compute(
    draft: DraftModel,
    tasks: Seq<TaskModel>,
    workers: Seq<Option<Worker>>,
    id: TaskId,
) -> DraftModel {
    if is_live(tasks, id) {
        let own = compute_frames(tasks, id);
        DraftModel {
            messages: draft.messages.push(compute_message(tasks, workers, id)),
            descriptor: draft.descriptor + Seq::new(
                own.len(),
                |k: int| draft.messages.len() as u64,
            ),
            frames: draft.frames + own,
        }
    } else {
        draft
    }
}

/// A draft with a message for each of the given tasks that the worker is to run.
pub open spec fn with_computes(
    draft: DraftModel,
    tasks: Seq<TaskModel>,
    workers: Seq<Option<Worker>>,
    ids: Seq<TaskId>,
) -> DraftModel
    decreases ids.len(),
{
    if ids.len() == 0 {
        draft
    } else {
        with_compute(with_computes(draft, tasks, workers, ids.drop_last()), tasks, workers, ids.last())
    }
}

/// The keys of the given tasks; an id that was never given out has none.
pub open spec fn keys_of(tasks: Seq<TaskModel>, ids: Seq<TaskId>) -> Seq<Seq<char>>
    decreases ids.len(),
{
    if ids.len() == 0 {
        Seq::empty()
    } else if ids.last() < tasks.len() {
        keys_of(tasks, ids.drop_last()).push(tasks[ids.last() as int].key)
    } else {
        keys_of(tasks, ids.drop_last())
    }
}

/// A draft with one message that names the results that the worker may
/// drop, if there are any.
pub open spec fn with_delete(draft: DraftModel, tasks: Seq<TaskModel>, ids: Seq<TaskId>) -> DraftModel {
    if keys_of(tasks, ids).len() > 0 {
        DraftModel {
            messages: draft.messages.push(
                ToWorkerModel::DeleteData { keys: keys_of(tasks, ids), report: false },
            ),
            ..draft
        }
    } else {
        draft
    }
}

/// A draft with one message that asks the worker to give task `id`
/// back. An id that was never given out is passed over.
pub open spec fn with_steal(draft: DraftModel, tasks: Seq<TaskModel>, id: TaskId) -> DraftModel {
    if id < tasks.len() {
        DraftModel {
            messages: draft.messages.push(ToWorkerModel::StealRequest { key: tasks[id as int].key }),
            ..draft
        }
    } else {
        draft
    }
}

/// A draft with one message for each of the given tasks, asking the
/// worker to give the task back.
pub open spec fn with_steals(draft: DraftModel, tasks: Seq<TaskModel>, ids: Seq<TaskId>) -> DraftModel
    decreases ids.len(),
{
    if ids.len() == 0 {
        draft
    } else {
        with_steal(with_steals(draft, tasks, ids.drop_last()), tasks, ids.last())
    }
}

/// What a worker is owed, as a draft: the tasks to run, then the
/// results to drop, then the tasks to give back.
pub open spec fn draft_of(
    tasks: Seq<TaskModel>,
    workers: Seq<Option<Worker>>,
    computes: Seq<TaskId>,
    deletes: Seq<TaskId>,
    steals: Seq<TaskId>,
) -> DraftModel {
    with_steals(
        with_delete(
            with_computes(
                DraftModel {
                    messages: Seq::empty(),
                    descriptor: Seq::empty(),
                    frames: Seq::empty(),
                },
                tasks,
                workers,
                computes,
            ),
            tasks,
            deletes,
        ),
        tasks,
        steals,
    )
}

fn holder_addresses(core: &Core, owners: &Vec<WorkerId>) -> (found: Vec<String>)
    ensures
        key_views(found@) == addresses(core.workers_view(), owners@),
{
    let ghost workers = core.workers_view();
    let mut found: Vec<String> = Vec::new();
    let mut i: usize = 0;
    proof {
        assert(key_views(found@) =~= Seq::<Seq<char>>::empty());
    }
    while i < owners.len()
        invariant
            i <= owners.len(),
            workers == core.workers_view(),
            key_views(found@) == addresses(workers, owners@.take(i as int)),
        decreases owners.len() - i,
    {
        let ghost before = found@;
        proof {
            assert(owners@.take(i + 1).drop_last() =~= owners@.take(i as int));
        }
        match core.get_worker(owners[i]) {
            Some(worker) => {
                let address = worker.listen_address.clone();
                found.push(address);
                proof {
                    assert(key_views(found@) =~= key_views(before).push(address@));
                }
            },
            None => {},
        }
        i += 1;
    }
    proof {
        assert(owners@.take(i as int) =~= owners@);
    }
    found
}

fn holders_of(core: &Core, deps: &Vec<TaskId>) -> (found: Vec<(String, Vec<String>)>)
    ensures
        holder_views(found@) == who_has(core.tasks_view(), core.workers_view(), deps@),
{
    let ghost tasks = core.tasks_view();
    let ghost workers = core.workers_view();
    let mut found: Vec<(String, Vec<String>)> = Vec::new();
    let mut i: usize = 0;
    proof {
        assert(holder_views(found@) =~= Seq::<(Seq<char>, Seq<Seq<char>>)>::empty());
    }
    while i < deps.len()
        invariant
            i <= deps.len(),
            tasks == core.tasks_view(),
            workers == core.workers_view(),
            holder_views(found@) == who_has(tasks, workers, deps@.take(i as int)),
        decreases deps.len() - i,
    {
        let ghost before = found@;
        proof {
            assert(deps@.take(i + 1).drop_last() =~= deps@.take(i as int));
        }
        let d: TaskId = deps[i];
        if d < core.tasks.len() as u64 {
            let task = &core.tasks[d as usize];
            proof {
                assert(tasks[d as int] == task@);
            }
            let entry = (task.key.clone(), holder_addresses(core, &task.worker_owners));
            found.push(entry);
            proof {
                assert(holder_views(found@) =~= holder_views(before).push(
                    (entry.0@, key_views(entry.1@)),
                ));
            }
        }
        i += 1;
    }
    proof {
        assert(deps@.take(i as int) =~= deps@);
    }
    found
}

fn keys_for(core: &Core, ids: &Vec<TaskId>) -> (found: Vec<String>)
    ensures
        key_views(found@) == keys_of(core.tasks_view(), ids@),
{
    let ghost tasks = core.tasks_view();
    let mut found: Vec<String> = Vec::new();
    let mut i: usize = 0;
    proof {
        assert(key_views(found@) =~= Seq::<Seq<char>>::empty());
    }
    while i < ids.len()
        invariant
            i <= ids.len(),
            tasks == core.tasks_view(),
            key_views(found@) == keys_of(tasks, ids@.take(i as int)),
        decreases ids.len() - i,
    {
        let ghost before = found@;
        proof {
            assert(ids@.take(i + 1).drop_last() =~= ids@.take(i as int));
        }
        let id: TaskId = ids[i];
        if id < core.tasks.len() as u64 {
            let key = core.tasks[id as usize].key.clone();
            proof {
                assert(tasks[id as int] == core.tasks@[id as int]@);
            }
            found.push(key);
            proof {
                assert(key_views(found@) =~= key_views(before).push(key@));
            }
        }
        i += 1;
    }
    proof {
        assert(ids@.take(i as int) =~= ids@);
    }
    found
}

impl Draft {
    fn add_compute(&mut self, core: &Core, id: TaskId)
        ensures
            final(self)@ == with_compute(
                old(self)@,
                core.tasks_view(),
                core.workers_view(),
                id,
            ),
    {
        let ghost tasks = core.tasks_view();
        let ghost start = self@;
        match core.get_task(id) {
            Some(task) => {
                let mut own: Frames = Vec::new();
                proof {
                    assert(frames_view(own@) =~= Seq::<Seq<u8>>::empty());
                }
                let spec = task_spec_to_transport(&task.spec, &mut own);
                let message = ToWorkerMessage::ComputeTask(
                    ComputeTaskMsg {
                        key: task.key.clone(),
                        user_priority: task.user_priority,
                        scheduler_priority: task.scheduler_priority,
                        who_has: holders_of(core, &task.dependencies),
                        spec,
                        actors: task.actors,
                    },
                );
                let position: u64 = self.messages.len() as u64;
                let ghost frames = frames_view(own@);
                let ghost marks = Seq::new(frames.len(), |k: int| position);
                let count: usize = own.len();
                let mut k: usize = 0;
                while k < count
                    invariant
                        k <= count,
                        count == own@.len(),
                        own@.len() == frames.len(),
                        marks == Seq::new(frames.len(), |k: int| position),
                        self.descriptor@ == start.descriptor + marks.take(k as int),
                        self.messages == old(self).messages,
                        self.frames == old(self).frames,
                    decreases count - k,
                {
                    self.descriptor.push(position);
                    proof {
                        assert(marks.take(k + 1) =~= marks.take(k as int).push(position));
                        assert(self.descriptor@ =~= start.descriptor + marks.take(k + 1));
                    }
                    k += 1;
                }
                proof {
                    assert(marks.take(k as int) =~= marks);
                }
                self.frames.append(&mut own);
                let ghost before = self.messages@;
                self.messages.push(message);
                proof {
                    assert(frames_view(self.frames@) =~= start.frames + frames);
                    assert(self.messages@.map_values(|m: ToWorkerMessage| m@) =~= before.map_values(
                        |m: ToWorkerMessage| m@,
                    ).push(message@));
                    assert(message@ == compute_message(tasks, core.workers_view(), id));
                }
            },
            None => {},
        }
    }

    fn add_steal(&mut self, core: &Core, id: TaskId)
        ensures
            final(self)@ == with_steal(old(self)@, core.tasks_view(), id),
    {
        let ghost tasks = core.tasks_view();
        if id < core.tasks.len() as u64 {
            let ghost before = self.messages@;
            let message = ToWorkerMessage::StealRequest(
                StealRequestMsg { key: core.tasks[id as usize].key.clone() },
            );
            proof {
                assert(tasks[id as int] == core.tasks@[id as int]@);
            }
            self.messages.push(message);
            proof {
                assert(self.messages@.map_values(|m: ToWorkerMessage| m@) =~= before.map_values(
                    |m: ToWorkerMessage| m@,
                ).push(message@));
            }
        }
    }
}

/// Puts what a worker is owed into messages: first one for each task
/// that it is to run, then one that names the results that it may drop,
/// if there are any, then one for each task that it is asked to give back.
pub fn worker_draft(core: &Core, update: &WorkerUpdate) -> (draft: Draft)
    ensures
        draft@ == draft_of(
            core.tasks_view(),
            core.workers_view(),
            update.compute_tasks@,
            update.delete_keys@,
            update.steal_tasks@,
        ),
{
    let ghost tasks = core.tasks_view();
    let ghost workers = core.workers_view();
    let mut draft = Draft { messages: Vec::new(), descriptor: Vec::new(), frames: Vec::new() };
    let ghost start = draft@;
    proof {
        assert(start == DraftModel {
            messages: Seq::empty(),
            descriptor: Seq::empty(),
            frames: Seq::empty(),
        }) by {
            assert(start.messages =~= Seq::<ToWorkerModel>::empty());
            assert(start.descriptor =~= Seq::<u64>::empty());
            assert(start.frames =~= Seq::<Seq<u8>>::empty());
        }
    }
    let mut i: usize = 0;
    while i < update.compute_tasks.len()
        invariant
            i <= update.compute_tasks.len(),
            tasks == core.tasks_view(),
            workers == core.workers_view(),
            draft@ == with_computes(start, tasks, workers, update.compute_tasks@.take(i as int)),
        decreases update.compute_tasks.len() - i,
    {
        proof {
            assert(update.compute_tasks@.take(i + 1).drop_last() =~= update.compute_tasks@.take(
                i as int,
            ));
        }
        draft.add_compute(core, update.compute_tasks[i]);
        i += 1;
    }
    proof {
        assert(update.compute_tasks@.take(i as int) =~= update.compute_tasks@);
    }
    let keys = keys_for(core, &update.delete_keys);
    if keys.len() > 0 {
        let ghost before = draft.messages@;
        let message = ToWorkerMessage::DeleteData(DeleteDataMsg { keys, report: false });
        draft.messages.push(message);
        proof {
            assert(draft.messages@.map_values(|m: ToWorkerMessage| m@) =~= before.map_values(
                |m: ToWorkerMessage| m@,
            ).push(message@));
        }
    }
    let ghost cleared = draft@;
    let mut j: usize = 0;
    while j < update.steal_tasks.len()
        invariant
            j <= update.steal_tasks.len(),
            tasks == core.tasks_view(),
            draft@ == with_steals(cleared, tasks, update.steal_tasks@.take(j as int)),
        decreases update.steal_tasks.len() - j,
    {
        let ghost before = draft@;
        proof {
            assert(update.steal_tasks@.take(j + 1).drop_last() =~= update.steal_tasks@.take(
                j as int,
            ));
        }
        draft.add_steal(core, update.steal_tasks[j]);
        j += 1;
    }
    proof {
        assert(update.steal_tasks@.take(j as int) =~= update.steal_tasks@);
    }
    draft
}

/// The packet that one worker is sent. Where messages come with frames,
/// the first frame is the descriptor that says to which message each of
/// the others belongs.
pub struct WorkerPacket {
    pub worker: WorkerId,
    pub messages: Vec<ToWorkerMessage>,
    pub frames: Frames,
}

/// Mathematical content of a [`WorkerPacket`].
pub struct WorkerPacketModel {
    pub worker: WorkerId,
    pub messages: Seq<ToWorkerModel>,
    pub frames: Seq<Seq<u8>>,
}

impl View for WorkerPacket {
    type V = WorkerPacketModel;

    open spec fn view(&self) -> WorkerPacketModel {
        WorkerPacketModel {
            worker: self.worker,
            messages: self.messages@.map_values(|m: ToWorkerMessage| m@),
            frames: frames_view(self.frames@),
        }
    }
}

/// The packet that a draft makes for `worker`, unless its descriptor
/// cannot be written.
pub open spec fn sealed(draft: DraftModel, worker: WorkerId) -> Result<
    WorkerPacketModel,
    ProtocolViolation,
> {
    match heading(draft.descriptor) {
        Ok(head) => Ok(
            WorkerPacketModel { worker, messages: draft.messages, frames: head + draft.frames },
        ),
        Err(v) => Err(v),
    }
}

/// Makes the packet for `worker` of a draft.
pub fn seal(draft: Draft, worker: WorkerId) -> (packet: Result<WorkerPacket, ProtocolViolation>)
    ensures
        match packet {
            Ok(p) => sealed(draft@, worker) == Ok::<WorkerPacketModel, ProtocolViolation>(p@),
            Err(v) => sealed(draft@, worker) == Err::<WorkerPacketModel, ProtocolViolation>(v),
        },
{
    let mut frames = match write_descriptor(&draft.descriptor) {
        Ok(head) => head,
        Err(v) => { return Err(v); },
    };
    let ghost head = frames_view(frames@);
    let mut rest = draft.frames;
    frames.append(&mut rest);
    proof {
        assert(frames_view(frames@) =~= head + frames_view(draft.frames@));
    }
    Ok(WorkerPacket { worker, messages: draft.messages, frames })
}

/// The workers that are owed a message: those recorded with a task to
/// run, then with a result to drop, then with a task to give back.
pub open spec fn owed_workers(
    computes: Seq<(WorkerId, TaskId)>,
    deletes: Seq<(WorkerId, TaskId)>,
    steals: Seq<(WorkerId, TaskId)>,
) -> Seq<WorkerId> {
    recipients(steals, recipients(deletes, recipients(computes, Seq::empty())))
}

/// The packets that the given workers are sent, in the order of the
/// workers: one for each that is owed a message. There are none if the
/// descriptor of one of them cannot be written.
pub open spec fn worker_packets(
    tasks: Seq<TaskModel>,
    connections: Seq<Option<Worker>>,
    computes: Seq<(WorkerId, TaskId)>,
    deletes: Seq<(WorkerId, TaskId)>,
    steals: Seq<(WorkerId, TaskId)>,
    workers: Seq<WorkerId>,
) -> Result<Seq<WorkerPacketModel>, ProtocolViolation>
    decreases workers.len(),
{
    if workers.len() == 0 {
        Ok(Seq::empty())
    } else {
        match worker_packets(tasks, connections, computes, deletes, steals, workers.drop_last()) {
            Err(v) => Err(v),
            Ok(before) => {
                let draft = draft_of(
                    tasks,
                    connections,
                    addressed_to(computes, workers.last()),
                    addressed_to(deletes, workers.last()),
                    addressed_to(steals, workers.last()),
                );
                if draft.messages.len() == 0 {
                    Ok(before)
                } else {
                    match sealed(draft, workers.last()) {
                        Ok(packet) => Ok(before.push(packet)),
                        Err(v) => Err(v),
                    }
                }
            },
        }
    }
}

/// The content of each packet.
pub open spec fn worker_packet_views(packets: Seq<WorkerPacket>) -> Seq<WorkerPacketModel> {
    packets.map_values(|p: WorkerPacket| p@)
}

/// The packets that workers are sent at the end of a tick.
#[verifier::loop_isolation(false)]
pub fn notify_workers(core: &Core, notifications: &Notifications) -> (packets: Result<
    Vec<WorkerPacket>,
    ProtocolViolation,
>)
    ensures
        match packets {
            Ok(p) => worker_packets(
                core.tasks_view(),
                core.workers_view(),
                notifications.compute_tasks@,
                notifications.delete_keys@,
                notifications.steal_requests@,
                owed_workers(
                    notifications.compute_tasks@,
                    notifications.delete_keys@,
                    notifications.steal_requests@,
                ),
            ) == Ok::<Seq<WorkerPacketModel>, ProtocolViolation>(worker_packet_views(p@)),
            Err(v) => worker_packets(
                core.tasks_view(),
                core.workers_view(),
                notifications.compute_tasks@,
                notifications.delete_keys@,
                notifications.steal_requests@,
                owed_workers(
                    notifications.compute_tasks@,
                    notifications.delete_keys@,
                    notifications.steal_requests@,
                ),
            ) == Err::<Seq<WorkerPacketModel>, ProtocolViolation>(v),
        },
{
    let workers = notifications.worker_ids();
    let ghost tasks = core.tasks_view();
    let ghost connections = core.workers_view();
    let ghost computes = notifications.compute_tasks@;
    let ghost deletes = notifications.delete_keys@;
    let ghost steals = notifications.steal_requests@;
    let mut packets: Vec<WorkerPacket> = Vec::new();
    let mut i: usize = 0;
    proof {
        assert(worker_packet_views(packets@) =~= Seq::<WorkerPacketModel>::empty());
    }
    while i < workers.len()
        invariant
            i <= workers.len(),
            worker_packets(
                tasks,
                connections,
                computes,
                deletes,
                steals,
                workers@.take(i as int),
            ) == Ok::<Seq<WorkerPacketModel>, ProtocolViolation>(worker_packet_views(packets@)),
        decreases workers.len() - i,
    {
        let ghost before = packets@;
        proof {
            assert(workers@.take(i + 1).drop_last() =~= workers@.take(i as int));
            assert(workers@.take(i + 1).last() == workers@[i as int]);
        }
        let update = notifications.worker_update(workers[i]);
        let draft = worker_draft(core, &update);
        if draft.messages.len() > 0 {
            match seal(draft, workers[i]) {
                Ok(packet) => {
                    packets.push(packet);
                    proof {
                        assert(worker_packet_views(packets@) =~= worker_packet_views(before).push(
                            packet@,
                        ));
                    }
                },
                Err(v) => {
                    proof {
                        lemma_packets_fail(
                            tasks,
                            connections,
                            computes,
                            deletes,
                            steals,
                            workers@,
                            i + 1,
                        );
                    }
                    return Err(v);
                },
            }
        }
        i += 1;
    }
    proof {
        assert(workers@.take(i as int) =~= workers@);
    }
    Ok(packets)
}

/// Where the packet of one worker cannot be made, none is sent.
pub proof fn lemma_packets_fail(
    tasks: Seq<TaskModel>,
    connections: Seq<Option<Worker>>,
    computes: Seq<(WorkerId, TaskId)>,
    deletes: Seq<(WorkerId, TaskId)>,
    steals: Seq<(WorkerId, TaskId)>,
    workers: Seq<WorkerId>,
    k: int,
)
    requires
        0 <= k <= workers.len(),
        worker_packets(tasks, connections, computes, deletes, steals, workers.take(k)) is Err,
    ensures
        worker_packets(tasks, connections, computes, deletes, steals, workers) == worker_packets(
            tasks,
            connections,
            computes,
            deletes,
            steals,
            workers.take(k),
        ),
    decreases workers.len() - k,
{
    if k < workers.len() {
        assert(workers.take(k + 1).drop_last() =~= workers.take(k));
        lemma_packets_fail(tasks, connections, computes, deletes, steals, workers, k + 1);
    } else {
        assert(workers.take(k) =~= workers);
    }
}

/// What goes out at the end of a tick.
pub struct Outbound {
    /// The messages for the scheduling policy; none is sent where there are none.
    pub scheduler: Vec<ToSchedulerMessage>,
    pub workers: Vec<WorkerPacket>,
    pub clients: Vec<ClientPacket>,
}

/// Turns what was recorded during a tick into what is sent at its end:
/// the messages for the policy, one packet for each worker and one for
/// each client that is owed a message.
pub fn notify(core: &Core, notifications: &Notifications) -> (outbound: Result<
    Outbound,
    EngineError,
>)
    ensures
        match worker_packets(
            core.tasks_view(),
            core.workers_view(),
            notifications.compute_tasks@,
            notifications.delete_keys@,
            notifications.steal_requests@,
            owed_workers(
                notifications.compute_tasks@,
                notifications.delete_keys@,
                notifications.steal_requests@,
            ),
        ) {
            Err(v) => outbound == Err::<Outbound, EngineError>(EngineError::ProtocolError(v)),
            Ok(packets) => {
                &&& outbound is Ok
                &&& worker_packet_views(outbound->Ok_0.workers@) == packets
                &&& scheduler_views(outbound->Ok_0.scheduler@) == scheduler_messages_of(
                    core.tasks_view(),
                    core.workers_view(),
                    notifications.scheduler_events@,
                )
                &&& packet_views(outbound->Ok_0.clients@) == client_packets(
                    core.tasks_view(),
                    notifications.error_tasks@,
                    notifications.in_memory_tasks@,
                    rejection_views(notifications.rejections@),
                    recipients(
                        notifications.in_memory_tasks@,
                        recipients(
                            notifications.error_tasks@,
                            refused_clients(rejection_views(notifications.rejections@)),
                        ),
                    ),
                )
            },
        },
{
    let workers = match notify_workers(core, notifications) {
        Ok(packets) => packets,
        Err(v) => { return Err(EngineError::ProtocolError(v)); },
    };
    let scheduler = scheduler_messages(core, &notifications.scheduler_events);
    let clients = notify_clients(core, notifications);
    Ok(Outbound { scheduler, workers, clients })
}

} // verus!
