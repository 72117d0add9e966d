//! The session of a worker: registration, and the reports that it makes.

use vstd::prelude::*;
use crate::collection::{collected, collected_drops, pruned};
use crate::completion::{finished, owner_entries, ready_events, reportable};
use crate::descriptor::{
    descriptor_of, frames_of, group_views, read_descriptor, split_frames_by_index,
    split_violation,
};
use crate::error::{EngineError, ProtocolViolation};
use crate::failure::{failed, failed_order, failure_entries};
use crate::frames::{frames_view, Frames, MemoryModel, SerializedMemory};
use crate::loss::{lost_events_upto, without_worker};
use crate::model::{ErrorModel, TaskModel};
use crate::notifications::{Notifications, SchedulerEvent};
use crate::store::Core;
use crate::task::{ClientId, DataInfo, TaskId, Worker, WorkerId};
use crate::workermsg::{
    worker_message_views, FromWorkerMessage, FromWorkerModel, GetDataMsg, RegisterWorkerMsg,
    Status, ToWorkerMessage,
};

verus! {

/// What the scheduling policy is told of a worker.
#[derive(Clone, Copy, Debug, PartialEq, Eq, Structural)]
pub struct WorkerInfo {
    pub id: WorkerId,
    pub ncpus: u32,
}

/// The text that is left of `text` once `prefix` is taken from its
/// start as often as it stands there.
pub open spec fn without_prefixes(text: Seq<char>, prefix: Seq<char>) -> Seq<char>
    decreases text.len(),
{
    if prefix.len() > 0 && prefix.len() <= text.len() && text.take(prefix.len() as int) == prefix {
        without_prefixes(text.skip(prefix.len() as int), prefix)
    } else {
        text
    }
}

/// Calls `str::trim_start_matches` of std, which removes a prefix from
/// the start of a text as often as it stands there.
#[verifier::external_body]
fn trim_prefixes(text: &str, prefix: &str) -> (rest: String)
    requires
        prefix@.len() > 0,
    ensures
        rest@ == without_prefixes(text@, prefix@),
{
    text.trim_start_matches(prefix).to_string()
}

impl Worker {
    #[inline]
    pub fn id(&self) -> (id: WorkerId)
        ensures
            id == self.id,
    {
        self.id
    }

    pub fn make_sched_info(&self) -> (info: WorkerInfo)
        ensures
            info == (WorkerInfo { id: self.id, ncpus: self.ncpus }),
    {
        WorkerInfo { id: self.id, ncpus: self.ncpus }
    }

    /// The address to connect to in order to reach the worker: its
    /// listen address without the scheme in front.
    pub fn connect_address(&self) -> (address: String)
        ensures
            address@ == without_prefixes(self.listen_address@, "tcp://"@),
    {
        proof {
            reveal_strlit("tcp://");
        }
        trim_prefixes(self.listen_address.as_str(), "tcp://")
    }
}

/// The message that asks a worker for the results with the given keys.
pub fn get_data_request(keys: Vec<String>) -> (message: ToWorkerMessage)
    ensures
        message == ToWorkerMessage::GetData(
            GetDataMsg { keys, who: None, max_connections: false, reply: true },
        ),
{
    ToWorkerMessage::GetData(GetDataMsg { keys, who: None, max_connections: false, reply: true })
}

/// What a worker reports, its payloads in stored form.
pub enum Report {
    Finished { key: String, data: DataInfo },
    Failed { key: String, exception: SerializedMemory, traceback: SerializedMemory },
    KeepAlive,
}

/// Mathematical content of a [`Report`].
pub enum ReportModel {
    Finished { key: Seq<char>, data_type: Seq<u8> },
    Failed { key: Seq<char>, exception: MemoryModel, traceback: MemoryModel },
    KeepAlive,
}

impl View for Report {
    type V = ReportModel;

    open spec fn view(&self) -> ReportModel {
        match *self {
            Report::Finished { key, data } => ReportModel::Finished {
                key: key@,
                data_type: data.data_type@,
            },
            Report::Failed { key, exception, traceback } => ReportModel::Failed {
                key: key@,
                exception: exception@,
                traceback: traceback@,
            },
            Report::KeepAlive => ReportModel::KeepAlive,
        }
    }
}

/// The content of each report.
pub open spec fn report_views(reports: Seq<Report>) -> Seq<ReportModel> {
    reports.map_values(|r: Report| r@)
}

/// What is wrong with a message that came with `frames` frames of its
/// own, if anything: a status that does not fit the report, or a payload
/// that refers to a frame that did not come.
pub open spec fn message_violation(message: FromWorkerModel, frames: nat) -> Option<
    ProtocolViolation,
> {
    match message {
        FromWorkerModel::TaskFinished { status, .. } => if status != Status::Success {
            Some(ProtocolViolation::UnknownStatus)
        } else {
            None
        },
        FromWorkerModel::TaskErred { status, exception, traceback, .. } => if status
            != Status::Failure {
            Some(ProtocolViolation::UnknownStatus)
        } else if !exception.in_range(frames) || !traceback.in_range(frames) {
            Some(ProtocolViolation::FrameOutOfRange)
        } else {
            None
        },
        FromWorkerModel::KeepAlive => None,
    }
}

/// The report that a message makes, given the frames that came with it.
pub open spec fn resolved(message: FromWorkerModel, frames: Seq<Seq<u8>>) -> ReportModel {
    match message {
        FromWorkerModel::TaskFinished { key, data_type, .. } => ReportModel::Finished {
            key,
            data_type,
        },
        FromWorkerModel::TaskErred { key, exception, traceback, .. } => ReportModel::Failed {
            key,
            exception: exception.to_memory(frames),
            traceback: traceback.to_memory(exception.frames_after(frames)),
        },
        FromWorkerModel::KeepAlive => ReportModel::KeepAlive,
    }
}

/// Turns a message of a worker into a report, taking the payloads of a
/// failure from the frames that came with the message.
pub fn resolve_report(message: FromWorkerMessage, frames: Frames) -> (report: Result<
    Report,
    ProtocolViolation,
>)
    ensures
        match report {
            Err(v) => message_violation(message@, frames@.len()) == Some(v),
            Ok(r) => message_violation(message@, frames@.len()) is None && r@ == resolved(
                message@,
                frames_view(frames@),
            ),
        },
{
    match message {
        FromWorkerMessage::TaskFinished(m) => {
            if m.status != Status::Success {
                return Err(ProtocolViolation::UnknownStatus);
            }
            Ok(Report::Finished { key: m.key, data: DataInfo { data_type: m.data_type } })
        },
        FromWorkerMessage::TaskErred(m) => {
            if m.status != Status::Failure {
                return Err(ProtocolViolation::UnknownStatus);
            }
            if !m.exception.in_range(frames.len()) || !m.traceback.in_range(frames.len()) {
                return Err(ProtocolViolation::FrameOutOfRange);
            }
            let mut frames = frames;
            let exception = m.exception.to_memory(&mut frames);
            let traceback = m.traceback.to_memory(&mut frames);
            Ok(Report::Failed { key: m.key, exception, traceback })
        },
        FromWorkerMessage::KeepAlive => Ok(Report::KeepAlive),
    }
}

/// What is wrong with the first of the first `n` messages with which
/// something is wrong, each taken with the frames that the descriptor
/// names for it.
pub open spec fn first_violation(
    messages: Seq<FromWorkerModel>,
    descriptor: Seq<u64>,
    frames: Seq<Seq<u8>>,
    n: int,
) -> Option<ProtocolViolation>
    decreases n,
{
    if n <= 0 {
        None
    } else {
        match first_violation(messages, descriptor, frames, n - 1) {
            Some(v) => Some(v),
            None => message_violation(messages[n - 1], frames_of(descriptor, frames, n - 1).len()),
        }
    }
}

/// Once something is wrong with a message, it stays the first with
/// which something is wrong.
pub proof fn lemma_first_violation_stays(
    messages: Seq<FromWorkerModel>,
    descriptor: Seq<u64>,
    frames: Seq<Seq<u8>>,
    k: int,
    n: int,
)
    requires
        0 <= k <= n,
        first_violation(messages, descriptor, frames, k) is Some,
    ensures
        first_violation(messages, descriptor, frames, n) == first_violation(
            messages,
            descriptor,
            frames,
            k,
        ),
    decreases n - k,
{
    if k < n {
        lemma_first_violation_stays(messages, descriptor, frames, k, n - 1);
    }
}

/// The frames of a batch that follow its descriptor.
pub open spec fn payload_frames(frames: Seq<Seq<u8>>) -> Seq<Seq<u8>> {
    if frames.len() == 0 {
        frames
    } else {
        frames.skip(1)
    }
}

/// What is wrong with a batch of messages and the frames that came with
/// it, if anything: first the descriptor is looked at, then how it fits
/// the frames and the messages, then each message in turn.
pub open spec fn batch_violation(messages: Seq<FromWorkerModel>, frames: Seq<Seq<u8>>) -> Option<
    ProtocolViolation,
> {
    match descriptor_of(frames) {
        Err(v) => Some(v),
        Ok(descriptor) => match split_violation(
            descriptor,
            payload_frames(frames).len(),
            messages.len(),
        ) {
            Some(v) => Some(v),
            None => first_violation(
                messages,
                descriptor,
                payload_frames(frames),
                messages.len() as int,
            ),
        },
    }
}

/// The reports that a batch of messages makes.
pub open spec fn resolved_batch(messages: Seq<FromWorkerModel>, frames: Seq<Seq<u8>>) -> Seq<
    ReportModel,
> {
    Seq::new(
        messages.len(),
        |i: int|
            resolved(messages[i], frames_of(descriptor_of(frames)->Ok_0, payload_frames(frames), i)),
    )
}

/// Turns the messages of one batch into reports. The first frame, if
/// there is any, is the descriptor that says to which message each of
/// the other frames belongs.
#[verifier::loop_isolation(false)]
pub fn resolve_reports(messages: Vec<FromWorkerMessage>, frames: Frames) -> (reports: Result<
    Vec<Report>,
    ProtocolViolation,
>)
    ensures
        match reports {
            Err(v) => batch_violation(worker_message_views(messages@), frames_view(frames@))
                == Some(v),
            Ok(r) => batch_violation(worker_message_views(messages@), frames_view(frames@))
                is None && report_views(r@) == resolved_batch(
                worker_message_views(messages@),
                frames_view(frames@),
            ),
        },
{
    let ghost sent = worker_message_views(messages@);
    let ghost all = frames_view(frames@);
    let descriptor = match read_descriptor(&frames) {
        Ok(d) => d,
        Err(v) => { return Err(v); },
    };
    let mut frames = frames;
    if frames.len() > 0 {
        frames.remove(0);
    }
    let ghost rest = frames_view(frames@);
    proof {
        assert(rest =~= payload_frames(all));
    }
    let count: usize = messages.len();
    let mut groups = match split_frames_by_index(&descriptor, frames, count) {
        Ok(g) => g,
        Err(v) => { return Err(v); },
    };
    let ghost goal = resolved_batch(sent, all);
    let mut messages = messages;
    let mut reports: Vec<Report> = Vec::new();
    let mut i: usize = 0;
    proof {
        assert forall|k: int| 0 <= k < count implies frames_view((#[trigger] groups@[k])@)
            == frames_of(descriptor@, rest, k) by {
            assert(group_views(groups@)[k] == frames_view(groups@[k]@));
        }
    }
    while i < count
        invariant
            i <= count,
            count == sent.len(),
            messages@.len() == count,
            groups@.len() == count,
            goal == resolved_batch(sent, all),
            rest == payload_frames(all),
            descriptor_of(all) == Ok::<Seq<u64>, ProtocolViolation>(descriptor@),
            split_violation(descriptor@, rest.len(), sent.len()) is None,
            forall|k: int| i <= k < count ==> (#[trigger] messages@[k])@ == sent[k],
            forall|k: int|
                i <= k < count ==> frames_view((#[trigger] groups@[k])@) == frames_of(
                    descriptor@,
                    rest,
                    k,
                ),
            first_violation(sent, descriptor@, rest, i as int) is None,
            report_views(reports@) == goal.take(i as int),
        decreases count - i,
    {
        let ghost before = reports@;
        let mut message = FromWorkerMessage::KeepAlive;
        std::mem::swap(&mut messages[i], &mut message);
        let mut group: Frames = Vec::new();
        std::mem::swap(&mut groups[i], &mut group);
        proof {
            assert(message@ == sent[i as int]);
            assert(frames_view(group@) == frames_of(descriptor@, rest, i as int));
        }
        let report = match resolve_report(message, group) {
            Ok(r) => r,
            Err(v) => {
                proof {
                    assert(first_violation(sent, descriptor@, rest, i + 1) == Some(v));
                    lemma_first_violation_stays(sent, descriptor@, rest, i + 1, count as int);
                    assert(descriptor_of(all) == Ok::<Seq<u64>, ProtocolViolation>(descriptor@));
                    assert(split_violation(descriptor@, payload_frames(all).len(), sent.len())
                        is None);
                    assert(first_violation(sent, descriptor@, payload_frames(all), sent.len() as int)
                        == Some(v));
                    assert(batch_violation(sent, all) == Some(v));
                }
                return Err(v);
            },
        };
        reports.push(report);
        proof {
            assert(report_views(reports@) =~= report_views(before).push(report@));
            assert(goal.take(i + 1) =~= goal.take(i as int).push(goal[i as int]));
        }
        i += 1;
    }
    proof {
        assert(goal.take(i as int) =~= goal);
    }
    Ok(reports)
}

/// What reports of workers change: the tasks and keys of the store, and
/// what is owed to clients, workers and the policy.
pub struct TickModel {
    pub tasks: Seq<TaskModel>,
    pub keys: Map<Seq<char>, TaskId>,
    pub in_memory: Seq<(ClientId, TaskId)>,
    pub errors: Seq<(ClientId, TaskId)>,
    pub deletes: Seq<(WorkerId, TaskId)>,
    pub events: Seq<SchedulerEvent>,
}

/// The store and the batch, as far as reports of workers change them.
pub open spec fn tick_of(core: &Core, notifications: &Notifications) -> TickModel {
    TickModel {
        tasks: core.tasks_view(),
        keys: core.keys_view(),
        in_memory: notifications.in_memory_tasks@,
        errors: notifications.error_tasks@,
        deletes: notifications.delete_keys@,
        events: notifications.scheduler_events@,
    }
}

/// The store and the batch once `worker` has made one report. A report
/// that is not taken changes nothing. A task that finished or failed
/// is removed at once where it is collectible, and so are in turn the
/// tasks that only it needed.
pub open spec fn after_report(
    t: TickModel,
    workers: Seq<Option<Worker>>,
    worker: WorkerId,
    report: ReportModel,
) -> TickModel {
    match report {
        ReportModel::KeepAlive => t,
        ReportModel::Finished { key, data_type } => if reportable(
            t.tasks,
            t.keys,
            workers,
            key,
            worker,
        ) {
            let id = t.keys[key];
            let done = finished(t.tasks, id, worker, data_type);
            let left = collected(done, seq![id]);
            TickModel {
                tasks: left,
                keys: pruned(t.keys, left),
                in_memory: t.in_memory + owner_entries(t.tasks[id as int].client_owners, id),
                errors: t.errors,
                deletes: t.deletes + collected_drops(done, seq![id]),
                events: t.events + ready_events(t.tasks, t.tasks[id as int].dependents),
            }
        } else {
            t
        },
        ReportModel::Failed { key, exception, traceback } => if reportable(
            t.tasks,
            t.keys,
            workers,
            key,
            worker,
        ) {
            let id = t.keys[key];
            let info = ErrorModel { exception, traceback, cause: id };
            let order = failed_order(t.tasks, id, info);
            let done = failed(t.tasks, id, info);
            let left = collected(done, order);
            TickModel {
                tasks: left,
                keys: pruned(t.keys, left),
                in_memory: t.in_memory,
                errors: t.errors + failure_entries(done, order),
                deletes: t.deletes + collected_drops(done, order),
                events: t.events,
            }
        } else {
            t
        },
    }
}

/// The store and the batch once `worker` has made the given reports, in their order.
pub open spec fn after_reports(
    t: TickModel,
    workers: Seq<Option<Worker>>,
    worker: WorkerId,
    reports: Seq<ReportModel>,
) -> TickModel
    decreases reports.len(),
{
    if reports.len() == 0 {
        t
    } else {
        after_report(
            after_reports(t, workers, worker, reports.drop_last()),
            workers,
            worker,
            reports.last(),
        )
    }
}

impl Core {
    /// Registers a worker that has connected: it gets the next worker
    /// id, and the policy is told of it.
    pub fn connect_worker(&mut self, msg: RegisterWorkerMsg, notifications: &mut Notifications) -> (id:
        WorkerId)
        requires
            old(self).wf(),
        ensures
            final(self).wf(),
            id == old(self).workers_view().len(),
            final(self).workers_view() == old(self).workers_view().push(
                Some(Worker { id, ncpus: msg.ncpus, listen_address: msg.address }),
            ),
            final(self).tasks_view() == old(self).tasks_view(),
            final(self).keys_view() == old(self).keys_view(),
            final(self).clients_view() == old(self).clients_view(),
            final(notifications).scheduler_events@ == old(notifications).scheduler_events@.push(
                SchedulerEvent::NewWorker(id),
            ),
            final(notifications).error_tasks == old(notifications).error_tasks,
            final(notifications).in_memory_tasks == old(notifications).in_memory_tasks,
            final(notifications).rejections == old(notifications).rejections,
            final(notifications).compute_tasks == old(notifications).compute_tasks,
            final(notifications).delete_keys == old(notifications).delete_keys,
            final(notifications).steal_requests == old(notifications).steal_requests,
    {
        let id = self.new_worker_id();
        self.register_worker(Worker { id, ncpus: msg.ncpus, listen_address: msg.address });
        notifications.scheduler_events.push(SchedulerEvent::NewWorker(id));
        proof {
            assert(self.workers_view() =~= old(self).workers_view().push(
                Some(Worker { id, ncpus: msg.ncpus, listen_address: msg.address }),
            ));
        }
        id
    }

    /// Takes the report of `worker` that a task is finished, and removes
    /// the task at once if it is collectible.
    fn report_finished(
        &mut self,
        worker: WorkerId,
        key: String,
        data: DataInfo,
        notifications: &mut Notifications,
    )
        requires
            old(self).wf(),
        ensures
            final(self).wf(),
            tick_of(final(self), final(notifications)) == after_report(
                tick_of(old(self), old(notifications)),
                old(self).workers_view(),
                worker,
                ReportModel::Finished { key: key@, data_type: data.data_type@ },
            ),
            final(self).workers_view() == old(self).workers_view(),
            final(self).clients_view() == old(self).clients_view(),
            final(notifications).rejections == old(notifications).rejections,
            final(notifications).compute_tasks == old(notifications).compute_tasks,
            final(notifications).steal_requests == old(notifications).steal_requests,
    {
        let ghost tasks = self.tasks_view();
        let ghost keys = self.keys_view();
        let found = self.get_task_id(key.as_str());
        let taken = self.on_task_finished(worker, key.as_str(), data, notifications);
        if taken {
            let id: TaskId = found.unwrap();
            let mut worklist: Vec<TaskId> = Vec::new();
            worklist.push(id);
            proof {
                assert(worklist@ =~= seq![id]);
            }
            self.collect(worklist, notifications);
        } else {
            proof {
                crate::collection::lemma_pruned_all(tasks, keys);
            }
        }
    }

    /// Takes the report of `worker` that a task failed, and removes at
    /// once the tasks that failed and are collectible.
    fn report_failed(
        &mut self,
        worker: WorkerId,
        key: String,
        exception: SerializedMemory,
        traceback: SerializedMemory,
        notifications: &mut Notifications,
    )
        requires
            old(self).wf(),
        ensures
            final(self).wf(),
            tick_of(final(self), final(notifications)) == after_report(
                tick_of(old(self), old(notifications)),
                old(self).workers_view(),
                worker,
                ReportModel::Failed { key: key@, exception: exception@, traceback: traceback@ },
            ),
            final(self).workers_view() == old(self).workers_view(),
            final(self).clients_view() == old(self).clients_view(),
            final(notifications).rejections == old(notifications).rejections,
            final(notifications).compute_tasks == old(notifications).compute_tasks,
            final(notifications).steal_requests == old(notifications).steal_requests,
    {
        let ghost tasks = self.tasks_view();
        let ghost keys = self.keys_view();
        let order = self.on_task_error(worker, key.as_str(), exception, traceback, notifications);
        if order.len() > 0 {
            self.collect(order, notifications);
        } else {
            proof {
                crate::collection::lemma_pruned_all(tasks, keys);
            }
        }
    }

    /// Takes one report of `worker`.
    pub fn on_report(&mut self, worker: WorkerId, report: Report, notifications: &mut Notifications)
        requires
            old(self).wf(),
        ensures
            final(self).wf(),
            tick_of(final(self), final(notifications)) == after_report(
                tick_of(old(self), old(notifications)),
                old(self).workers_view(),
                worker,
                report@,
            ),
            final(self).workers_view() == old(self).workers_view(),
            final(self).clients_view() == old(self).clients_view(),
            final(notifications).rejections == old(notifications).rejections,
            final(notifications).compute_tasks == old(notifications).compute_tasks,
            final(notifications).steal_requests == old(notifications).steal_requests,
    {
        match report {
            Report::KeepAlive => {},
            Report::Finished { key, data } => {
                self.report_finished(worker, key, data, notifications);
            },
            Report::Failed { key, exception, traceback } => {
                self.report_failed(worker, key, exception, traceback, notifications);
            },
        }
    }

    /// Takes the reports of `worker`, in their order.
    pub fn on_reports(
        &mut self,
        worker: WorkerId,
        reports: Vec<Report>,
        notifications: &mut Notifications,
    )
        requires
            old(self).wf(),
        ensures
            final(self).wf(),
            tick_of(final(self), final(notifications)) == after_reports(
                tick_of(old(self), old(notifications)),
                old(self).workers_view(),
                worker,
                report_views(reports@),
            ),
            final(self).workers_view() == old(self).workers_view(),
            final(self).clients_view() == old(self).clients_view(),
            final(notifications).rejections == old(notifications).rejections,
            final(notifications).compute_tasks == old(notifications).compute_tasks,
            final(notifications).steal_requests == old(notifications).steal_requests,
    {
        let ghost start = tick_of(self, notifications);
        let ghost all = report_views(reports@);
        let ghost workers = self.workers_view();
        let count: usize = reports.len();
        let mut reports = reports;
        let mut i: usize = 0;
        while i < count
            invariant
                i <= count,
                count == all.len(),
                reports@.len() == count,
                self.wf(),
                forall|k: int| i <= k < count ==> (#[trigger] reports@[k])@ == all[k],
                tick_of(self, notifications) == after_reports(
                    start,
                    workers,
                    worker,
                    all.take(i as int),
                ),
                self.workers_view() == workers,
                self.clients_view() == old(self).clients_view(),
                notifications.rejections == old(notifications).rejections,
                notifications.compute_tasks == old(notifications).compute_tasks,
                notifications.steal_requests == old(notifications).steal_requests,
            decreases count - i,
        {
            let mut report = Report::KeepAlive;
            std::mem::swap(&mut reports[i], &mut report);
            proof {
                assert(all.take(i + 1).drop_last() =~= all.take(i as int));
                assert(all.take(i + 1).last() == report@);
            }
            self.on_report(worker, report, notifications);
            i += 1;
        }
        proof {
            assert(all.take(i as int) =~= all);
        }
    }

    /// Takes one batch of messages of `worker` with the frames that
    /// came with it. A malformed batch is a protocol error: none of its
    /// reports is taken, and the worker is taken out of the store as
    /// when its connection ends.
    pub fn on_worker_batch(
        &mut self,
        worker: WorkerId,
        messages: Vec<FromWorkerMessage>,
        frames: Frames,
        notifications: &mut Notifications,
    ) -> (result: Result<(), EngineError>)
        requires
            old(self).wf(),
        ensures
            final(self).wf(),
            final(self).clients_view() == old(self).clients_view(),
            final(notifications).rejections == old(notifications).rejections,
            final(notifications).compute_tasks == old(notifications).compute_tasks,
            final(notifications).steal_requests == old(notifications).steal_requests,
            match batch_violation(worker_message_views(messages@), frames_view(frames@)) {
                Some(v) => {
                    &&& result == Err::<(), EngineError>(EngineError::ProtocolError(v))
                    &&& final(self).keys_view() == old(self).keys_view()
                    &&& final(notifications).error_tasks == old(notifications).error_tasks
                    &&& final(notifications).in_memory_tasks == old(notifications).in_memory_tasks
                    &&& final(notifications).delete_keys == old(notifications).delete_keys
                    &&& if old(self).has_worker(worker) {
                        &&& final(self).tasks_view() == without_worker(
                            old(self).tasks_view(),
                            worker,
                        )
                        &&& final(self).workers_view() == old(self).workers_view().update(
                            worker as int,
                            None,
                        )
                        &&& final(notifications).scheduler_events@ == old(
                            notifications,
                        ).scheduler_events@ + lost_events_upto(
                            old(self).tasks_view(),
                            worker,
                            old(self).tasks_view().len(),
                        )
                    } else {
                        &&& final(self).tasks_view() == old(self).tasks_view()
                        &&& final(self).workers_view() == old(self).workers_view()
                        &&& final(notifications).scheduler_events@ == old(
                            notifications,
                        ).scheduler_events@
                    }
                },
                None => {
                    &&& result is Ok
                    &&& final(self).workers_view() == old(self).workers_view()
                    &&& tick_of(final(self), final(notifications)) == after_reports(
                        tick_of(old(self), old(notifications)),
                        old(self).workers_view(),
                        worker,
                        resolved_batch(worker_message_views(messages@), frames_view(frames@)),
                    )
                },
            },
    {
        match resolve_reports(messages, frames) {
            Err(v) => {
                let ghost events = notifications.scheduler_events;
                let done = self.unregister_worker(worker, notifications);
                proof {
                    if !done {
                        assert(notifications.scheduler_events@ =~= events@);
                        assert(notifications.scheduler_events@ == events@);
                    }
                }
                Err(EngineError::ProtocolError(v))
            },
            Ok(reports) => {
                self.on_reports(worker, reports, notifications);
                Ok(())
            },
        }
    }
}

} // verus!
