//! The messages between workers and the coordinator.

use vstd::prelude::*;
use crate::clientmsg::ClientTaskSpec;
use crate::frames::{SerializedTransport, TransportModel};
use crate::task::{key_views, Priority};

verus! {

/// The status that a worker gives with a report.
#[derive(Clone, Copy, Debug, PartialEq, Eq, Structural)]
pub enum Status {
    Success,
    Failure,
    /// A status that the coordinator does not know.
    Unknown,
}

/// What a worker says of itself when it connects.
pub struct RegisterWorkerMsg {
    /// The address at which the worker can be reached.
    pub address: String,
    /// The number of cores that the worker declares.
    pub ncpus: u32,
}

/// A worker reports that a task is finished.
pub struct TaskFinishedMsg {
    pub key: String,
    pub status: Status,
    pub nbytes: u64,
    /// The opaque type tag of the result.
    pub data_type: Vec<u8>,
}

/// A worker reports that a task failed.
pub struct TaskFailedMsg {
    pub key: String,
    pub status: Status,
    pub exception: SerializedTransport,
    pub traceback: SerializedTransport,
}

/// What a worker may send.
pub enum FromWorkerMessage {
    TaskFinished(TaskFinishedMsg),
    TaskErred(TaskFailedMsg),
    KeepAlive,
}

impl FromWorkerMessage {
    /// The tag by which the kind of the message is told on the wire.
    pub open spec fn spec_op(&self) -> Seq<char> {
        match *self {
            FromWorkerMessage::TaskFinished(_) => "task-finished"@,
            FromWorkerMessage::TaskErred(_) => "task-erred"@,
            FromWorkerMessage::KeepAlive => "keep-alive"@,
        }
    }

    /// The tag by which the kind of the message is told on the wire.
    pub fn op(&self) -> (tag: &'static str)
        ensures
            tag@ == self.spec_op(),
    {
        match self {
            FromWorkerMessage::TaskFinished(_) => "task-finished",
            FromWorkerMessage::TaskErred(_) => "task-erred",
            FromWorkerMessage::KeepAlive => "keep-alive",
        }
    }
}

/// Mathematical content of a [`FromWorkerMessage`].
pub enum FromWorkerModel {
    TaskFinished { key: Seq<char>, status: Status, nbytes: u64, data_type: Seq<u8> },
    TaskErred { key: Seq<char>, status: Status, exception: TransportModel, traceback: TransportModel },
    KeepAlive,
}

impl View for FromWorkerMessage {
    type V = FromWorkerModel;

    open spec fn view(&self) -> FromWorkerModel {
        match *self {
            FromWorkerMessage::TaskFinished(m) => FromWorkerModel::TaskFinished {
                key: m.key@,
                status: m.status,
                nbytes: m.nbytes,
                data_type: m.data_type@,
            },
            FromWorkerMessage::TaskErred(m) => FromWorkerModel::TaskErred {
                key: m.key@,
                status: m.status,
                exception: m.exception@,
                traceback: m.traceback@,
            },
            FromWorkerMessage::KeepAlive => FromWorkerModel::KeepAlive,
        }
    }
}

/// The content of each message.
pub open spec fn worker_message_views(messages: Seq<FromWorkerMessage>) -> Seq<FromWorkerModel> {
    messages.map_values(|m: FromWorkerMessage| m@)
}

/// A worker is told to run a task.
pub struct ComputeTaskMsg {
    pub key: String,
    pub user_priority: Priority,
    pub scheduler_priority: Priority,
    /// For the key of each dependency, the addresses of the connected
    /// workers that hold its result.
    pub who_has: Vec<(String, Vec<String>)>,
    /// What to run; a payload that refers to a frame refers to the
    /// frames of this message.
    pub spec: ClientTaskSpec<SerializedTransport>,
    pub actors: Option<bool>,
}

/// A worker is told that it may drop results.
pub struct DeleteDataMsg {
    pub keys: Vec<String>,
    pub report: bool,
}

/// A worker is asked to give a task back.
pub struct StealRequestMsg {
    pub key: String,
}

/// A worker is asked for results that it holds.
pub struct GetDataMsg {
    pub keys: Vec<String>,
    pub who: Option<u64>,
    pub max_connections: bool,
    pub reply: bool,
}

/// What a worker is sent.
pub enum ToWorkerMessage {
    ComputeTask(ComputeTaskMsg),
    DeleteData(DeleteDataMsg),
    StealRequest(StealRequestMsg),
    GetData(GetDataMsg),
}

impl ToWorkerMessage {
    /// The tag by which the kind of the message is told on the wire.
    pub open spec fn spec_op(&self) -> Seq<char> {
        match *self {
            ToWorkerMessage::ComputeTask(_) => "compute-task"@,
            ToWorkerMessage::DeleteData(_) => "delete-data"@,
            ToWorkerMessage::StealRequest(_) => "steal-request"@,
            ToWorkerMessage::GetData(_) => "get-data"@,
        }
    }

    /// The tag by which the kind of the message is told on the wire.
    pub fn op(&self) -> (tag: &'static str)
        ensures
            tag@ == self.spec_op(),
    {
        match self {
            ToWorkerMessage::ComputeTask(_) => "compute-task",
            ToWorkerMessage::DeleteData(_) => "delete-data",
            ToWorkerMessage::StealRequest(_) => "steal-request",
            ToWorkerMessage::GetData(_) => "get-data",
        }
    }
}

/// Mathematical content of a [`ToWorkerMessage`].
pub enum ToWorkerModel {
    ComputeTask {
        key: Seq<char>,
        user_priority: Priority,
        scheduler_priority: Priority,
        who_has: Seq<(Seq<char>, Seq<Seq<char>>)>,
        spec: ClientTaskSpec<TransportModel>,
        actors: Option<bool>,
    },
    DeleteData { keys: Seq<Seq<char>>, report: bool },
    StealRequest { key: Seq<char> },
    GetData { keys: Seq<Seq<char>>, who: Option<u64>, max_connections: bool, reply: bool },
}

/// The content of one entry of a list of holders.
pub open spec fn holder_view(entry: (String, Vec<String>)) -> (Seq<char>, Seq<Seq<char>>) {
    (entry.0@, key_views(entry.1@))
}

/// The content of a list of holders.
pub open spec fn holder_views(entries: Seq<(String, Vec<String>)>) -> Seq<
    (Seq<char>, Seq<Seq<char>>),
> {
    entries.map_values(|e: (String, Vec<String>)| holder_view(e))
}

impl View for ToWorkerMessage {
    type V = ToWorkerModel;

    open spec fn view(&self) -> ToWorkerModel {
        match *self {
            ToWorkerMessage::ComputeTask(m) => ToWorkerModel::ComputeTask {
                key: m.key@,
                user_priority: m.user_priority,
                scheduler_priority: m.scheduler_priority,
                who_has: holder_views(m.who_has@),
                spec: m.spec@,
                actors: m.actors,
            },
            ToWorkerMessage::DeleteData(m) => ToWorkerModel::DeleteData {
                keys: key_views(m.keys@),
                report: m.report,
            },
            ToWorkerMessage::StealRequest(m) => ToWorkerModel::StealRequest { key: m.key@ },
            ToWorkerMessage::GetData(m) => ToWorkerModel::GetData {
                keys: key_views(m.keys@),
                who: m.who,
                max_connections: m.max_connections,
                reply: m.reply,
            },
        }
    }
}

} // verus!
