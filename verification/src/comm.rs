//! The packets that clients are sent at the end of a tick.

use vstd::prelude::*;
use vstd::slice::slice_to_vec;
use vstd::utf8::encode_utf8;
use crate::clientmsg::{KeyInMemoryMsg, TaskErredMsg, ToClientMessage, ToClientModel};
use crate::error::EngineError;
use crate::frames::{
    copy_bytes, frames_view, Frames, SerializedMemory, SerializedTransport, TransportModel,
};
use crate::model::{index_wf, TaskModel};
use crate::notifications::{
    client_errors, client_in_memory, recipients, refused_clients, rejection_views, Notifications,
    RejectionModel,
};
use crate::store::Core;
use crate::task::{ClientId, TaskId, TaskRuntimeState};

verus! {

/// Collects the messages of one packet, and the side-channel frames
/// that their payloads refer to.
pub struct MessageBuilder<T> {
    pub messages: Vec<T>,
    pub frames: Frames,
}

/// Mathematical content of a packet: its messages and its frames.
pub struct PacketModel<M> {
    pub messages: Seq<M>,
    pub frames: Seq<Seq<u8>>,
}

impl<T: View> View for MessageBuilder<T> {
    type V = PacketModel<T::V>;

    open spec fn view(&self) -> PacketModel<T::V> {
        PacketModel {
            messages: self.messages@.map_values(|m: T| m@),
            frames: frames_view(self.frames@),
        }
    }
}

impl<T: View> MessageBuilder<T> {
    /// A builder without messages.
    pub fn new() -> (builder: MessageBuilder<T>)
        ensures
            builder@.messages.len() == 0,
            builder@.frames.len() == 0,
    {
        MessageBuilder { messages: Vec::new(), frames: Vec::new() }
    }

    /// A builder without messages, with room for `capacity` of them.
    pub fn with_capacity(capacity: usize) -> (builder: MessageBuilder<T>)
        ensures
            builder@.messages.len() == 0,
            builder@.frames.len() == 0,
    {
        MessageBuilder { messages: Vec::with_capacity(capacity), frames: Vec::new() }
    }

    pub fn is_empty(&self) -> (empty: bool)
        ensures
            empty == (self@.messages.len() == 0),
    {
        self.messages.len() == 0
    }

    pub fn add_message(&mut self, message: T)
        ensures
            final(self)@.messages == old(self)@.messages.push(message@),
            final(self)@.frames == old(self)@.frames,
    {
        let ghost before = self.messages@;
        self.messages.push(message);
        proof {
            assert(self.messages@.map_values(|m: T| m@) =~= before.map_values(|m: T| m@).push(
                message@,
            ));
        }
    }

    /// Copies a stored payload into the packet: the bytes of a frame go
    /// to the frames of the packet, and the returned payload refers to them.
    pub fn copy_serialized(&mut self, payload: &SerializedMemory) -> (transport: SerializedTransport)
        ensures
            transport@ == payload@.to_transport(old(self)@.frames),
            final(self)@.frames == payload@.frames_with(old(self)@.frames),
            final(self)@.messages == old(self)@.messages,
    {
        payload.to_transport(&mut self.frames)
    }
}

/// The bytes by which a client is told why its submission was turned down.
pub open spec fn refusal_bytes(error: EngineError) -> Seq<u8> {
    encode_utf8(error.spec_text())
}

/// A packet with one more message, which tells of a submission that
/// was turned down, if the refusal is meant for `client`.
pub open spec fn with_refusal(
    packet: PacketModel<ToClientModel>,
    refusal: RejectionModel,
    client: ClientId,
) -> PacketModel<ToClientModel> {
    if refusal.client == client {
        PacketModel {
            messages: packet.messages.push(
                ToClientModel::TaskErred {
                    key: refusal.key,
                    exception: TransportModel::Inline(refusal_bytes(refusal.error)),
                    traceback: TransportModel::Inline(Seq::empty()),
                },
            ),
            frames: packet.frames,
        }
    } else {
        packet
    }
}

/// A packet with the refusals that are meant for `client`, in their order.
pub open spec fn with_refusals(
    packet: PacketModel<ToClientModel>,
    refusals: Seq<RejectionModel>,
    client: ClientId,
) -> PacketModel<ToClientModel>
    decreases refusals.len(),
{
    if refusals.len() == 0 {
        packet
    } else {
        with_refusal(with_refusals(packet, refusals.drop_last(), client), refusals.last(), client)
    }
}

/// A packet with one more message, which tells that task `id` failed.
/// Nothing is added if the task is not in error.
pub open spec fn with_error(
    packet: PacketModel<ToClientModel>,
    tasks: Seq<TaskModel>,
    id: TaskId,
) -> PacketModel<ToClientModel> {
    if id < tasks.len() && tasks[id as int].state is Error {
        let info = tasks[id as int].state->Error_0;
        let between = info.exception.frames_with(packet.frames);
        PacketModel {
            messages: packet.messages.push(
                ToClientModel::TaskErred {
                    key: tasks[id as int].key,
                    exception: info.exception.to_transport(packet.frames),
                    traceback: info.traceback.to_transport(between),
                },
            ),
            frames: info.traceback.frames_with(between),
        }
    } else {
        packet
    }
}

/// A packet with a message for each of the given tasks that is in error.
pub open spec fn with_errors(
    packet: PacketModel<ToClientModel>,
    tasks: Seq<TaskModel>,
    ids: Seq<TaskId>,
) -> PacketModel<ToClientModel>
    decreases ids.len(),
{
    if ids.len() == 0 {
        packet
    } else {
        with_error(with_errors(packet, tasks, ids.drop_last()), tasks, ids.last())
    }
}

/// A packet with one more message, which tells that the result of
/// task `id` is in memory. Nothing is added if it is not.
pub open spec fn with_result(
    packet: PacketModel<ToClientModel>,
    tasks: Seq<TaskModel>,
    id: TaskId,
) -> PacketModel<ToClientModel> {
    if id < tasks.len() && tasks[id as int].state is InMemory {
        PacketModel {
            messages: packet.messages.push(
                ToClientModel::KeyInMemory {
                    key: tasks[id as int].key,
                    data_type: tasks[id as int].state->InMemory_0,
                },
            ),
            frames: packet.frames,
        }
    } else {
        packet
    }
}

/// A packet with a message for each of the given tasks that is in memory.
pub open spec fn with_results(
    packet: PacketModel<ToClientModel>,
    tasks: Seq<TaskModel>,
    ids: Seq<TaskId>,
) -> PacketModel<ToClientModel>
    decreases ids.len(),
{
    if ids.len() == 0 {
        packet
    } else {
        with_result(with_results(packet, tasks, ids.drop_last()), tasks, ids.last())
    }
}

/// The packet that `client` is owed at the end of a tick: the refusals
/// of its submissions, then the failures, then the results; no result
/// of a task whose failure was recorded for the client in the same tick.
/// What was recorded is held against the tasks as they are now: a task
/// that is no longer in error, or no longer in memory, is passed over.
pub open spec fn client_packet_model(
    tasks: Seq<TaskModel>,
    errors: Seq<(ClientId, TaskId)>,
    in_memory: Seq<(ClientId, TaskId)>,
    refusals: Seq<RejectionModel>,
    client: ClientId,
) -> PacketModel<ToClientModel> {
    with_results(
        with_errors(
            with_refusals(
                PacketModel { messages: Seq::empty(), frames: Seq::empty() },
                refusals,
                client,
            ),
            tasks,
            client_errors(errors, client),
        ),
        tasks,
        client_in_memory(in_memory, errors, client),
    )
}

/// Whether a message tells of the failure of a stored task that is in error.
pub open spec fn tells_failure(message: ToClientModel, tasks: Seq<TaskModel>) -> bool {
    message matches ToClientModel::TaskErred { key, .. } && exists|id: TaskId|
        id < tasks.len() && (#[trigger] tasks[id as int]).state is Error && tasks[id as int].key
            == key
}

/// Whether a message tells of the result of a stored task that is in memory.
pub open spec fn tells_result(message: ToClientModel, tasks: Seq<TaskModel>) -> bool {
    message matches ToClientModel::KeyInMemory { key, .. } && exists|id: TaskId|
        id < tasks.len() && (#[trigger] tasks[id as int]).state is InMemory && tasks[id as int].key
            == key
}

/// Each message that is added for a failure tells of a stored task that is in error.
pub proof fn lemma_errors_tell_failures(
    packet: PacketModel<ToClientModel>,
    tasks: Seq<TaskModel>,
    ids: Seq<TaskId>,
)
    ensures
        packet.messages.len() <= with_errors(packet, tasks, ids).messages.len(),
        forall|i: int|
            0 <= i < packet.messages.len() ==> with_errors(packet, tasks, ids).messages[i]
                == packet.messages[i],
        forall|i: int|
            packet.messages.len() <= i < with_errors(packet, tasks, ids).messages.len()
                ==> tells_failure(#[trigger] with_errors(packet, tasks, ids).messages[i], tasks),
    decreases ids.len(),
{
    if ids.len() > 0 {
        lemma_errors_tell_failures(packet, tasks, ids.drop_last());
        let id = ids.last();
        if id < tasks.len() && tasks[id as int].state is Error {
            assert(tasks[id as int].state is Error);
        }
    }
}

/// Each message that is added for a result tells of a stored task that is in memory.
pub proof fn lemma_results_tell_results(
    packet: PacketModel<ToClientModel>,
    tasks: Seq<TaskModel>,
    ids: Seq<TaskId>,
)
    ensures
        packet.messages.len() <= with_results(packet, tasks, ids).messages.len(),
        forall|i: int|
            0 <= i < packet.messages.len() ==> with_results(packet, tasks, ids).messages[i]
                == packet.messages[i],
        forall|i: int|
            packet.messages.len() <= i < with_results(packet, tasks, ids).messages.len()
                ==> tells_result(#[trigger] with_results(packet, tasks, ids).messages[i], tasks),
    decreases ids.len(),
{
    if ids.len() > 0 {
        lemma_results_tell_results(packet, tasks, ids.drop_last());
        let id = ids.last();
        if id < tasks.len() && tasks[id as int].state is InMemory {
            assert(tasks[id as int].state is InMemory);
        }
    }
}

/// In the packet that a client is sent about stored tasks, no key is
/// both said to have failed and said to be in memory, whatever was
/// recorded for the client.
pub proof fn lemma_packet_tells_one_outcome(
    tasks: Seq<TaskModel>,
    keys: Map<Seq<char>, TaskId>,
    errors: Seq<(ClientId, TaskId)>,
    in_memory: Seq<(ClientId, TaskId)>,
    client: ClientId,
    i: int,
    j: int,
)
    requires
        index_wf(tasks, keys),
        0 <= i < client_packet_model(tasks, errors, in_memory, Seq::empty(), client).messages.len(),
        0 <= j < client_packet_model(tasks, errors, in_memory, Seq::empty(), client).messages.len(),
    ensures
        ({
            let messages = client_packet_model(
                tasks,
                errors,
                in_memory,
                Seq::empty(),
                client,
            ).messages;
            !(messages[i] matches ToClientModel::TaskErred { key: failed, .. }
                && messages[j] matches ToClientModel::KeyInMemory { key: held, .. } && failed
                == held)
        }),
{
    let start = PacketModel::<ToClientModel> { messages: Seq::empty(), frames: Seq::empty() };
    let failed = with_errors(start, tasks, client_errors(errors, client));
    let all = with_results(failed, tasks, client_in_memory(in_memory, errors, client));
    lemma_errors_tell_failures(start, tasks, client_errors(errors, client));
    lemma_results_tell_results(failed, tasks, client_in_memory(in_memory, errors, client));
    let messages = all.messages;
    if messages[i] is TaskErred && messages[j] is KeyInMemory {
        assert(i < failed.messages.len()) by {
            if i >= failed.messages.len() {
                assert(tells_result(messages[i], tasks));
            }
        }
        assert(j >= failed.messages.len()) by {
            if j < failed.messages.len() {
                assert(tells_failure(failed.messages[j], tasks));
            }
        }
        assert(tells_failure(failed.messages[i], tasks));
        assert(tells_result(messages[j], tasks));
        let key = messages[i]->TaskErred_key;
        if key == messages[j]->KeyInMemory_key {
            let a = choose|id: TaskId|
                id < tasks.len() && (#[trigger] tasks[id as int]).state is Error
                    && tasks[id as int].key == key;
            let b = choose|id: TaskId|
                id < tasks.len() && (#[trigger] tasks[id as int]).state is InMemory
                    && tasks[id as int].key == key;
            assert(keys[tasks[a as int].key] == a);
            assert(keys[tasks[b as int].key] == b);
        }
    }
}

/// The packet that one client is sent.
pub struct ClientPacket {
    pub client: ClientId,
    pub messages: Vec<ToClientMessage>,
    pub frames: Frames,
}

/// Mathematical content of a [`ClientPacket`].
pub struct ClientPacketModel {
    pub client: ClientId,
    pub packet: PacketModel<ToClientModel>,
}

impl View for ClientPacket {
    type V = ClientPacketModel;

    open spec fn view(&self) -> ClientPacketModel {
        ClientPacketModel {
            client: self.client,
            packet: PacketModel {
                messages: self.messages@.map_values(|m: ToClientMessage| m@),
                frames: frames_view(self.frames@),
            },
        }
    }
}

/// The content of each packet.
pub open spec fn packet_views(packets: Seq<ClientPacket>) -> Seq<ClientPacketModel> {
    packets.map_values(|p: ClientPacket| p@)
}

/// The packets that the given clients are sent, in the order of the
/// clients: one for each client that is owed a message.
pub open spec fn client_packets(
    tasks: Seq<TaskModel>,
    errors: Seq<(ClientId, TaskId)>,
    in_memory: Seq<(ClientId, TaskId)>,
    refusals: Seq<RejectionModel>,
    clients: Seq<ClientId>,
) -> Seq<ClientPacketModel>
    decreases clients.len(),
{
    if clients.len() == 0 {
        Seq::empty()
    } else {
        let before = client_packets(tasks, errors, in_memory, refusals, clients.drop_last());
        let packet = client_packet_model(tasks, errors, in_memory, refusals, clients.last());
        if packet.messages.len() > 0 {
            before.push(ClientPacketModel { client: clients.last(), packet })
        } else {
            before
        }
    }
}

/// The messages that tell `client` of the tasks in memory and of the
/// failures that were recorded for it.
pub fn client_packet(core: &Core, notifications: &Notifications, client: ClientId) -> (builder:
    MessageBuilder<ToClientMessage>)
    ensures
        builder@ == client_packet_model(
            core.tasks_view(),
            notifications.error_tasks@,
            notifications.in_memory_tasks@,
            rejection_views(notifications.rejections@),
            client,
        ),
{
    let ghost tasks = core.tasks_view();
    let ghost refusals = rejection_views(notifications.rejections@);
    let owed = notifications.client_notification(client);
    let mut builder: MessageBuilder<ToClientMessage> = MessageBuilder::with_capacity(
        owed.error_tasks.len(),
    );
    let ghost start = builder@;
    proof {
        assert(start == PacketModel::<ToClientModel> {
            messages: Seq::empty(),
            frames: Seq::empty(),
        }) by {
            assert(start.messages =~= Seq::<ToClientModel>::empty());
            assert(start.frames =~= Seq::<Seq<u8>>::empty());
        }
    }
    let mut r: usize = 0;
    while r < notifications.rejections.len()
        invariant
            r <= notifications.rejections.len(),
            refusals == rejection_views(notifications.rejections@),
            builder@ == with_refusals(start, refusals.take(r as int), client),
        decreases notifications.rejections.len() - r,
    {
        proof {
            assert(refusals.take(r + 1).drop_last() =~= refusals.take(r as int));
            assert(refusals.take(r + 1).last() == notifications.rejections@[r as int]@);
        }
        let refusal = &notifications.rejections[r];
        if refusal.client == client {
            let text = refusal.error.text();
            let message = ToClientMessage::TaskErred(
                TaskErredMsg {
                    key: refusal.key.clone(),
                    exception: SerializedTransport::Inline(slice_to_vec(text.as_bytes())),
                    traceback: SerializedTransport::Inline(Vec::new()),
                },
            );
            proof {
                assert(message@ == ToClientModel::TaskErred {
                    key: refusal.key@,
                    exception: TransportModel::Inline(refusal_bytes(refusal.error)),
                    traceback: TransportModel::Inline(Seq::empty()),
                }) by {
                    assert(message->TaskErred_0.traceback@ == TransportModel::Inline(
                        Seq::<u8>::empty(),
                    ));
                }
            }
            builder.add_message(message);
        }
        r += 1;
    }
    proof {
        assert(refusals.take(r as int) =~= refusals);
    }
    let ghost refused = builder@;
    let mut i: usize = 0;
    while i < owed.error_tasks.len()
        invariant
            i <= owed.error_tasks.len(),
            tasks == core.tasks_view(),
            builder@ == with_errors(refused, tasks, owed.error_tasks@.take(i as int)),
        decreases owed.error_tasks.len() - i,
    {
        proof {
            assert(owed.error_tasks@.take(i + 1).drop_last() =~= owed.error_tasks@.take(i as int));
        }
        let id: TaskId = owed.error_tasks[i];
        if id < core.tasks.len() as u64 {
            let task = &core.tasks[id as usize];
            proof {
                assert(tasks[id as int] == task@);
            }
            match &task.state {
                TaskRuntimeState::Error(info) => {
                    let exception = builder.copy_serialized(&info.exception);
                    let traceback = builder.copy_serialized(&info.traceback);
                    builder.add_message(
                        ToClientMessage::TaskErred(
                            TaskErredMsg { key: task.key.clone(), exception, traceback },
                        ),
                    );
                },
                _ => {},
            }
        }
        i += 1;
    }
    proof {
        assert(owed.error_tasks@.take(i as int) =~= owed.error_tasks@);
    }
    let ghost failed = builder@;
    let mut j: usize = 0;
    while j < owed.in_memory_tasks.len()
        invariant
            j <= owed.in_memory_tasks.len(),
            tasks == core.tasks_view(),
            builder@ == with_results(failed, tasks, owed.in_memory_tasks@.take(j as int)),
        decreases owed.in_memory_tasks.len() - j,
    {
        proof {
            assert(owed.in_memory_tasks@.take(j + 1).drop_last() =~= owed.in_memory_tasks@.take(
                j as int,
            ));
        }
        let id: TaskId = owed.in_memory_tasks[j];
        if id < core.tasks.len() as u64 {
            let task = &core.tasks[id as usize];
            proof {
                assert(tasks[id as int] == task@);
            }
            match &task.state {
                TaskRuntimeState::InMemory(info) => {
                    builder.add_message(
                        ToClientMessage::KeyInMemory(
                            KeyInMemoryMsg {
                                key: task.key.clone(),
                                data_type: copy_bytes(&info.data_type),
                            },
                        ),
                    );
                },
                _ => {},
            }
        }
        j += 1;
    }
    proof {
        assert(owed.in_memory_tasks@.take(j as int) =~= owed.in_memory_tasks@);
    }
    builder
}

/// The packets that clients are sent at the end of a tick: one for each
/// client that is owed a message, in the order in which the clients
/// were first recorded.
pub fn notify_clients(core: &Core, notifications: &Notifications) -> (packets: Vec<ClientPacket>)
    ensures
        packet_views(packets@) == client_packets(
            core.tasks_view(),
            notifications.error_tasks@,
            notifications.in_memory_tasks@,
            rejection_views(notifications.rejections@),
            recipients(
                notifications.in_memory_tasks@,
                recipients(
                    notifications.error_tasks@,
                    refused_clients(rejection_views(notifications.rejections@)),
                ),
            ),
        ),
{
    let clients = notifications.client_ids();
    let ghost tasks = core.tasks_view();
    let ghost errors = notifications.error_tasks@;
    let ghost in_memory = notifications.in_memory_tasks@;
    let ghost refusals = rejection_views(notifications.rejections@);
    let mut packets: Vec<ClientPacket> = Vec::new();
    let mut i: usize = 0;
    while i < clients.len()
        invariant
            i <= clients.len(),
            tasks == core.tasks_view(),
            errors == notifications.error_tasks@,
            in_memory == notifications.in_memory_tasks@,
            refusals == rejection_views(notifications.rejections@),
            packet_views(packets@) == client_packets(
                tasks,
                errors,
                in_memory,
                refusals,
                clients@.take(i as int),
            ),
        decreases clients.len() - i,
    {
        proof {
            assert(clients@.take(i + 1).drop_last() =~= clients@.take(i as int));
        }
        let builder = client_packet(core, notifications, clients[i]);
        if !builder.is_empty() {
            let ghost before = packets@;
            let packet = ClientPacket {
                client: clients[i],
                messages: builder.messages,
                frames: builder.frames,
            };
            packets.push(packet);
            proof {
                assert(packet_views(packets@) =~= packet_views(before).push(packet@));
            }
        }
        i += 1;
    }
    proof {
        assert(clients@.take(i as int) =~= clients@);
    }
    packets
}

} // verus!
