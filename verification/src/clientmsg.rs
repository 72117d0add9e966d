//! The messages between clients and the coordinator, and the two forms of
//! a task specification.

use vstd::prelude::*;
use vstd::hash_map::StringHashMap;
use crate::frames::{
    frames_view, Frames, MemoryModel, SerializedMemory, SerializedTransport, TransportModel,
};
use crate::task::Priority;

verus! {

/// A task given by its parts; at least one of them is present in a valid
/// specification.
pub struct DirectTaskSpec<T = SerializedMemory> {
    pub function: Option<T>,
    pub args: Option<T>,
    pub kwargs: Option<T>,
}

/// How a client describes a task: by its parts, or as one serialized blob.
pub enum ClientTaskSpec<T = SerializedMemory> {
    Direct(DirectTaskSpec<T>),
    Serialized(T),
}

/// The view of an optional payload.
pub open spec fn option_view<T: View>(value: Option<T>) -> Option<T::V> {
    match value {
        Some(v) => Some(v@),
        None => None,
    }
}

impl<T: View> View for DirectTaskSpec<T> {
    type V = DirectTaskSpec<T::V>;

    open spec fn view(&self) -> DirectTaskSpec<T::V> {
        DirectTaskSpec {
            function: option_view(self.function),
            args: option_view(self.args),
            kwargs: option_view(self.kwargs),
        }
    }
}

impl<T: View> View for ClientTaskSpec<T> {
    type V = ClientTaskSpec<T::V>;

    open spec fn view(&self) -> ClientTaskSpec<T::V> {
        match *self {
            ClientTaskSpec::Direct(direct) => ClientTaskSpec::Direct(direct@),
            ClientTaskSpec::Serialized(value) => ClientTaskSpec::Serialized(value@),
        }
    }
}

impl<T> DirectTaskSpec<T> {
    /// Whether at least one part is present.
    pub open spec fn spec_is_valid(&self) -> bool {
        self.function is Some || self.args is Some || self.kwargs is Some
    }

    /// Whether at least one part is present; a specification without any
    /// part is not accepted from a client.
    #[verifier::when_used_as_spec(spec_is_valid)]
    pub fn is_valid(&self) -> (valid: bool)
        ensures
            valid == self.spec_is_valid(),
    {
        self.function.is_some() || self.args.is_some() || self.kwargs.is_some()
    }
}

/// The stored form of an optional payload.
pub open spec fn option_to_memory(value: Option<TransportModel>, frames: Seq<Seq<u8>>) -> Option<
    MemoryModel,
> {
    match value {
        Some(v) => Some(v.to_memory(frames)),
        None => None,
    }
}

/// The frames that an optional payload leaves.
pub open spec fn option_frames_after(value: Option<TransportModel>, frames: Seq<Seq<u8>>) -> Seq<
    Seq<u8>,
> {
    match value {
        Some(v) => v.frames_after(frames),
        None => frames,
    }
}

/// Whether an optional payload refers to one of `count` frames, if to any.
pub open spec fn option_in_range(value: Option<TransportModel>, count: nat) -> bool {
    match value {
        Some(v) => v.in_range(count),
        None => true,
    }
}

/// Whether every frame that the specification refers to is among `count` frames.
pub open spec fn task_spec_in_range(spec: ClientTaskSpec<TransportModel>, count: nat) -> bool {
    match spec {
        ClientTaskSpec::Serialized(v) => v.in_range(count),
        ClientTaskSpec::Direct(d) => option_in_range(d.function, count) && option_in_range(
            d.args,
            count,
        ) && option_in_range(d.kwargs, count),
    }
}

/// The frames that are left when the specification has taken its own:
/// first the function, then the arguments, then the keyword arguments.
pub open spec fn task_spec_frames_after(
    spec: ClientTaskSpec<TransportModel>,
    frames: Seq<Seq<u8>>,
) -> Seq<Seq<u8>> {
    match spec {
        ClientTaskSpec::Serialized(v) => v.frames_after(frames),
        ClientTaskSpec::Direct(d) => option_frames_after(
            d.kwargs,
            option_frames_after(d.args, option_frames_after(d.function, frames)),
        ),
    }
}

/// The stored form of a specification. Each part takes its frame from what
/// the parts before it left, so a frame that two parts refer to goes to the
/// first of them and the second finds it empty.
pub open spec fn task_spec_memory(
    spec: ClientTaskSpec<TransportModel>,
    frames: Seq<Seq<u8>>,
) -> ClientTaskSpec<MemoryModel> {
    match spec {
        ClientTaskSpec::Serialized(v) => ClientTaskSpec::Serialized(v.to_memory(frames)),
        ClientTaskSpec::Direct(d) => {
            let after_function = option_frames_after(d.function, frames);
            let after_args = option_frames_after(d.args, after_function);
            ClientTaskSpec::Direct(
                DirectTaskSpec {
                    function: option_to_memory(d.function, frames),
                    args: option_to_memory(d.args, after_function),
                    kwargs: option_to_memory(d.kwargs, after_args),
                },
            )
        },
    }
}

fn option_payload_to_memory(value: Option<SerializedTransport>, frames: &mut Frames) -> (memory:
    Option<SerializedMemory>)
    requires
        option_in_range(option_view(value), old(frames)@.len()),
    ensures
        option_view(memory) == option_to_memory(option_view(value), frames_view(old(frames)@)),
        frames_view(final(frames)@) == option_frames_after(
            option_view(value),
            frames_view(old(frames)@),
        ),
        final(frames)@.len() == old(frames)@.len(),
{
    match value {
        Some(v) => Some(v.to_memory(frames)),
        None => None,
    }
}

fn option_payload_in_range(value: &Option<SerializedTransport>, count: usize) -> (ok: bool)
    ensures
        ok == option_in_range(option_view(*value), count as nat),
{
    match value {
        Some(v) => v.in_range(count),
        None => true,
    }
}

/// Whether every frame that the specification refers to is among `count` frames.
pub fn task_spec_frames_in_range(spec: &ClientTaskSpec<SerializedTransport>, count: usize) -> (ok:
    bool)
    ensures
        ok == task_spec_in_range(spec@, count as nat),
{
    match spec {
        ClientTaskSpec::Serialized(v) => v.in_range(count),
        ClientTaskSpec::Direct(d) => option_payload_in_range(&d.function, count)
            && option_payload_in_range(&d.args, count) && option_payload_in_range(
            &d.kwargs,
            count,
        ),
    }
}

/// Turns a specification as it travelled into its stored form, moving the
/// frames it refers to out of `frames`.
pub fn task_spec_to_memory(spec: ClientTaskSpec<SerializedTransport>, frames: &mut Frames) -> (memory:
    ClientTaskSpec<SerializedMemory>)
    requires
        task_spec_in_range(spec@, old(frames)@.len()),
    ensures
        memory@ == task_spec_memory(spec@, frames_view(old(frames)@)),
        frames_view(final(frames)@) == task_spec_frames_after(spec@, frames_view(old(frames)@)),
        final(frames)@.len() == old(frames)@.len(),
{
    match spec {
        ClientTaskSpec::Serialized(v) => ClientTaskSpec::<SerializedMemory>::Serialized(
            v.to_memory(frames),
        ),
        ClientTaskSpec::Direct(DirectTaskSpec { function, args, kwargs }) => {
            let function = option_payload_to_memory(function, frames);
            let args = option_payload_to_memory(args, frames);
            let kwargs = option_payload_to_memory(kwargs, frames);
            ClientTaskSpec::<SerializedMemory>::Direct(DirectTaskSpec { function, args, kwargs })
        },
    }
}

/// The travelling form of an optional payload, its frame appended to `frames`.
pub open spec fn option_to_transport(value: Option<MemoryModel>, frames: Seq<Seq<u8>>) -> Option<
    TransportModel,
> {
    match value {
        Some(v) => Some(v.to_transport(frames)),
        None => None,
    }
}

/// The frames once an optional payload has appended its own.
pub open spec fn option_frames_with(value: Option<MemoryModel>, frames: Seq<Seq<u8>>) -> Seq<
    Seq<u8>,
> {
    match value {
        Some(v) => v.frames_with(frames),
        None => frames,
    }
}

/// The frames once the specification has appended its own: first the
/// function, then the arguments, then the keyword arguments.
pub open spec fn task_spec_frames_with(
    spec: ClientTaskSpec<MemoryModel>,
    frames: Seq<Seq<u8>>,
) -> Seq<Seq<u8>> {
    match spec {
        ClientTaskSpec::Serialized(v) => v.frames_with(frames),
        ClientTaskSpec::Direct(d) => option_frames_with(
            d.kwargs,
            option_frames_with(d.args, option_frames_with(d.function, frames)),
        ),
    }
}

/// The travelling form of a stored specification, which is of the same
/// kind: given by its parts, or as one blob.
pub open spec fn task_spec_transport(
    spec: ClientTaskSpec<MemoryModel>,
    frames: Seq<Seq<u8>>,
) -> ClientTaskSpec<TransportModel> {
    match spec {
        ClientTaskSpec::Serialized(v) => ClientTaskSpec::Serialized(v.to_transport(frames)),
        ClientTaskSpec::Direct(d) => {
            let after_function = option_frames_with(d.function, frames);
            let after_args = option_frames_with(d.args, after_function);
            ClientTaskSpec::Direct(
                DirectTaskSpec {
                    function: option_to_transport(d.function, frames),
                    args: option_to_transport(d.args, after_function),
                    kwargs: option_to_transport(d.kwargs, after_args),
                },
            )
        },
    }
}

fn option_payload_to_transport(value: &Option<SerializedMemory>, frames: &mut Frames) -> (transport:
    Option<SerializedTransport>)
    ensures
        option_view(transport) == option_to_transport(option_view(*value), frames_view(old(frames)@)),
        frames_view(final(frames)@) == option_frames_with(
            option_view(*value),
            frames_view(old(frames)@),
        ),
{
    match value {
        Some(v) => Some(v.to_transport(frames)),
        None => None,
    }
}

/// Copies a stored specification into its travelling form, appending
/// the frames of its payloads to `frames`.
pub fn task_spec_to_transport(spec: &ClientTaskSpec<SerializedMemory>, frames: &mut Frames) -> (transport:
    ClientTaskSpec<SerializedTransport>)
    ensures
        transport@ == task_spec_transport(spec@, frames_view(old(frames)@)),
        frames_view(final(frames)@) == task_spec_frames_with(spec@, frames_view(old(frames)@)),
{
    match spec {
        ClientTaskSpec::Serialized(v) => ClientTaskSpec::<SerializedTransport>::Serialized(
            v.to_transport(frames),
        ),
        ClientTaskSpec::Direct(d) => {
            let function = option_payload_to_transport(&d.function, frames);
            let args = option_payload_to_transport(&d.args, frames);
            let kwargs = option_payload_to_transport(&d.kwargs, frames);
            ClientTaskSpec::<SerializedTransport>::Direct(DirectTaskSpec { function, args, kwargs })
        },
    }
}

/// Frames grow at the end when a payload appends its own.
pub proof fn lemma_frames_with_extends(payload: Option<MemoryModel>, frames: Seq<Seq<u8>>)
    ensures
        frames.len() <= option_frames_with(payload, frames).len() <= frames.len() + 1,
        option_frames_with(payload, frames).take(frames.len() as int) == frames,
{
    assert(option_frames_with(payload, frames).take(frames.len() as int) =~= frames);
}

/// A specification that was copied into its travelling form and read
/// back from the frames it was appended to is the specification itself:
/// of the same kind, with the same parts, and each frame byte for byte.
pub proof fn lemma_task_spec_round_trip(spec: ClientTaskSpec<MemoryModel>, frames: Seq<Seq<u8>>)
    requires
        frames.len() + 3 < u64::MAX,
    ensures
        task_spec_in_range(
            task_spec_transport(spec, frames),
            task_spec_frames_with(spec, frames).len(),
        ),
        task_spec_memory(task_spec_transport(spec, frames), task_spec_frames_with(spec, frames))
            == spec,
{
    match spec {
        ClientTaskSpec::Serialized(v) => {},
        ClientTaskSpec::Direct(d) => {
            let f1 = option_frames_with(d.function, frames);
            let f2 = option_frames_with(d.args, f1);
            let f3 = option_frames_with(d.kwargs, f2);
            lemma_frames_with_extends(d.function, frames);
            lemma_frames_with_extends(d.args, f1);
            lemma_frames_with_extends(d.kwargs, f2);
            let t = task_spec_transport(spec, frames)->Direct_0;
            // Taking a frame leaves the frames behind it in place, and
            // each part refers to a frame behind those of the parts before it.
            let g1 = option_frames_after(t.function, f3);
            let g2 = option_frames_after(t.args, g1);
            match d.function {
                Some(MemoryModel::Indexed { frame, header }) => {
                    assert(f1[frames.len() as int] == frame);
                    assert(f3[frames.len() as int] == f2.take(f1.len() as int)[frames.len() as int]);
                    assert(f2[frames.len() as int] == f1[frames.len() as int]);
                },
                _ => {},
            }
            match d.args {
                Some(MemoryModel::Indexed { frame, header }) => {
                    assert(f2[f1.len() as int] == frame);
                    assert(f3[f1.len() as int] == f2[f1.len() as int]);
                    assert(g1[f1.len() as int] == f3[f1.len() as int]);
                },
                _ => {},
            }
            match d.kwargs {
                Some(MemoryModel::Indexed { frame, header }) => {
                    assert(f3[f2.len() as int] == frame);
                    assert(g1[f2.len() as int] == f3[f2.len() as int]);
                    assert(g2[f2.len() as int] == g1[f2.len() as int]);
                },
                _ => {},
            }
            let back = task_spec_memory(task_spec_transport(spec, frames), f3)->Direct_0;
            assert(back.function == d.function);
            assert(back.args == d.args);
            assert(back.kwargs == d.kwargs);
        },
    }
}

/// A client submits tasks and names the keys whose results it wants.
pub struct UpdateGraphMsg {
    /// The tasks, each with its key, in the order in which they were sent.
    pub tasks: Vec<(String, ClientTaskSpec<SerializedTransport>)>,
    /// For the key of a task, the keys of the tasks that it depends on.
    pub dependencies: StringHashMap<Vec<String>>,
    /// The keys whose results the client wants.
    pub keys: Vec<String>,
    /// For the key of a task, the priority that the client gave it.
    pub priority: StringHashMap<Priority>,
    pub user_priority: Priority,
    pub actors: Option<bool>,
    /// The side-channel frames that came with the message.
    pub frames: Frames,
}

pub struct ClientReleasesKeysMsg {
    pub keys: Vec<String>,
    pub client: String,
}

pub struct ClientDesiresKeysMsg {
    pub keys: Vec<String>,
    pub client: String,
}

/// What a client may send.
pub enum FromClientMessage {
    HeartbeatClient,
    UpdateGraph(UpdateGraphMsg),
    ClientReleasesKeys(ClientReleasesKeysMsg),
    ClientDesiresKeys(ClientDesiresKeysMsg),
    CloseClient,
    CloseStream,
}

impl UpdateGraphMsg {
    /// A submission of the given tasks, none with dependencies or a
    /// priority of its own.
    pub fn new(
        tasks: Vec<(String, ClientTaskSpec<SerializedTransport>)>,
        keys: Vec<String>,
        user_priority: Priority,
        frames: Frames,
    ) -> (msg: UpdateGraphMsg)
        ensures
            msg.tasks == tasks,
            msg.keys == keys,
            msg.user_priority == user_priority,
            msg.frames == frames,
            msg.actors is None,
            msg.dependencies@ == Map::<Seq<char>, Vec<String>>::empty(),
            msg.priority@ == Map::<Seq<char>, Priority>::empty(),
    {
        UpdateGraphMsg {
            tasks,
            dependencies: StringHashMap::new(),
            keys,
            priority: StringHashMap::new(),
            user_priority,
            actors: None,
            frames,
        }
    }

    /// States that the task with the given key depends on the tasks
    /// with the keys `dependencies`.
    pub fn set_dependencies(&mut self, key: String, dependencies: Vec<String>)
        ensures
            final(self).dependencies@ == old(self).dependencies@.insert(key@, dependencies),
            final(self).tasks == old(self).tasks,
            final(self).keys == old(self).keys,
            final(self).priority == old(self).priority,
            final(self).user_priority == old(self).user_priority,
            final(self).actors == old(self).actors,
            final(self).frames == old(self).frames,
    {
        self.dependencies.insert(key, dependencies);
    }

    /// Gives the task with the given key a priority of its own.
    pub fn set_priority(&mut self, key: String, priority: Priority)
        ensures
            final(self).priority@ == old(self).priority@.insert(key@, priority),
            final(self).tasks == old(self).tasks,
            final(self).keys == old(self).keys,
            final(self).dependencies == old(self).dependencies,
            final(self).user_priority == old(self).user_priority,
            final(self).actors == old(self).actors,
            final(self).frames == old(self).frames,
    {
        self.priority.insert(key, priority);
    }
}

impl FromClientMessage {
    /// The tag by which the kind of the message is told on the wire.
    pub open spec fn spec_op(&self) -> Seq<char> {
        match *self {
            FromClientMessage::HeartbeatClient => "heartbeat-client"@,
            FromClientMessage::UpdateGraph(_) => "update-graph"@,
            FromClientMessage::ClientReleasesKeys(_) => "client-releases-keys"@,
            FromClientMessage::ClientDesiresKeys(_) => "client-desires-keys"@,
            FromClientMessage::CloseClient => "close-client"@,
            FromClientMessage::CloseStream => "close-stream"@,
        }
    }

    /// The tag by which the kind of the message is told on the wire.
    pub fn op(&self) -> (tag: &'static str)
        ensures
            tag@ == self.spec_op(),
    {
        match self {
            FromClientMessage::HeartbeatClient => "heartbeat-client",
            FromClientMessage::UpdateGraph(_) => "update-graph",
            FromClientMessage::ClientReleasesKeys(_) => "client-releases-keys",
            FromClientMessage::ClientDesiresKeys(_) => "client-desires-keys",
            FromClientMessage::CloseClient => "close-client",
            FromClientMessage::CloseStream => "close-stream",
        }
    }

    /// Completes a message that was decoded from its main frame: a
    /// submission takes all the side-channel frames that came with it,
    /// and leaves none; any other message leaves the frames alone.
    pub fn deserialize(source: FromClientMessage, frames: &mut Frames) -> (message: FromClientMessage)
        ensures
            match source {
                FromClientMessage::UpdateGraph(data) => {
                    &&& message == FromClientMessage::UpdateGraph(
                        UpdateGraphMsg { frames: *old(frames), ..data },
                    )
                    &&& final(frames)@.len() == 0
                },
                _ => message == source && *final(frames) == *old(frames),
            },
    {
        match source {
            FromClientMessage::HeartbeatClient => FromClientMessage::HeartbeatClient,
            FromClientMessage::UpdateGraph(data) => {
                let mut taken: Frames = Vec::new();
                std::mem::swap(frames, &mut taken);
                FromClientMessage::UpdateGraph(
                    UpdateGraphMsg {
                        tasks: data.tasks,
                        dependencies: data.dependencies,
                        keys: data.keys,
                        actors: data.actors,
                        priority: data.priority,
                        user_priority: data.user_priority,
                        frames: taken,
                    },
                )
            },
            FromClientMessage::ClientReleasesKeys(data) => FromClientMessage::ClientReleasesKeys(
                data,
            ),
            FromClientMessage::ClientDesiresKeys(data) => FromClientMessage::ClientDesiresKeys(data),
            FromClientMessage::CloseClient => FromClientMessage::CloseClient,
            FromClientMessage::CloseStream => FromClientMessage::CloseStream,
        }
    }
}

/// The result of a task that a client asked for is in memory.
pub struct KeyInMemoryMsg {
    pub key: String,
    /// The opaque type tag of the result.
    pub data_type: Vec<u8>,
}

/// A task that a client asked for has failed.
pub struct TaskErredMsg {
    pub key: String,
    pub exception: SerializedTransport,
    pub traceback: SerializedTransport,
}

/// What a client is sent.
pub enum ToClientMessage {
    KeyInMemory(KeyInMemoryMsg),
    TaskErred(TaskErredMsg),
}

impl ToClientMessage {
    /// The tag by which the kind of the message is told on the wire.
    pub open spec fn spec_op(&self) -> Seq<char> {
        match *self {
            ToClientMessage::KeyInMemory(_) => "key-in-memory"@,
            ToClientMessage::TaskErred(_) => "task-erred"@,
        }
    }

    /// The tag by which the kind of the message is told on the wire.
    pub fn op(&self) -> (tag: &'static str)
        ensures
            tag@ == self.spec_op(),
    {
        match self {
            ToClientMessage::KeyInMemory(_) => "key-in-memory",
            ToClientMessage::TaskErred(_) => "task-erred",
        }
    }
}

/// Mathematical content of a [`ToClientMessage`].
pub enum ToClientModel {
    KeyInMemory { key: Seq<char>, data_type: Seq<u8> },
    TaskErred { key: Seq<char>, exception: TransportModel, traceback: TransportModel },
}

impl View for ToClientMessage {
    type V = ToClientModel;

    open spec fn view(&self) -> ToClientModel {
        match *self {
            ToClientMessage::KeyInMemory(m) => ToClientModel::KeyInMemory {
                key: m.key@,
                data_type: m.data_type@,
            },
            ToClientMessage::TaskErred(m) => ToClientModel::TaskErred {
                key: m.key@,
                exception: m.exception@,
                traceback: m.traceback@,
            },
        }
    }
}

} // verus!
