//! Side-channel frames, and payloads that are held in them.

use vstd::prelude::*;

verus! {

/// One side-channel frame: raw bytes carried beside a message.
pub type Frame = Vec<u8>;

/// The side-channel frames of one message.
pub type Frames = Vec<Frame>;

/// The bytes of each frame of a frame list.
pub open spec fn frames_view(frames: Seq<Vec<u8>>) -> Seq<Seq<u8>> {
    frames.map_values(|f: Vec<u8>| f@)
}

/// A payload as it travels: inline, or as a reference to a side-channel frame.
pub enum SerializedTransport {
    Indexed { frame_index: u64, header: Vec<u8> },
    Inline(Vec<u8>),
}

/// A payload as it is stored: inline, or together with the bytes of its frame.
pub enum SerializedMemory {
    Indexed { frame: Vec<u8>, header: Vec<u8> },
    Inline(Vec<u8>),
}

/// Mathematical content of a [`SerializedTransport`].
pub enum TransportModel {
    Indexed { frame_index: u64, header: Seq<u8> },
    Inline(Seq<u8>),
}

/// Mathematical content of a [`SerializedMemory`].
pub enum MemoryModel {
    Indexed { frame: Seq<u8>, header: Seq<u8> },
    Inline(Seq<u8>),
}

impl View for SerializedTransport {
    type V = TransportModel;

    open spec fn view(&self) -> TransportModel {
        match *self {
            SerializedTransport::Indexed { frame_index, header } => TransportModel::Indexed {
                frame_index,
                header: header@,
            },
            SerializedTransport::Inline(value) => TransportModel::Inline(value@),
        }
    }
}

impl View for SerializedMemory {
    type V = MemoryModel;

    open spec fn view(&self) -> MemoryModel {
        match *self {
            SerializedMemory::Indexed { frame, header } => MemoryModel::Indexed {
                frame: frame@,
                header: header@,
            },
            SerializedMemory::Inline(value) => MemoryModel::Inline(value@),
        }
    }
}

impl TransportModel {
    /// Whether the frame that the payload refers to is among `count` frames.
    pub open spec fn in_range(self, count: nat) -> bool {
        match self {
            TransportModel::Indexed { frame_index, .. } => frame_index < count,
            TransportModel::Inline(_) => true,
        }
    }

    /// The stored form of the payload, its frame taken from `frames`.
    pub open spec fn to_memory(self, frames: Seq<Seq<u8>>) -> MemoryModel {
        match self {
            TransportModel::Indexed { frame_index, header } => MemoryModel::Indexed {
                frame: frames[frame_index as int],
                header,
            },
            TransportModel::Inline(value) => MemoryModel::Inline(value),
        }
    }

    /// The frames that are left once the payload has taken its own: the
    /// frame it refers to is left empty.
    pub open spec fn frames_after(self, frames: Seq<Seq<u8>>) -> Seq<Seq<u8>> {
        match self {
            TransportModel::Indexed { frame_index, .. } => frames.update(
                frame_index as int,
                Seq::empty(),
            ),
            TransportModel::Inline(_) => frames,
        }
    }
}

impl MemoryModel {
    /// The travelling form of the payload when its frame is appended to `frames`.
    pub open spec fn to_transport(self, frames: Seq<Seq<u8>>) -> TransportModel {
        match self {
            MemoryModel::Indexed { frame, header } => TransportModel::Indexed {
                frame_index: frames.len() as u64,
                header,
            },
            MemoryModel::Inline(value) => TransportModel::Inline(value),
        }
    }

    /// The frames once the payload has appended its own.
    pub open spec fn frames_with(self, frames: Seq<Seq<u8>>) -> Seq<Seq<u8>> {
        match self {
            MemoryModel::Indexed { frame, .. } => frames.push(frame),
            MemoryModel::Inline(_) => frames,
        }
    }
}

/// A copy of `bytes`.
pub fn copy_bytes(bytes: &Vec<u8>) -> (copy: Vec<u8>)
    ensures
        copy@ == bytes@,
{
    let mut copy: Vec<u8> = Vec::with_capacity(bytes.len());
    let mut i: usize = 0;
    while i < bytes.len()
        invariant
            i <= bytes.len(),
            copy@ == bytes@.take(i as int),
        decreases bytes.len() - i,
    {
        copy.push(bytes[i]);
        i += 1;
    }
    copy
}

impl SerializedTransport {
    /// Whether the frame that the payload refers to is among `count` frames.
    pub fn in_range(&self, count: usize) -> (ok: bool)
        ensures
            ok == self@.in_range(count as nat),
    {
        match self {
            SerializedTransport::Indexed { frame_index, .. } => *frame_index < count as u64,
            SerializedTransport::Inline(_) => true,
        }
    }

    /// Turns the payload into its stored form. A referenced frame is moved
    /// out of `frames`, which keeps an empty frame in its place.
    pub fn to_memory(self, frames: &mut Frames) -> (memory: SerializedMemory)
        requires
            self@.in_range(old(frames)@.len()),
        ensures
            memory@ == self@.to_memory(frames_view(old(frames)@)),
            frames_view(final(frames)@) == self@.frames_after(frames_view(old(frames)@)),
            final(frames)@.len() == old(frames)@.len(),
    {
        match self {
            SerializedTransport::Indexed { frame_index, header } => {
                assert(frame_index < frames.len());
                let index: usize = frame_index as usize;
                let mut frame: Vec<u8> = Vec::new();
                std::mem::swap(&mut frames[index], &mut frame);
                proof {
                    assert(frames@.len() == old(frames)@.len());
                    assert(frame@ == frames_view(old(frames)@)[index as int]);
                    assert(frames_view(frames@) =~= frames_view(old(frames)@).update(
                        index as int,
                        Seq::empty(),
                    ));
                }
                SerializedMemory::Indexed { frame, header }
            },
            SerializedTransport::Inline(value) => SerializedMemory::Inline(value),
        }
    }
}

impl SerializedMemory {
    /// A copy of the payload.
    pub fn duplicate(&self) -> (copy: SerializedMemory)
        ensures
            copy@ == self@,
    {
        match self {
            SerializedMemory::Indexed { frame, header } => SerializedMemory::Indexed {
                frame: copy_bytes(frame),
                header: copy_bytes(header),
            },
            SerializedMemory::Inline(value) => SerializedMemory::Inline(copy_bytes(value)),
        }
    }

    /// Copies the payload into its travelling form: the bytes of a frame
    /// are appended to `frames` and referred to by their position.
    pub fn to_transport(&self, frames: &mut Frames) -> (transport: SerializedTransport)
        ensures
            transport@ == self@.to_transport(frames_view(old(frames)@)),
            frames_view(final(frames)@) == self@.frames_with(frames_view(old(frames)@)),
    {
        match self {
            SerializedMemory::Indexed { frame, header } => {
                let frame_index: u64 = frames.len() as u64;
                frames.push(copy_bytes(frame));
                SerializedTransport::Indexed { frame_index, header: copy_bytes(header) }
            },
            SerializedMemory::Inline(value) => SerializedTransport::Inline(copy_bytes(value)),
        }
    }
}

/// A payload that was copied into its travelling form and then read back
/// from the frames it was appended to is the payload itself.
pub proof fn lemma_transport_round_trip(payload: MemoryModel, frames: Seq<Seq<u8>>)
    requires
        frames.len() < u64::MAX,
    ensures
        payload.to_transport(frames).in_range(payload.frames_with(frames).len()),
        payload.to_transport(frames).to_memory(payload.frames_with(frames)) == payload,
{
}

} // verus!
