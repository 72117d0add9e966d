//! The descriptor that heads the side-channel frames of a batch of worker
//! messages, and how frames are handed to the messages they belong to.

use vstd::prelude::*;
use crate::error::ProtocolViolation;
use crate::frames::{frames_view, Frames};

verus! {

/// The error of `rmp_serde` when it reads; nothing is known of what it holds.
#[verifier::external_type_specification]
#[verifier::external_body]
pub struct ExDecodeError(rmp_serde::decode::Error);

/// The error of `rmp_serde` when it writes; nothing is known of what it holds.
#[verifier::external_type_specification]
#[verifier::external_body]
pub struct ExEncodeError(rmp_serde::encode::Error);

/// The list of numbers that `rmp_serde::from_slice` reads from the given
/// bytes; none where it reports an error.
pub uninterp spec fn descriptor_decoding(bytes: Seq<u8>) -> Option<Seq<u64>>;

/// The bytes that `rmp_serde::to_vec` writes for the given list of
/// numbers; none where it reports an error.
pub uninterp spec fn descriptor_encoding(indices: Seq<u64>) -> Option<Seq<u8>>;

/// Calls `rmp_serde::from_slice` to read a list of unsigned numbers from
/// MessagePack bytes. Nothing is proved of the outside decoder: its
/// result is only given a name, [`descriptor_decoding`].
#[verifier::external_body]
fn decode_descriptor(bytes: &Vec<u8>) -> (decoded: Result<Vec<u64>, rmp_serde::decode::Error>)
    ensures
        match decoded {
            Ok(indices) => descriptor_decoding(bytes@) == Some(indices@),
            Err(_) => descriptor_decoding(bytes@) is None,
        },
{
    rmp_serde::from_slice::<Vec<u64>>(bytes.as_slice())
}

/// Calls `rmp_serde::to_vec` to write a list of unsigned numbers as
/// MessagePack bytes. Nothing is proved of the outside encoder: its
/// result is only given a name, [`descriptor_encoding`].
#[verifier::external_body]
fn encode_descriptor(indices: &Vec<u64>) -> (encoded: Result<Vec<u8>, rmp_serde::encode::Error>)
    ensures
        match encoded {
            Ok(bytes) => descriptor_encoding(indices@) == Some(bytes@),
            Err(_) => descriptor_encoding(indices@) is None,
        },
{
    rmp_serde::to_vec(indices)
}

/// The descriptor that heads the given frames: for each frame after the
/// first, the position in the batch of the message that the frame
/// belongs to. Without frames there is no descriptor, and none is needed.
pub open spec fn descriptor_of(frames: Seq<Seq<u8>>) -> Result<Seq<u64>, ProtocolViolation> {
    if frames.len() == 0 {
        Ok(Seq::empty())
    } else {
        match descriptor_decoding(frames[0]) {
            Some(indices) => Ok(indices),
            None => Err(ProtocolViolation::MalformedDescriptor),
        }
    }
}

/// Reads the descriptor that heads the frames of a batch.
pub fn read_descriptor(frames: &Frames) -> (descriptor: Result<Vec<u64>, ProtocolViolation>)
    ensures
        match descriptor {
            Ok(indices) => descriptor_of(frames_view(frames@)) == Ok::<
                Seq<u64>,
                ProtocolViolation,
            >(indices@),
            Err(v) => descriptor_of(frames_view(frames@)) == Err::<Seq<u64>, ProtocolViolation>(v),
        },
{
    if frames.len() == 0 {
        return Ok(Vec::new());
    }
    proof {
        assert(frames_view(frames@)[0] == frames@[0]@);
    }
    match decode_descriptor(&frames[0]) {
        Ok(indices) => Ok(indices),
        Err(_) => Err(ProtocolViolation::MalformedDescriptor),
    }
}

/// The frame that describes the given frames, where there are any: the
/// frames of a batch that is sent are headed by it.
pub open spec fn heading(indices: Seq<u64>) -> Result<Seq<Seq<u8>>, ProtocolViolation> {
    if indices.len() == 0 {
        Ok(Seq::empty())
    } else {
        match descriptor_encoding(indices) {
            Some(bytes) => Ok(seq![bytes]),
            None => Err(ProtocolViolation::MalformedDescriptor),
        }
    }
}

/// Writes the descriptor of the frames of a batch: no frame where the
/// batch has none, else one frame.
pub fn write_descriptor(indices: &Vec<u64>) -> (head: Result<Frames, ProtocolViolation>)
    ensures
        match head {
            Ok(frames) => heading(indices@) == Ok::<Seq<Seq<u8>>, ProtocolViolation>(
                frames_view(frames@),
            ),
            Err(v) => heading(indices@) == Err::<Seq<Seq<u8>>, ProtocolViolation>(v),
        },
{
    let mut frames: Frames = Vec::new();
    if indices.len() == 0 {
        proof {
            assert(frames_view(frames@) =~= Seq::<Seq<u8>>::empty());
        }
        return Ok(frames);
    }
    match encode_descriptor(indices) {
        Ok(bytes) => {
            frames.push(bytes);
            proof {
                assert(frames_view(frames@) =~= seq![bytes@]);
            }
            Ok(frames)
        },
        Err(_) => Err(ProtocolViolation::MalformedDescriptor),
    }
}

/// The frames that belong to message `message`, in their order, where
/// `descriptor` names the message of each frame.
pub open spec fn frames_of(descriptor: Seq<u64>, frames: Seq<Seq<u8>>, message: int) -> Seq<Seq<u8>>
    decreases descriptor.len(),
{
    if descriptor.len() == 0 || frames.len() != descriptor.len() {
        Seq::empty()
    } else if descriptor.last() == message {
        frames_of(descriptor.drop_last(), frames.drop_last(), message).push(frames.last())
    } else {
        frames_of(descriptor.drop_last(), frames.drop_last(), message)
    }
}

/// Whether a descriptor names a message that is not among `count` messages.
pub open spec fn names_stranger(descriptor: Seq<u64>, count: nat) -> bool {
    exists|i: int| 0 <= i < descriptor.len() && #[trigger] descriptor[i] >= count
}

/// What is wrong with a descriptor for the given number of frames and of
/// messages, if anything.
pub open spec fn split_violation(descriptor: Seq<u64>, frames: nat, count: nat) -> Option<
    ProtocolViolation,
> {
    if descriptor.len() != frames {
        Some(ProtocolViolation::DescriptorMismatch)
    } else if names_stranger(descriptor, count) {
        Some(ProtocolViolation::MessageIndexOutOfRange)
    } else {
        None
    }
}

/// The frames of each group.
pub open spec fn group_views(groups: Seq<Frames>) -> Seq<Seq<Seq<u8>>> {
    groups.map_values(|g: Frames| frames_view(g@))
}

/// Hands each frame to the message that the descriptor names for it:
/// the result holds, for each of `count` messages, its frames in their
/// order. The descriptor must name one message for each frame, and only
/// messages of the batch.
pub fn split_frames_by_index(descriptor: &Vec<u64>, frames: Frames, count: usize) -> (groups: Result<
    Vec<Frames>,
    ProtocolViolation,
>)
    ensures
        match groups {
            Err(v) => split_violation(descriptor@, frames@.len(), count as nat) == Some(v),
            Ok(g) => {
                &&& split_violation(descriptor@, frames@.len(), count as nat) is None
                &&& g@.len() == count
                &&& forall|m: int|
                    0 <= m < count ==> (#[trigger] group_views(g@)[m]) == frames_of(
                        descriptor@,
                        frames_view(frames@),
                        m,
                    )
            },
        },
{
    if descriptor.len() != frames.len() {
        return Err(ProtocolViolation::DescriptorMismatch);
    }
    let mut c: usize = 0;
    while c < descriptor.len()
        invariant
            c <= descriptor.len(),
            descriptor@.len() == frames@.len(),
            forall|i: int| 0 <= i < c ==> #[trigger] descriptor@[i] < count,
        decreases descriptor.len() - c,
    {
        if descriptor[c] >= count as u64 {
            proof {
                assert(descriptor@[c as int] >= count);
            }
            return Err(ProtocolViolation::MessageIndexOutOfRange);
        }
        c += 1;
    }
    let ghost all = frames_view(frames@);
    let mut groups: Vec<Frames> = Vec::new();
    let mut g: usize = 0;
    while g < count
        invariant
            g <= count,
            groups@.len() == g,
            forall|m: int| 0 <= m < g ==> (#[trigger] groups@[m])@.len() == 0,
        decreases count - g,
    {
        groups.push(Vec::new());
        g += 1;
    }
    let mut frames = frames;
    let mut i: usize = 0;
    proof {
        assert forall|m: int| 0 <= m < count implies (#[trigger] group_views(groups@)[m])
            == frames_of(descriptor@.take(0), all.take(0), m) by {
            assert(frames_view(groups@[m]@) =~= Seq::<Seq<u8>>::empty());
        }
    }
    while i < descriptor.len()
        invariant
            i <= descriptor.len(),
            descriptor@.len() == frames@.len(),
            all.len() == frames@.len(),
            groups@.len() == count,
            forall|k: int| 0 <= k < descriptor@.len() ==> #[trigger] descriptor@[k] < count,
            forall|k: int| i <= k < frames@.len() ==> (#[trigger] frames@[k])@ == all[k],
            forall|m: int|
                0 <= m < count ==> (#[trigger] group_views(groups@)[m]) == frames_of(
                    descriptor@.take(i as int),
                    all.take(i as int),
                    m,
                ),
        decreases descriptor.len() - i,
    {
        let ghost before = groups@;
        let target: u64 = descriptor[i];
        assert(target < groups.len());
        let mut frame: Vec<u8> = Vec::new();
        std::mem::swap(&mut frames[i], &mut frame);
        groups[target as usize].push(frame);
        proof {
            assert(descriptor@.take(i + 1).drop_last() =~= descriptor@.take(i as int));
            assert(all.take(i + 1).drop_last() =~= all.take(i as int));
            assert(descriptor@.take(i + 1).last() == target);
            assert(all.take(i + 1).last() == frame@);
            assert forall|m: int| 0 <= m < count implies (#[trigger] group_views(groups@)[m])
                == frames_of(descriptor@.take(i + 1), all.take(i + 1), m) by {
                assert(group_views(before)[m] == frames_view(before[m]@));
                if m == target {
                    assert(frames_view(groups@[m]@) =~= frames_view(before[m]@).push(frame@));
                } else {
                    assert(groups@[m] == before[m]);
                }
            }
        }
        i += 1;
    }
    proof {
        assert(descriptor@.take(i as int) =~= descriptor@);
        assert(all.take(i as int) =~= all);
        if names_stranger(descriptor@, count as nat) {
            let k = choose|k: int| 0 <= k < descriptor@.len() && #[trigger] descriptor@[k] >= count;
            assert(descriptor@[k] < count);
        }
    }
    Ok(groups)
}

} // verus!
