//! The errors of the coordination engine.

use vstd::prelude::*;

verus! {

/// What was wrong with a message that a peer sent.
#[derive(Clone, Copy, Debug, PartialEq, Eq, Structural)]
pub enum ProtocolViolation {
    /// A direct task specification with no function, no arguments and no
    /// keyword arguments.
    EmptyTaskSpec,
    /// A payload refers to a side-channel frame that the message does not carry.
    FrameOutOfRange,
    /// The first side-channel frame is not a frame descriptor.
    MalformedDescriptor,
    /// The descriptor does not name exactly one message for each side-channel frame.
    DescriptorMismatch,
    /// A worker message names a message of the batch that does not exist.
    MessageIndexOutOfRange,
    /// The status of a worker report does not fit the report.
    UnknownStatus,
}

/// The ways in which handling an inbound message may fail.
#[derive(Clone, Copy, Debug, PartialEq, Eq, Structural)]
pub enum EngineError {
    /// A malformed message; the connection of the peer is torn down.
    ProtocolError(ProtocolViolation),
    /// A submitted task depends on a key that is neither stored nor submitted with it.
    UnknownDependency,
    /// A key occurs twice in one submission.
    DuplicateKey,
    /// The dependencies among the submitted tasks form a cycle.
    CyclicDependency,
    /// The scheduling policy broke its protocol; the coordinator terminates.
    SchedulerError(SchedulerViolation),
    /// The transport to a peer is closed.
    PeerGone,
}

impl EngineError {
    /// The name under which a client is told of the error.
    pub open spec fn spec_text(self) -> Seq<char> {
        match self {
            EngineError::ProtocolError(_) => "protocol-error"@,
            EngineError::UnknownDependency => "unknown-dependency"@,
            EngineError::DuplicateKey => "duplicate-key"@,
            EngineError::CyclicDependency => "cyclic-dependency"@,
            EngineError::SchedulerError(_) => "scheduler-error"@,
            EngineError::PeerGone => "peer-gone"@,
        }
    }

    /// The name under which a client is told of the error.
    pub fn text(&self) -> (text: &'static str)
        ensures
            text@ == self.spec_text(),
    {
        match self {
            EngineError::ProtocolError(_) => "protocol-error",
            EngineError::UnknownDependency => "unknown-dependency",
            EngineError::DuplicateKey => "duplicate-key",
            EngineError::CyclicDependency => "cyclic-dependency",
            EngineError::SchedulerError(_) => "scheduler-error",
            EngineError::PeerGone => "peer-gone",
        }
    }
}

/// How the scheduling policy broke its protocol.
#[derive(Clone, Copy, Debug, PartialEq, Eq, Structural)]
pub enum SchedulerViolation {
    /// The channel was closed before the policy registered.
    ClosedBeforeRegistration,
    /// The first message of the policy was not its registration.
    NotRegistered,
    /// The policy registered a second time.
    DoubleRegistration,
}

impl SchedulerViolation {
    /// The text that describes the violation.
    pub fn message(&self) -> (text: &'static str)
        ensures
            text@ == match *self {
                SchedulerViolation::ClosedBeforeRegistration =>
                    "Scheduler closed connection without registration"@,
                SchedulerViolation::NotRegistered =>
                    "First message of scheduler has to be registration"@,
                SchedulerViolation::DoubleRegistration => "Double registration of scheduler"@,
            },
    {
        match self {
            SchedulerViolation::ClosedBeforeRegistration =>
                "Scheduler closed connection without registration",
            SchedulerViolation::NotRegistered =>
                "First message of scheduler has to be registration",
            SchedulerViolation::DoubleRegistration => "Double registration of scheduler",
        }
    }
}

} // verus!
