//! The conversation with the scheduling policy.

use vstd::prelude::*;
use crate::assignment::{after_assignments, assignment_messages, TaskAssignment};
use crate::error::{EngineError, SchedulerViolation};
use crate::notifications::Notifications;
use crate::store::Core;

verus! {

/// What the scheduling policy says of itself when it registers.
pub struct SchedulerRegistration {
    pub protocol_version: u32,
    pub scheduler_name: String,
    pub scheduler_version: String,
}

/// What the scheduling policy may send.
pub enum FromSchedulerMessage {
    Register(SchedulerRegistration),
    TaskAssignments(Vec<TaskAssignment>),
}

/// How far the conversation with the scheduling policy has come.
#[derive(Clone, Copy, Debug, PartialEq, Eq, Structural)]
pub enum SchedulerPhase {
    /// The policy has not registered yet.
    Unregistered,
    /// The policy has registered; assignments are expected.
    Registered,
    /// The policy has closed the channel after registering.
    Closed,
}

/// The phase that follows when `message` arrives in `phase`, where
/// no message stands for the end of the channel; or the way in which
/// the policy has broken its protocol. The first message must be the
/// registration, and there must be no second one.
pub open spec fn next_phase(phase: SchedulerPhase, message: Option<FromSchedulerMessage>) -> Result<
    SchedulerPhase,
    SchedulerViolation,
> {
    match phase {
        SchedulerPhase::Unregistered => match message {
            Some(FromSchedulerMessage::Register(_)) => Ok(SchedulerPhase::Registered),
            Some(FromSchedulerMessage::TaskAssignments(_)) => Err(SchedulerViolation::NotRegistered),
            None => Err(SchedulerViolation::ClosedBeforeRegistration),
        },
        SchedulerPhase::Registered => match message {
            Some(FromSchedulerMessage::Register(_)) => Err(SchedulerViolation::DoubleRegistration),
            Some(FromSchedulerMessage::TaskAssignments(_)) => Ok(SchedulerPhase::Registered),
            None => Ok(SchedulerPhase::Closed),
        },
        SchedulerPhase::Closed => Ok(SchedulerPhase::Closed),
    }
}

/// The assignments that are carried out when `message` arrives in
/// `phase`: those of a batch of assignments that arrives once the policy
/// has registered, and none otherwise.
pub open spec fn assignments_of(phase: SchedulerPhase, message: Option<FromSchedulerMessage>) -> Seq<
    TaskAssignment,
> {
    match (phase, message) {
        (
            SchedulerPhase::Registered,
            Some(FromSchedulerMessage::TaskAssignments(assignments)),
        ) => assignments@,
        _ => Seq::empty(),
    }
}

impl Core {
    /// Takes one message of the scheduling policy, or the end of its
    /// channel, and says in which phase the conversation is afterwards.
    /// Assignments are carried out in their order. A message that breaks
    /// the protocol is an error that ends the coordinator, and changes
    /// nothing.
    pub fn on_scheduler_message(
        &mut self,
        phase: SchedulerPhase,
        message: Option<FromSchedulerMessage>,
        notifications: &mut Notifications,
    ) -> (next: Result<SchedulerPhase, EngineError>)
        requires
            old(self).wf(),
        ensures
            final(self).wf(),
            next == match next_phase(phase, message) {
                Ok(p) => Ok::<SchedulerPhase, EngineError>(p),
                Err(v) => Err::<SchedulerPhase, EngineError>(EngineError::SchedulerError(v)),
            },
            final(self).tasks_view() == after_assignments(
                old(self).tasks_view(),
                old(self).workers_view(),
                assignments_of(phase, message),
            ),
            final(self).keys_view() == old(self).keys_view(),
            final(self).workers_view() == old(self).workers_view(),
            final(self).clients_view() == old(self).clients_view(),
            final(notifications).compute_tasks@ == old(notifications).compute_tasks@
                + assignment_messages(
                old(self).tasks_view(),
                old(self).workers_view(),
                assignments_of(phase, message),
            ),
            final(notifications).error_tasks == old(notifications).error_tasks,
            final(notifications).in_memory_tasks == old(notifications).in_memory_tasks,
            final(notifications).rejections == old(notifications).rejections,
            final(notifications).delete_keys == old(notifications).delete_keys,
            final(notifications).steal_requests == old(notifications).steal_requests,
            final(notifications).scheduler_events == old(notifications).scheduler_events,
    {
        proof {
            assert(old(notifications).compute_tasks@ + Seq::<(u64, u64)>::empty() =~= old(
                notifications,
            ).compute_tasks@);
        }
        match phase {
            SchedulerPhase::Unregistered => match message {
                Some(FromSchedulerMessage::Register(_)) => Ok(SchedulerPhase::Registered),
                Some(FromSchedulerMessage::TaskAssignments(_)) => Err(
                    EngineError::SchedulerError(SchedulerViolation::NotRegistered),
                ),
                None => Err(
                    EngineError::SchedulerError(SchedulerViolation::ClosedBeforeRegistration),
                ),
            },
            SchedulerPhase::Registered => match message {
                Some(FromSchedulerMessage::Register(_)) => Err(
                    EngineError::SchedulerError(SchedulerViolation::DoubleRegistration),
                ),
                Some(FromSchedulerMessage::TaskAssignments(assignments)) => {
                    self.process_assignments(&assignments, notifications);
                    Ok(SchedulerPhase::Registered)
                },
                None => Ok(SchedulerPhase::Closed),
            },
            SchedulerPhase::Closed => Ok(SchedulerPhase::Closed),
        }
    }
}

} // verus!
