//! The session of a client: what each of its messages does.

use vstd::prelude::*;
use crate::clientmsg::FromClientMessage;
use crate::clients::{
    desired, desired_errors, desired_in_memory, orphaned, owned_by, released, released_drops,
    without_client,
};
use crate::collection::{collected_drops, pruned};
use crate::error::EngineError;
use crate::notifications::Notifications;
use crate::store::Core;
use crate::task::{key_views, Client, ClientId, TaskId, WorkerId};
use crate::update::submitted;

verus! {

/// What the session of a client does after a message of the client.
#[derive(Clone, Copy, Debug, PartialEq, Eq, Structural)]
pub enum ClientOutcome {
    /// The session goes on.
    Continue,
    /// The session goes on, and the client is owed an answer to its heartbeat.
    Heartbeat,
    /// The client is gone from the store, and the session ends.
    Closed,
}

/// Whether two stores hold the same.
pub open spec fn same_store(a: &Core, b: &Core) -> bool {
    &&& a.tasks_view() == b.tasks_view()
    &&& a.keys_view() == b.keys_view()
    &&& a.workers_view() == b.workers_view()
    &&& a.clients_view() == b.clients_view()
}

/// What it does to the store `pre` and to the batch `noted` when
/// `client` releases the given keys.
pub open spec fn keys_released(
    pre: &Core,
    noted: &Notifications,
    client: ClientId,
    keys: Seq<Seq<char>>,
    post: &Core,
    sent: &Notifications,
) -> bool {
    &&& post.tasks_view() == released(pre.tasks_view(), pre.keys_view(), client, keys)
    &&& post.keys_view() == pruned(pre.keys_view(), post.tasks_view())
    &&& post.workers_view() == pre.workers_view()
    &&& post.clients_view() == pre.clients_view()
    &&& sent.delete_keys@ == noted.delete_keys@ + released_drops(
        pre.tasks_view(),
        pre.keys_view(),
        client,
        keys,
    )
    &&& sent.error_tasks == noted.error_tasks
    &&& sent.in_memory_tasks == noted.in_memory_tasks
    &&& sent.rejections == noted.rejections
    &&& sent.compute_tasks == noted.compute_tasks
    &&& sent.steal_requests == noted.steal_requests
    &&& sent.scheduler_events == noted.scheduler_events
}

/// What it does to the store `pre` and to the batch `noted` when
/// `client` asks for the given keys.
pub open spec fn keys_desired(
    pre: &Core,
    noted: &Notifications,
    client: ClientId,
    keys: Seq<Seq<char>>,
    post: &Core,
    sent: &Notifications,
) -> bool {
    &&& post.tasks_view() == desired(pre.tasks_view(), pre.keys_view(), client, keys)
    &&& post.keys_view() == pre.keys_view()
    &&& post.workers_view() == pre.workers_view()
    &&& post.clients_view() == pre.clients_view()
    &&& sent.in_memory_tasks@ == noted.in_memory_tasks@ + desired_in_memory(
        pre.tasks_view(),
        pre.keys_view(),
        client,
        keys,
    )
    &&& sent.error_tasks@ == noted.error_tasks@ + desired_errors(
        pre.tasks_view(),
        pre.keys_view(),
        client,
        keys,
    )
    &&& sent.delete_keys == noted.delete_keys
    &&& sent.rejections == noted.rejections
    &&& sent.compute_tasks == noted.compute_tasks
    &&& sent.steal_requests == noted.steal_requests
    &&& sent.scheduler_events == noted.scheduler_events
}

/// What it does to the store `pre` and to the batch `noted` when the
/// connection of `client` ends. Nothing changes if no such client is
/// connected.
pub open spec fn client_gone(
    pre: &Core,
    noted: &Notifications,
    client: ClientId,
    post: &Core,
    sent: &Notifications,
) -> bool {
    &&& post.workers_view() == pre.workers_view()
    &&& post.keys_view() == pruned(pre.keys_view(), post.tasks_view())
    &&& sent.error_tasks == noted.error_tasks
    &&& sent.in_memory_tasks == noted.in_memory_tasks
    &&& sent.rejections == noted.rejections
    &&& sent.compute_tasks == noted.compute_tasks
    &&& sent.steal_requests == noted.steal_requests
    &&& sent.scheduler_events == noted.scheduler_events
    &&& if pre.has_client(client) {
        &&& post.tasks_view() == without_client(pre.tasks_view(), client)
        &&& post.clients_view() == pre.clients_view().update(client as int, None)
        &&& sent.delete_keys@ == noted.delete_keys@ + collected_drops(
            orphaned(pre.tasks_view(), client),
            owned_by(pre.tasks_view(), client),
        )
    } else {
        &&& post.tasks_view() == pre.tasks_view()
        &&& post.clients_view() == pre.clients_view()
        &&& sent.delete_keys@ == noted.delete_keys@
    }
}

impl Core {
    /// Registers a client that has connected: it gets the next client id.
    pub fn connect_client(&mut self, key: String) -> (id: ClientId)
        requires
            old(self).wf(),
        ensures
            final(self).wf(),
            id == old(self).clients_view().len(),
            final(self).clients_view() == old(self).clients_view().push(Some(Client { id, key })),
            final(self).tasks_view() == old(self).tasks_view(),
            final(self).keys_view() == old(self).keys_view(),
            final(self).workers_view() == old(self).workers_view(),
    {
        let id = self.new_client_id();
        self.register_client(Client { id, key });
        proof {
            assert(self.clients_view() =~= old(self).clients_view().push(Some(Client { id, key })));
        }
        id
    }

    /// Takes one message of a client.
    ///
    /// A heartbeat changes nothing. A well-formed submission is taken as
    /// [`Core::update_graph`] says, whether its tasks are added or it is
    /// turned down, and the session goes on. Keys are released and asked
    /// for as [`Core::release_keys`] and [`Core::desire_keys`] say. When
    /// the client closes, or its stream does, it is taken out of the
    /// store. After a malformed submission the client is taken out of
    /// the store as well, and the protocol error is returned.
    pub fn on_client_message(
        &mut self,
        client: ClientId,
        message: FromClientMessage,
        notifications: &mut Notifications,
    ) -> (outcome: Result<ClientOutcome, EngineError>)
        requires
            old(self).wf(),
            message matches FromClientMessage::UpdateGraph(m) ==> old(self).tasks_view().len()
                + m.tasks@.len() <= usize::MAX,
        ensures
            final(self).wf(),
            match message {
                FromClientMessage::HeartbeatClient => {
                    &&& outcome == Ok::<ClientOutcome, EngineError>(ClientOutcome::Heartbeat)
                    &&& same_store(old(self), final(self))
                    &&& *final(notifications) == *old(notifications)
                },
                FromClientMessage::UpdateGraph(m) => match m.violation() {
                    Some(v) => {
                        &&& outcome == Err::<ClientOutcome, EngineError>(
                            EngineError::ProtocolError(v),
                        )
                        &&& client_gone(
                            old(self),
                            old(notifications),
                            client,
                            final(self),
                            final(notifications),
                        )
                    },
                    None => {
                        &&& outcome == Ok::<ClientOutcome, EngineError>(ClientOutcome::Continue)
                        &&& exists|result: Result<Seq<TaskId>, EngineError>| #[trigger]
                            submitted(
                                old(self),
                                old(notifications),
                                client,
                                m,
                                final(self),
                                final(notifications),
                                result,
                            )
                    },
                },
                FromClientMessage::ClientReleasesKeys(m) => {
                    &&& outcome == Ok::<ClientOutcome, EngineError>(ClientOutcome::Continue)
                    &&& keys_released(
                        old(self),
                        old(notifications),
                        client,
                        key_views(m.keys@),
                        final(self),
                        final(notifications),
                    )
                },
                FromClientMessage::ClientDesiresKeys(m) => {
                    &&& outcome == Ok::<ClientOutcome, EngineError>(ClientOutcome::Continue)
                    &&& keys_desired(
                        old(self),
                        old(notifications),
                        client,
                        key_views(m.keys@),
                        final(self),
                        final(notifications),
                    )
                },
                FromClientMessage::CloseClient | FromClientMessage::CloseStream => {
                    &&& outcome == Ok::<ClientOutcome, EngineError>(ClientOutcome::Closed)
                    &&& client_gone(
                        old(self),
                        old(notifications),
                        client,
                        final(self),
                        final(notifications),
                    )
                },
            },
    {
        proof {
            assert(old(notifications).delete_keys@ + Seq::<(WorkerId, TaskId)>::empty()
                =~= old(notifications).delete_keys@);
        }
        match message {
            FromClientMessage::HeartbeatClient => Ok(ClientOutcome::Heartbeat),
            FromClientMessage::UpdateGraph(m) => {
                let ghost sent = m;
                match self.update_graph(client, m, notifications) {
                    Err(EngineError::ProtocolError(v)) => {
                        proof {
                            crate::update::lemma_turned_down_otherwise(old(self), sent);
                        }
                        self.unregister_client(client, notifications);
                        Err(EngineError::ProtocolError(v))
                    },
                    Err(e) => Ok(ClientOutcome::Continue),
                    Ok(order) => Ok(ClientOutcome::Continue),
                }
            },
            FromClientMessage::ClientReleasesKeys(m) => {
                self.release_keys(client, &m.keys, notifications);
                Ok(ClientOutcome::Continue)
            },
            FromClientMessage::ClientDesiresKeys(m) => {
                self.desire_keys(client, &m.keys, notifications);
                Ok(ClientOutcome::Continue)
            },
            FromClientMessage::CloseClient => {
                self.unregister_client(client, notifications);
                Ok(ClientOutcome::Closed)
            },
            FromClientMessage::CloseStream => {
                self.unregister_client(client, notifications);
                Ok(ClientOutcome::Closed)
            },
        }
    }
}

} // verus!
