use rsds::assignment::TaskAssignment;
use rsds::clientmsg::{
    task_spec_frames_in_range, task_spec_to_memory, task_spec_to_transport, ClientDesiresKeysMsg,
    ClientReleasesKeysMsg, ClientTaskSpec, DirectTaskSpec, FromClientMessage, ToClientMessage,
    UpdateGraphMsg,
};
use rsds::comm::{client_packet, notify_clients, MessageBuilder};
use rsds::descriptor::{read_descriptor, split_frames_by_index, write_descriptor};
use rsds::error::{EngineError, ProtocolViolation, SchedulerViolation};
use rsds::frames::{copy_bytes, SerializedMemory, SerializedTransport};
use rsds::notifications::{Notifications, Rejection, SchedulerEvent, WorkerUpdate};
use rsds::outbound::{notify, notify_workers, scheduler_messages, seal, worker_draft, ToSchedulerMessage};
use rsds::scheduler::{FromSchedulerMessage, SchedulerPhase, SchedulerRegistration};
use rsds::session::ClientOutcome;
use rsds::store::Core;
use rsds::task::{TaskRuntimeState, Worker};
use rsds::worker::{get_data_request, resolve_report, resolve_reports, Report, WorkerInfo};
use rsds::workermsg::{
    FromWorkerMessage, RegisterWorkerMsg, Status, TaskFailedMsg, TaskFinishedMsg, ToWorkerMessage,
};

fn text(s: &str) -> String {
    s.to_string()
}

fn finished(key: &str, status: Status) -> FromWorkerMessage {
    FromWorkerMessage::TaskFinished(TaskFinishedMsg { key: text(key), status, nbytes: 1, data_type: vec![9] })
}

fn erred(key: &str, status: Status, exception: SerializedTransport) -> FromWorkerMessage {
    FromWorkerMessage::TaskErred(TaskFailedMsg {
        key: text(key),
        status,
        exception,
        traceback: SerializedTransport::Inline(vec![]),
    })
}

fn submission(specs: Vec<(&str, ClientTaskSpec<SerializedTransport>)>, frames: Vec<Vec<u8>>) -> UpdateGraphMsg {
    let keys = specs.iter().map(|(k, _)| text(k)).collect();
    UpdateGraphMsg::new(specs.into_iter().map(|(k, s)| (text(k), s)).collect(), keys, 0, frames)
}

fn indexed(frame_index: u64) -> SerializedTransport {
    SerializedTransport::Indexed { frame_index, header: vec![frame_index as u8] }
}

fn store_with_worker() -> (Core, u64, u64) {
    let mut core = Core::new();
    let client = core.connect_client(text("client"));
    let worker = core.connect_worker(
        RegisterWorkerMsg { address: text("tcp://127.0.0.1:9000"), ncpus: 16 },
        &mut Notifications::new(),
    );
    (core, client, worker)
}

#[test]
fn descriptor_is_read_from_message_pack() {
    assert_eq!(read_descriptor(&vec![]), Ok(vec![]));
    assert_eq!(read_descriptor(&vec![vec![0x93, 0x00, 0x02, 0xcc, 0xff], vec![1]]), Ok(vec![0, 2, 255]));
    assert_eq!(read_descriptor(&vec![vec![0x90]]), Ok(vec![]));
    assert_eq!(read_descriptor(&vec![vec![0xa1, 0x61]]), Err(ProtocolViolation::MalformedDescriptor));
    assert_eq!(read_descriptor(&vec![vec![]]), Err(ProtocolViolation::MalformedDescriptor));
}

#[test]
fn descriptor_is_written_as_message_pack() {
    assert_eq!(write_descriptor(&vec![]), Ok(vec![]));
    assert_eq!(write_descriptor(&vec![0, 0, 1]), Ok(vec![vec![0x93, 0x00, 0x00, 0x01]]));
    assert_eq!(write_descriptor(&vec![300]), Ok(vec![vec![0x91, 0xcd, 0x01, 0x2c]]));
    let written = write_descriptor(&vec![5, 1, 70000]).unwrap();
    assert_eq!(read_descriptor(&written), Ok(vec![5, 1, 70000]));
}

#[test]
fn frames_go_to_the_messages_that_the_descriptor_names() {
    let frames = vec![vec![1], vec![2], vec![3], vec![4]];
    assert_eq!(
        split_frames_by_index(&vec![2, 0, 2, 0], frames.clone(), 3),
        Ok(vec![vec![vec![2], vec![4]], vec![], vec![vec![1], vec![3]]])
    );
    assert_eq!(split_frames_by_index(&vec![0, 0], frames.clone(), 3), Err(ProtocolViolation::DescriptorMismatch));
    assert_eq!(
        split_frames_by_index(&vec![0, 1, 2, 3], frames, 3),
        Err(ProtocolViolation::MessageIndexOutOfRange)
    );
    assert_eq!(split_frames_by_index(&vec![], vec![], 2), Ok(vec![vec![], vec![]]));
}

#[test]
fn worker_messages_become_reports() {
    let report = resolve_report(erred("k", Status::Failure, indexed(1)), vec![vec![1], vec![2, 2]]).unwrap();
    match report {
        Report::Failed { key, exception, traceback } => {
            assert_eq!(key, "k");
            assert!(matches!(exception, SerializedMemory::Indexed { frame, header } if frame == vec![2u8, 2] && header == vec![1u8]));
            assert!(matches!(traceback, SerializedMemory::Inline(v) if v.is_empty()));
        }
        _ => panic!("the failure was not reported"),
    }
    assert!(matches!(resolve_report(FromWorkerMessage::KeepAlive, vec![]), Ok(Report::KeepAlive)));
    assert!(matches!(
        resolve_report(finished("k", Status::Success), vec![]),
        Ok(Report::Finished { key, data }) if key == "k" && data.data_type == vec![9u8]
    ));
}

#[test]
fn malformed_worker_messages_are_protocol_errors() {
    assert!(matches!(resolve_report(finished("k", Status::Failure), vec![]), Err(ProtocolViolation::UnknownStatus)));
    assert!(matches!(resolve_report(finished("k", Status::Unknown), vec![]), Err(ProtocolViolation::UnknownStatus)));
    assert!(matches!(
        resolve_report(erred("k", Status::Success, indexed(0)), vec![]),
        Err(ProtocolViolation::UnknownStatus)
    ));
    assert!(matches!(
        resolve_report(erred("k", Status::Failure, indexed(1)), vec![vec![1]]),
        Err(ProtocolViolation::FrameOutOfRange)
    ));
    let batch = |frames: Vec<Vec<u8>>| {
        resolve_reports(vec![FromWorkerMessage::KeepAlive, erred("k", Status::Failure, indexed(0))], frames)
    };
    assert!(matches!(batch(vec![vec![0xc0], vec![1]]), Err(ProtocolViolation::MalformedDescriptor)));
    assert!(matches!(batch(vec![vec![0x92, 1, 1], vec![1]]), Err(ProtocolViolation::DescriptorMismatch)));
    assert!(matches!(batch(vec![vec![0x91, 2], vec![1]]), Err(ProtocolViolation::MessageIndexOutOfRange)));
    assert!(matches!(batch(vec![vec![0x91, 0], vec![1]]), Err(ProtocolViolation::FrameOutOfRange)));
    assert!(matches!(batch(vec![]), Err(ProtocolViolation::FrameOutOfRange)));
    let reports = batch(vec![vec![0x91, 1], vec![7, 7]]).unwrap();
    assert_eq!(reports.len(), 2);
    assert!(matches!(
        &reports[1],
        Report::Failed { exception: SerializedMemory::Indexed { frame, .. }, .. } if frame == &vec![7u8, 7]
    ));
}

#[test]
fn malformed_worker_batch_tears_the_worker_down() {
    let (mut core, client, worker) = store_with_worker();
    core.update_graph(client, submission(vec![("a", ClientTaskSpec::Serialized(indexed(0)))], vec![vec![5]]), &mut Notifications::new())
        .unwrap();
    assert!(core.assign(TaskAssignment { task: 0, worker, priority: 0 }));
    let mut notes = Notifications::new();
    let result = core.on_worker_batch(
        worker,
        vec![finished("a", Status::Success), finished("a", Status::Unknown)],
        vec![],
        &mut notes,
    );
    assert_eq!(result, Err(EngineError::ProtocolError(ProtocolViolation::UnknownStatus)));
    assert!(core.get_worker(worker).is_none());
    assert!(matches!(core.get_task(0).unwrap().state, TaskRuntimeState::Ready));
    assert_eq!(notes.scheduler_events, vec![SchedulerEvent::TaskReady(0)]);
    assert!(notes.in_memory_tasks.is_empty());
}

#[test]
fn scheduler_must_register_first_and_once() {
    let mut core = Core::new();
    let mut notes = Notifications::new();
    let register = || {
        Some(FromSchedulerMessage::Register(SchedulerRegistration {
            protocol_version: 1,
            scheduler_name: text("policy"),
            scheduler_version: text("0.1"),
        }))
    };
    let assignments = || Some(FromSchedulerMessage::TaskAssignments(vec![]));
    let mut step = |phase, message| core.on_scheduler_message(phase, message, &mut notes);
    assert_eq!(step(SchedulerPhase::Unregistered, register()), Ok(SchedulerPhase::Registered));
    assert_eq!(
        step(SchedulerPhase::Unregistered, None),
        Err(EngineError::SchedulerError(SchedulerViolation::ClosedBeforeRegistration))
    );
    assert_eq!(
        step(SchedulerPhase::Unregistered, assignments()),
        Err(EngineError::SchedulerError(SchedulerViolation::NotRegistered))
    );
    assert_eq!(step(SchedulerPhase::Registered, assignments()), Ok(SchedulerPhase::Registered));
    assert_eq!(
        step(SchedulerPhase::Registered, register()),
        Err(EngineError::SchedulerError(SchedulerViolation::DoubleRegistration))
    );
    assert_eq!(step(SchedulerPhase::Registered, None), Ok(SchedulerPhase::Closed));
    assert_eq!(step(SchedulerPhase::Closed, assignments()), Ok(SchedulerPhase::Closed));
}

#[test]
fn violations_have_their_texts() {
    assert_eq!(
        SchedulerViolation::ClosedBeforeRegistration.message(),
        "Scheduler closed connection without registration"
    );
    assert_eq!(SchedulerViolation::NotRegistered.message(), "First message of scheduler has to be registration");
    assert_eq!(SchedulerViolation::DoubleRegistration.message(), "Double registration of scheduler");
    assert_eq!(EngineError::ProtocolError(ProtocolViolation::EmptyTaskSpec).text(), "protocol-error");
    assert_eq!(EngineError::UnknownDependency.text(), "unknown-dependency");
    assert_eq!(EngineError::DuplicateKey.text(), "duplicate-key");
    assert_eq!(EngineError::CyclicDependency.text(), "cyclic-dependency");
    assert_eq!(EngineError::SchedulerError(SchedulerViolation::NotRegistered).text(), "scheduler-error");
    assert_eq!(EngineError::PeerGone.text(), "peer-gone");
}

#[test]
fn submission_takes_its_frames_in_order() {
    let (mut core, client, _) = store_with_worker();
    let direct = ClientTaskSpec::Direct(DirectTaskSpec {
        function: Some(indexed(2)),
        args: Some(SerializedTransport::Inline(vec![1])),
        kwargs: Some(indexed(0)),
    });
    let mut msg = submission(
        vec![("a", direct), ("b", ClientTaskSpec::Serialized(indexed(2)))],
        vec![vec![10], vec![11], vec![12]],
    );
    msg.set_priority(text("b"), 4);
    msg.actors = Some(true);
    msg.user_priority = -2;
    let order = core.update_graph(client, msg, &mut Notifications::new()).unwrap();
    assert_eq!(order, vec![0, 1]);
    let a = core.get_task(0).unwrap();
    match &a.spec {
        ClientTaskSpec::Direct(d) => {
            assert!(matches!(&d.function, Some(SerializedMemory::Indexed { frame, header }) if frame == &vec![12u8] && header == &vec![2u8]));
            assert!(matches!(&d.args, Some(SerializedMemory::Inline(v)) if v == &vec![1u8]));
            assert!(matches!(&d.kwargs, Some(SerializedMemory::Indexed { frame, .. }) if frame == &vec![10u8]));
        }
        _ => panic!("the kind of the specification changed"),
    }
    assert_eq!((a.client_priority, a.user_priority, a.actors), (0, -2, Some(true)));
    let b = core.get_task(1).unwrap();
    assert!(matches!(&b.spec, ClientTaskSpec::Serialized(SerializedMemory::Indexed { frame, .. }) if frame.is_empty()));
    assert_eq!(b.client_priority, 4);
    assert_eq!(b.client_owners, vec![client]);
}

#[test]
fn malformed_submission_is_a_protocol_error() {
    let (mut core, client, _) = store_with_worker();
    let empty = ClientTaskSpec::Direct(DirectTaskSpec { function: None, args: None, kwargs: None });
    let mut notes = Notifications::new();
    let result = core.update_graph(
        client,
        submission(vec![("a", ClientTaskSpec::Serialized(indexed(3))), ("b", empty)], vec![]),
        &mut notes,
    );
    assert_eq!(result, Err(EngineError::ProtocolError(ProtocolViolation::EmptyTaskSpec)));
    let result = core.update_graph(
        client,
        submission(vec![("a", ClientTaskSpec::Serialized(indexed(1)))], vec![vec![1]]),
        &mut notes,
    );
    assert_eq!(result, Err(EngineError::ProtocolError(ProtocolViolation::FrameOutOfRange)));
    assert!(notes.is_empty());
    assert_eq!(core.task_slots(), 0);

    let empty = ClientTaskSpec::Direct(DirectTaskSpec { function: None, args: None, kwargs: None });
    let outcome = core.on_client_message(
        client,
        FromClientMessage::UpdateGraph(submission(vec![("a", empty)], vec![])),
        &mut notes,
    );
    assert_eq!(outcome, Err(EngineError::ProtocolError(ProtocolViolation::EmptyTaskSpec)));
    assert!(core.get_client(client).is_none());
}

#[test]
fn client_messages_are_dispatched() {
    let (mut core, client, worker) = store_with_worker();
    let mut notes = Notifications::new();
    let mut send = |core: &mut Core, message| core.on_client_message(client, message, &mut notes);
    assert_eq!(send(&mut core, FromClientMessage::HeartbeatClient), Ok(ClientOutcome::Heartbeat));
    let graph = submission(vec![("a", ClientTaskSpec::Serialized(SerializedTransport::Inline(vec![])))], vec![]);
    assert_eq!(send(&mut core, FromClientMessage::UpdateGraph(graph)), Ok(ClientOutcome::Continue));
    let again = submission(
        vec![
            ("b", ClientTaskSpec::Serialized(SerializedTransport::Inline(vec![]))),
            ("b", ClientTaskSpec::Serialized(SerializedTransport::Inline(vec![]))),
        ],
        vec![],
    );
    assert_eq!(send(&mut core, FromClientMessage::UpdateGraph(again)), Ok(ClientOutcome::Continue));
    assert_eq!(core.get_task(0).unwrap().client_owners, vec![client]);
    let release = FromClientMessage::ClientReleasesKeys(ClientReleasesKeysMsg { keys: vec![text("a")], client: text("client") });
    assert!(core.assign(TaskAssignment { task: 0, worker, priority: 0 }));
    assert_eq!(send(&mut core, release), Ok(ClientOutcome::Continue));
    assert!(core.get_task(0).unwrap().client_owners.is_empty());
    let desire = FromClientMessage::ClientDesiresKeys(ClientDesiresKeysMsg { keys: vec![text("a")], client: text("client") });
    assert_eq!(send(&mut core, desire), Ok(ClientOutcome::Continue));
    assert_eq!(core.get_task(0).unwrap().client_owners, vec![client]);
    assert_eq!(send(&mut core, FromClientMessage::CloseClient), Ok(ClientOutcome::Closed));
    assert!(core.get_client(client).is_none());
    assert_eq!(send(&mut core, FromClientMessage::CloseStream), Ok(ClientOutcome::Closed));
    assert_eq!(notes.rejections.len(), 2);
    assert_eq!(notes.rejections[1].error, EngineError::DuplicateKey);
}

#[test]
fn update_graph_message_takes_all_frames() {
    let mut frames = vec![vec![1], vec![2]];
    let message = FromClientMessage::deserialize(
        FromClientMessage::UpdateGraph(submission(vec![], vec![vec![9]])),
        &mut frames,
    );
    assert!(frames.is_empty());
    match message {
        FromClientMessage::UpdateGraph(m) => assert_eq!(m.frames, vec![vec![1], vec![2]]),
        _ => panic!("the message changed its kind"),
    }
    let mut frames = vec![vec![1], vec![2]];
    let message = FromClientMessage::deserialize(FromClientMessage::CloseClient, &mut frames);
    assert!(matches!(message, FromClientMessage::CloseClient));
    assert_eq!(frames.len(), 2);
}

#[test]
fn payloads_survive_the_round_trip() {
    let stored = ClientTaskSpec::Direct(DirectTaskSpec {
        function: Some(SerializedMemory::Indexed { frame: vec![1, 2, 3], header: vec![4] }),
        args: None,
        kwargs: Some(SerializedMemory::Indexed { frame: vec![], header: vec![] }),
    });
    let mut frames = vec![vec![0]];
    let sent = task_spec_to_transport(&stored, &mut frames);
    assert_eq!(frames, vec![vec![0], vec![1, 2, 3], vec![]]);
    assert!(matches!(
        &sent,
        ClientTaskSpec::Direct(DirectTaskSpec {
            function: Some(SerializedTransport::Indexed { frame_index: 1, .. }),
            args: None,
            kwargs: Some(SerializedTransport::Indexed { frame_index: 2, .. }),
        })
    ));
    assert!(task_spec_frames_in_range(&sent, 3));
    assert!(!task_spec_frames_in_range(&sent, 2));
    match task_spec_to_memory(sent, &mut frames) {
        ClientTaskSpec::Direct(d) => {
            assert!(matches!(d.function, Some(SerializedMemory::Indexed { frame, header }) if frame == vec![1u8, 2, 3] && header == vec![4u8]));
            assert!(d.args.is_none());
            assert!(matches!(d.kwargs, Some(SerializedMemory::Indexed { frame, .. }) if frame.is_empty()));
        }
        _ => panic!("the kind of the specification changed"),
    }
    let blob = ClientTaskSpec::Serialized(SerializedMemory::Inline(vec![8]));
    assert!(matches!(
        task_spec_to_transport(&blob, &mut frames),
        ClientTaskSpec::Serialized(SerializedTransport::Inline(v)) if v == vec![8u8]
    ));
    assert_eq!(copy_bytes(&vec![1, 2]), vec![1, 2]);
    assert!(DirectTaskSpec::<SerializedMemory> { function: None, args: Some(SerializedMemory::Inline(vec![])), kwargs: None }.is_valid());
    assert!(!DirectTaskSpec::<SerializedMemory> { function: None, args: None, kwargs: None }.is_valid());
}

#[test]
fn error_wins_over_result_within_a_batch() {
    let mut notes = Notifications::new();
    notes.in_memory_tasks = vec![(1, 10), (2, 11), (1, 11), (1, 12)];
    notes.error_tasks = vec![(1, 11), (3, 10)];
    notes.rejections.push(Rejection { client: 4, key: text("k"), error: EngineError::DuplicateKey });
    let owed = notes.client_notification(1);
    assert_eq!(owed.error_tasks, vec![11]);
    assert_eq!(owed.in_memory_tasks, vec![10, 12]);
    let owed = notes.client_notification(2);
    assert_eq!(owed.in_memory_tasks, vec![11]);
    assert!(owed.error_tasks.is_empty());
    assert_eq!(notes.client_ids(), vec![4, 1, 3, 2]);
    assert!(!notes.is_empty());
}

#[test]
fn worker_entries_are_grouped_in_their_order() {
    let mut notes = Notifications::new();
    notes.compute_tasks = vec![(5, 1), (3, 2), (5, 3)];
    notes.delete_keys = vec![(7, 1), (5, 9)];
    notes.steal_requests = vec![(3, 4)];
    assert_eq!(notes.worker_ids(), vec![5, 3, 7]);
    let WorkerUpdate { compute_tasks, delete_keys, steal_tasks } = notes.worker_update(5);
    assert_eq!((compute_tasks, delete_keys, steal_tasks), (vec![1, 3], vec![9], vec![]));
    let update = notes.worker_update(3);
    assert_eq!((update.compute_tasks, update.steal_tasks), (vec![2], vec![4]));
}

#[test]
fn client_packets_hold_what_the_store_says_now() {
    let (mut core, client, worker) = store_with_worker();
    let spec = || ClientTaskSpec::Serialized(SerializedTransport::Inline(vec![]));
    core.update_graph(client, submission(vec![("a", spec()), ("b", spec())], vec![]), &mut Notifications::new()).unwrap();
    assert!(core.assign(TaskAssignment { task: 0, worker, priority: 0 }));
    assert!(core.assign(TaskAssignment { task: 1, worker, priority: 0 }));
    let mut notes = Notifications::new();
    let report = vec![
        erred("a", Status::Failure, indexed(0)),
        FromWorkerMessage::TaskErred(TaskFailedMsg {
            key: text("b"),
            status: Status::Failure,
            exception: SerializedTransport::Inline(vec![1]),
            traceback: indexed(0),
        }),
    ];
    let frames = vec![vec![0x92, 0, 1], vec![6, 6], vec![7]];
    assert_eq!(core.on_worker_batch(worker, report, frames, &mut notes), Ok(()));
    notes.in_memory_tasks.push((client, 0));
    notes.in_memory_tasks.push((client + 1, 1));
    let builder: MessageBuilder<ToClientMessage> = client_packet(&core, &notes, client);
    assert!(!builder.is_empty());
    assert_eq!(builder.frames, vec![vec![6, 6], vec![7]]);
    assert_eq!(builder.messages.len(), 2);
    match (&builder.messages[0], &builder.messages[1]) {
        (ToClientMessage::TaskErred(a), ToClientMessage::TaskErred(b)) => {
            assert_eq!((a.key.as_str(), b.key.as_str()), ("a", "b"));
            assert!(matches!(&a.exception, SerializedTransport::Indexed { frame_index: 0, header } if header == &vec![0u8]));
            assert!(matches!(&a.traceback, SerializedTransport::Inline(v) if v.is_empty()));
            assert!(matches!(&b.exception, SerializedTransport::Inline(v) if v == &vec![1u8]));
            assert!(matches!(&b.traceback, SerializedTransport::Indexed { frame_index: 1, .. }));
        }
        _ => panic!("the client was told of a result"),
    }
    let packets = notify_clients(&core, &notes);
    assert_eq!(packets.len(), 1);
    assert_eq!(packets[0].client, client);
}

#[test]
fn worker_packets_carry_tasks_with_their_frames() {
    let (mut core, client, w1) = store_with_worker();
    let w2 = core.connect_worker(RegisterWorkerMsg { address: text("tcp://127.0.0.2:9000"), ncpus: 1 }, &mut Notifications::new());
    let direct = ClientTaskSpec::Direct(DirectTaskSpec {
        function: Some(indexed(0)),
        args: Some(indexed(1)),
        kwargs: None,
    });
    let mut msg = submission(
        vec![("a", ClientTaskSpec::Serialized(indexed(2))), ("b", direct)],
        vec![vec![1], vec![2, 2], vec![3, 3, 3]],
    );
    msg.set_dependencies(text("b"), vec![text("a")]);
    core.update_graph(client, msg, &mut Notifications::new()).unwrap();
    assert!(core.assign(TaskAssignment { task: 0, worker: w1, priority: 3 }));
    assert!(core.on_task_finished(w1, "a", rsds::task::DataInfo { data_type: vec![] }, &mut Notifications::new()));
    let mut notes = Notifications::new();
    core.process_assignments(&vec![TaskAssignment { task: 1, worker: w2, priority: 6 }], &mut notes);
    notes.delete_keys = vec![(w2, 0), (w2, 17)];
    notes.steal_requests = vec![(w1, 1)];

    let packets = notify_workers(&core, &notes).unwrap();
    assert_eq!(packets.len(), 2);
    assert_eq!((packets[0].worker, packets[1].worker), (w2, w1));
    assert_eq!(packets[0].frames, vec![vec![0x92, 0, 0], vec![1], vec![2, 2]]);
    assert_eq!(packets[0].messages.len(), 2);
    match &packets[0].messages[0] {
        ToWorkerMessage::ComputeTask(m) => {
            assert_eq!(m.key, "b");
            assert_eq!((m.user_priority, m.scheduler_priority), (0, 6));
            assert_eq!(m.who_has, vec![(text("a"), vec![text("tcp://127.0.0.1:9000")])]);
            assert!(matches!(
                &m.spec,
                ClientTaskSpec::Direct(DirectTaskSpec {
                    function: Some(SerializedTransport::Indexed { frame_index: 0, .. }),
                    args: Some(SerializedTransport::Indexed { frame_index: 1, .. }),
                    kwargs: None,
                })
            ));
        }
        _ => panic!("the first message does not tell what to run"),
    }
    match &packets[0].messages[1] {
        ToWorkerMessage::DeleteData(m) => {
            assert_eq!(m.keys, vec![text("a")]);
            assert!(!m.report);
        }
        _ => panic!("the second message does not tell what to drop"),
    }
    assert!(packets[1].frames.is_empty());
    assert!(matches!(&packets[1].messages[..], [ToWorkerMessage::StealRequest(m)] if m.key == "b"));

    let draft = worker_draft(&core, &WorkerUpdate { compute_tasks: vec![0, 9, 1], delete_keys: vec![], steal_tasks: vec![] });
    assert_eq!(draft.descriptor, vec![0, 1, 1]);
    assert_eq!(draft.frames, vec![vec![3, 3, 3], vec![1], vec![2, 2]]);
    let sealed = seal(draft, 4).unwrap();
    assert_eq!(sealed.worker, 4);
    assert_eq!(sealed.frames.len(), 4);
    assert_eq!(read_descriptor(&sealed.frames), Ok(vec![0, 1, 1]));
}

#[test]
fn scheduler_is_told_of_what_is_still_there() {
    let (mut core, client, worker) = store_with_worker();
    let spec = || ClientTaskSpec::Serialized(SerializedTransport::Inline(vec![]));
    let mut msg = submission(vec![("a", spec()), ("b", spec())], vec![]);
    msg.set_dependencies(text("b"), vec![text("a")]);
    msg.set_priority(text("b"), 2);
    msg.user_priority = 1;
    let mut notes = Notifications::new();
    core.update_graph(client, msg, &mut notes).unwrap();
    notes.scheduler_events.push(SchedulerEvent::NewTask(5));
    notes.scheduler_events.push(SchedulerEvent::TaskReady(0));
    notes.scheduler_events.push(SchedulerEvent::LostData(1));
    notes.scheduler_events.push(SchedulerEvent::NewWorker(worker));
    notes.scheduler_events.push(SchedulerEvent::NewWorker(worker + 1));
    let messages = scheduler_messages(&core, &notes.scheduler_events);
    assert_eq!(messages.len(), 5);
    assert!(matches!(&messages[0], ToSchedulerMessage::NewTask(t) if t.id == 0 && t.inputs.is_empty() && t.user_priority == 1));
    assert!(matches!(&messages[1], ToSchedulerMessage::NewTask(t) if t.id == 1 && t.inputs == vec![0] && t.client_priority == 2));
    assert!(matches!(&messages[2], ToSchedulerMessage::TaskReady(0)));
    assert!(matches!(&messages[3], ToSchedulerMessage::LostData(1)));
    assert!(matches!(&messages[4], ToSchedulerMessage::NewWorker(WorkerInfo { id, ncpus: 16 }) if *id == worker));

    let outbound = notify(&core, &notes).unwrap();
    assert_eq!(outbound.scheduler.len(), 5);
    assert!(outbound.workers.is_empty());
    assert!(outbound.clients.is_empty());
}

#[test]
fn worker_address_loses_its_scheme() {
    let worker = |address: &str| Worker { id: 3, ncpus: 2, listen_address: text(address) };
    assert_eq!(worker("tcp://10.1.1.1:80").connect_address(), "10.1.1.1:80");
    assert_eq!(worker("tcp://tcp://h:1").connect_address(), "h:1");
    assert_eq!(worker("h:1/tcp://").connect_address(), "h:1/tcp://");
    assert_eq!(worker("tcp:/h").connect_address(), "tcp:/h");
    assert_eq!(worker("").connect_address(), "");
    assert_eq!(worker("tcp://h").make_sched_info(), WorkerInfo { id: 3, ncpus: 2 });
    match get_data_request(vec![text("a"), text("b")]) {
        ToWorkerMessage::GetData(m) => {
            assert_eq!(m.keys, vec![text("a"), text("b")]);
            assert_eq!((m.who, m.max_connections, m.reply), (None, false, true));
        }
        _ => panic!("the request asks for no data"),
    }
}

#[test]
fn connecting_worker_is_announced() {
    let mut core = Core::new();
    let mut notes = Notifications::new();
    let id = core.connect_worker(RegisterWorkerMsg { address: text("tcp://h:1"), ncpus: 3 }, &mut notes);
    assert_eq!(id, 0);
    assert_eq!(notes.scheduler_events, vec![SchedulerEvent::NewWorker(0)]);
    assert_eq!(core.get_worker(0).unwrap().ncpus, 3);
    assert_eq!(core.worker_ids(), vec![0]);
}

#[test]
fn messages_have_their_tags() {
    assert_eq!(FromClientMessage::HeartbeatClient.op(), "heartbeat-client");
    assert_eq!(FromClientMessage::UpdateGraph(submission(vec![], vec![])).op(), "update-graph");
    assert_eq!(
        FromClientMessage::ClientReleasesKeys(ClientReleasesKeysMsg { keys: vec![], client: text("c") }).op(),
        "client-releases-keys"
    );
    assert_eq!(
        FromClientMessage::ClientDesiresKeys(ClientDesiresKeysMsg { keys: vec![], client: text("c") }).op(),
        "client-desires-keys"
    );
    assert_eq!(FromClientMessage::CloseClient.op(), "close-client");
    assert_eq!(FromClientMessage::CloseStream.op(), "close-stream");
    assert_eq!(finished("k", Status::Success).op(), "task-finished");
    assert_eq!(erred("k", Status::Failure, indexed(0)).op(), "task-erred");
    assert_eq!(FromWorkerMessage::KeepAlive.op(), "keep-alive");
    assert_eq!(get_data_request(vec![]).op(), "get-data");
    let (mut core, client, worker) = store_with_worker();
    core.update_graph(
        client,
        submission(vec![("a", ClientTaskSpec::Serialized(SerializedTransport::Inline(vec![])))], vec![]),
        &mut Notifications::new(),
    )
    .unwrap();
    let draft = worker_draft(&core, &WorkerUpdate { compute_tasks: vec![0], delete_keys: vec![0], steal_tasks: vec![0] });
    let tags: Vec<&str> = draft.messages.iter().map(|m| m.op()).collect();
    assert_eq!(tags, vec!["compute-task", "delete-data", "steal-request"]);
    assert!(core.assign(TaskAssignment { task: 0, worker, priority: 0 }));
    let mut notes = Notifications::new();
    assert!(core.on_task_finished(worker, "a", rsds::task::DataInfo { data_type: vec![] }, &mut notes));
    let packets = notify_clients(&core, &notes);
    assert_eq!(packets[0].messages[0].op(), "key-in-memory");
}
