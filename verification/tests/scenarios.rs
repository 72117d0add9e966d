use rsds::assignment::TaskAssignment;
use rsds::clientmsg::{ClientTaskSpec, ToClientMessage, UpdateGraphMsg};
use rsds::comm::notify_clients;
use rsds::error::EngineError;
use rsds::frames::SerializedTransport;
use rsds::notifications::{Notifications, SchedulerEvent};
use rsds::scheduler::{FromSchedulerMessage, SchedulerPhase};
use rsds::store::Core;
use rsds::task::TaskRuntimeState;
use rsds::workermsg::{FromWorkerMessage, RegisterWorkerMsg, Status, TaskFailedMsg, TaskFinishedMsg};

fn blob(byte: u8) -> ClientTaskSpec<SerializedTransport> {
    ClientTaskSpec::Serialized(SerializedTransport::Inline(vec![byte]))
}

fn graph(tasks: &[&str], deps: &[(&str, &[&str])], keys: &[&str]) -> UpdateGraphMsg {
    let mut msg = UpdateGraphMsg::new(
        tasks.iter().map(|k| (k.to_string(), blob(1))).collect(),
        keys.iter().map(|k| k.to_string()).collect(),
        0,
        Vec::new(),
    );
    for (key, list) in deps {
        msg.set_dependencies(key.to_string(), list.iter().map(|k| k.to_string()).collect());
    }
    msg
}

fn chain() -> UpdateGraphMsg {
    graph(&["a", "b", "c"], &[("b", &["a"]), ("c", &["b"])], &["c"])
}

fn worker(core: &mut Core) -> u64 {
    let mut notes = Notifications::new();
    core.connect_worker(RegisterWorkerMsg { address: "tcp://10.0.0.1:4000".to_string(), ncpus: 4 }, &mut notes)
}

fn assign(core: &mut Core, task: u64, worker: u64) -> Notifications {
    let mut notes = Notifications::new();
    let next = core.on_scheduler_message(
        SchedulerPhase::Registered,
        Some(FromSchedulerMessage::TaskAssignments(vec![TaskAssignment { task, worker, priority: 0 }])),
        &mut notes,
    );
    assert_eq!(next, Ok(SchedulerPhase::Registered));
    notes
}

fn finish(core: &mut Core, worker: u64, key: &str) -> Notifications {
    let mut notes = Notifications::new();
    let message = FromWorkerMessage::TaskFinished(TaskFinishedMsg {
        key: key.to_string(),
        status: Status::Success,
        nbytes: 8,
        data_type: vec![42],
    });
    assert_eq!(core.on_worker_batch(worker, vec![message], Vec::new(), &mut notes), Ok(()));
    notes
}

fn fail(core: &mut Core, worker: u64, key: &str) -> Notifications {
    let mut notes = Notifications::new();
    let message = FromWorkerMessage::TaskErred(TaskFailedMsg {
        key: key.to_string(),
        status: Status::Failure,
        exception: SerializedTransport::Inline(vec![1, 2]),
        traceback: SerializedTransport::Inline(vec![3]),
    });
    assert_eq!(core.on_worker_batch(worker, vec![message], Vec::new(), &mut notes), Ok(()));
    notes
}

fn state_name(core: &Core, key: &str) -> &'static str {
    match core.get_task_by_key(key) {
        None => "gone",
        Some(task) => match task.state {
            TaskRuntimeState::Waiting => "waiting",
            TaskRuntimeState::Ready => "ready",
            TaskRuntimeState::Assigned(_) => "assigned",
            TaskRuntimeState::InMemory(_) => "in-memory",
            TaskRuntimeState::Error(_) => "error",
            TaskRuntimeState::Released => "released",
        },
    }
}

#[test]
fn linear_chain_runs_to_one_key_in_memory() {
    let mut core = Core::new();
    let client = core.connect_client("client-1".to_string());
    let w1 = worker(&mut core);
    let mut notes = Notifications::new();
    let order = core.update_graph(client, chain(), &mut notes).unwrap();
    assert_eq!(order, vec![0, 1, 2]);
    assert_eq!(
        notes.scheduler_events,
        vec![SchedulerEvent::NewTask(0), SchedulerEvent::NewTask(1), SchedulerEvent::NewTask(2)]
    );
    assert_eq!(state_name(&core, "a"), "ready");
    assert_eq!(state_name(&core, "b"), "waiting");
    assert_eq!(state_name(&core, "c"), "waiting");

    let notes = assign(&mut core, 0, w1);
    assert_eq!(notes.compute_tasks, vec![(w1, 0)]);
    let notes = finish(&mut core, w1, "a");
    assert_eq!(notes.scheduler_events, vec![SchedulerEvent::TaskReady(1)]);
    assert!(notes.in_memory_tasks.is_empty());

    let notes = assign(&mut core, 1, w1);
    assert_eq!(notes.compute_tasks, vec![(w1, 1)]);
    let notes = finish(&mut core, w1, "b");
    assert_eq!(notes.scheduler_events, vec![SchedulerEvent::TaskReady(2)]);
    assert!(notes.in_memory_tasks.is_empty());

    let notes = assign(&mut core, 2, w1);
    assert_eq!(notes.compute_tasks, vec![(w1, 2)]);
    let notes = finish(&mut core, w1, "c");
    assert_eq!(notes.in_memory_tasks, vec![(client, 2)]);
    assert!(notes.error_tasks.is_empty());

    let packets = notify_clients(&core, &notes);
    assert_eq!(packets.len(), 1);
    assert_eq!(packets[0].client, client);
    assert_eq!(packets[0].messages.len(), 1);
    match &packets[0].messages[0] {
        ToClientMessage::KeyInMemory(m) => {
            assert_eq!(m.key, "c");
            assert_eq!(m.data_type, vec![42]);
        }
        _ => panic!("the client was told of a failure"),
    }
}

#[test]
fn error_propagates_along_the_chain() {
    let mut core = Core::new();
    let client = core.connect_client("client-1".to_string());
    let w1 = worker(&mut core);
    let mut notes = Notifications::new();
    core.update_graph(client, chain(), &mut notes).unwrap();
    assign(&mut core, 0, w1);
    finish(&mut core, w1, "a");
    assign(&mut core, 1, w1);
    let notes = fail(&mut core, w1, "b");
    assert_eq!(notes.error_tasks, vec![(client, 1), (client, 2)]);
    assert!(notes.in_memory_tasks.is_empty());
    assert_eq!(state_name(&core, "b"), "error");
    assert_eq!(state_name(&core, "c"), "error");
    match &core.get_task_by_key("c").unwrap().state {
        TaskRuntimeState::Error(info) => assert_eq!(info.cause, 1),
        _ => panic!("the dependent did not fail"),
    }

    let packets = notify_clients(&core, &notes);
    assert_eq!(packets.len(), 1);
    let keys: Vec<String> = packets[0]
        .messages
        .iter()
        .map(|m| match m {
            ToClientMessage::TaskErred(e) => e.key.clone(),
            ToClientMessage::KeyInMemory(_) => panic!("the client was told of a result"),
        })
        .collect();
    assert_eq!(keys, vec!["b".to_string(), "c".to_string()]);
}

#[test]
fn duplicate_submission_adds_one_task() {
    let mut core = Core::new();
    let client = core.connect_client("client-1".to_string());
    let mut notes = Notifications::new();
    let first = core.update_graph(client, graph(&["a"], &[], &["a"]), &mut notes).unwrap();
    let second = core.update_graph(client, graph(&["a"], &[], &["a"]), &mut notes).unwrap();
    assert_eq!(first, vec![0]);
    assert!(second.is_empty());
    assert_eq!(core.task_slots(), 1);
    assert_eq!(notes.scheduler_events, vec![SchedulerEvent::NewTask(0)]);
    assert_eq!(core.get_task_by_key("a").unwrap().client_owners, vec![client]);
}

#[test]
fn unknown_dependency_turns_the_submission_down() {
    let mut core = Core::new();
    let client = core.connect_client("client-1".to_string());
    let mut notes = Notifications::new();
    let result = core.update_graph(client, graph(&["x"], &[("x", &["y"])], &["x"]), &mut notes);
    assert_eq!(result, Err(EngineError::UnknownDependency));
    assert!(notes.scheduler_events.is_empty());
    assert_eq!(core.task_slots(), 0);
    assert_eq!(notes.rejections.len(), 1);
    assert_eq!(notes.rejections[0].client, client);
    assert_eq!(notes.rejections[0].key, "x");
    assert_eq!(notes.rejections[0].error, EngineError::UnknownDependency);

    let packets = notify_clients(&core, &notes);
    assert_eq!(packets.len(), 1);
    match &packets[0].messages[0] {
        ToClientMessage::TaskErred(m) => {
            assert_eq!(m.key, "x");
            match &m.exception {
                SerializedTransport::Inline(bytes) => assert_eq!(bytes, &b"unknown-dependency".to_vec()),
                _ => panic!("the reason is not given inline"),
            }
        }
        _ => panic!("the client was told of a result"),
    }
}

#[test]
fn worker_loss_takes_the_result_out_of_memory() {
    let mut core = Core::new();
    let client = core.connect_client("client-1".to_string());
    let w1 = worker(&mut core);
    let mut notes = Notifications::new();
    core.update_graph(client, graph(&["a", "b"], &[("b", &["a"])], &["a", "b"]), &mut notes).unwrap();
    assign(&mut core, 0, w1);
    finish(&mut core, w1, "a");
    assert_eq!(state_name(&core, "a"), "in-memory");
    assert_eq!(state_name(&core, "b"), "ready");

    let mut notes = Notifications::new();
    assert!(core.unregister_worker(w1, &mut notes));
    assert_eq!(state_name(&core, "a"), "ready");
    assert!(core.get_task_by_key("a").unwrap().worker_owners.is_empty());
    assert_eq!(state_name(&core, "b"), "waiting");
    assert_eq!(core.get_task_by_key("b").unwrap().unmet_count, 1);
    assert_eq!(notes.scheduler_events, vec![SchedulerEvent::LostData(0)]);
    assert!(core.get_worker(w1).is_none());
}

#[test]
fn release_while_assigned_is_settled_when_the_task_finishes() {
    let mut core = Core::new();
    let client = core.connect_client("client-1".to_string());
    let w1 = worker(&mut core);
    let mut notes = Notifications::new();
    core.update_graph(client, chain(), &mut notes).unwrap();
    assign(&mut core, 0, w1);
    finish(&mut core, w1, "a");
    assign(&mut core, 1, w1);
    finish(&mut core, w1, "b");
    assign(&mut core, 2, w1);
    assert_eq!(state_name(&core, "c"), "assigned");

    let mut notes = Notifications::new();
    core.release_keys(client, &vec!["c".to_string()], &mut notes);
    assert_eq!(state_name(&core, "c"), "assigned");
    assert!(core.get_task_by_key("c").unwrap().client_owners.is_empty());
    assert!(notes.delete_keys.is_empty());

    let notes = finish(&mut core, w1, "c");
    assert!(notes.in_memory_tasks.is_empty());
    assert_eq!(state_name(&core, "c"), "gone");
    assert_eq!(state_name(&core, "b"), "gone");
    assert_eq!(state_name(&core, "a"), "gone");
    assert_eq!(notes.delete_keys, vec![(w1, 2), (w1, 1), (w1, 0)]);
    assert!(core.get_task(2).is_none());
    assert!(notify_clients(&core, &notes).is_empty());
}
