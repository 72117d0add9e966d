use rsds::assignment::TaskAssignment;
use rsds::clientmsg::ClientTaskSpec;
use rsds::error::EngineError;
use rsds::frames::SerializedMemory;
use rsds::notifications::{Notifications, SchedulerEvent};
use rsds::order::topological_order;
use rsds::plan::NewTask;
use rsds::store::Core;
use rsds::task::{list_contains, list_remove, DataInfo, Task, TaskRuntimeState, Worker};
use rsds::workermsg::RegisterWorkerMsg;

fn entry(key: &str, deps: &[&str]) -> NewTask {
    NewTask {
        key: key.to_string(),
        spec: ClientTaskSpec::Serialized(SerializedMemory::Inline(vec![0])),
        dependencies: deps.iter().map(|k| k.to_string()).collect(),
        client_priority: 0,
        actors: None,
    }
}

fn diamond() -> Core {
    let mut core = Core::new();
    let added = core.add_tasks(
        vec![entry("a", &[]), entry("b", &["a"]), entry("c", &["a"]), entry("d", &["b", "c", "b"])],
        3,
    );
    assert_eq!(added, Ok(vec![0, 1, 2, 3]));
    core
}

fn live_tasks(core: &Core) -> Vec<&Task> {
    (0..core.task_slots() as u64).filter_map(|id| core.get_task(id)).collect()
}

fn unmet(core: &Core, task: &Task) -> usize {
    task.dependencies
        .iter()
        .filter(|d| !matches!(core.get_task(**d).unwrap().state, TaskRuntimeState::InMemory(_)))
        .count()
}

fn check_invariants(core: &Core) {
    for task in live_tasks(core) {
        let by_key = core.get_task_by_key(&task.key).unwrap();
        assert_eq!(by_key.id, task.id);
        assert_eq!(core.get_task(by_key.id).unwrap().key, task.key);
        for d in &task.dependencies {
            assert!(core.get_task(*d).unwrap().dependents.contains(&task.id));
        }
        for t in &task.dependents {
            assert!(core.get_task(*t).unwrap().dependencies.contains(&task.id));
        }
        assert_eq!(task.unmet_count, unmet(core, task));
        match task.state {
            TaskRuntimeState::Waiting => assert!(task.unmet_count > 0),
            TaskRuntimeState::Ready => assert_eq!(task.unmet_count, 0),
            TaskRuntimeState::InMemory(_) => assert!(!task.worker_owners.is_empty()),
            _ => {}
        }
    }
}

fn connect(core: &mut Core, address: &str) -> u64 {
    core.connect_worker(
        RegisterWorkerMsg { address: address.to_string(), ncpus: 2 },
        &mut Notifications::new(),
    )
}

fn run(core: &mut Core, key: &str, worker: u64) -> Notifications {
    let id = core.get_task_id(key).unwrap();
    assert!(core.assign(TaskAssignment { task: id, worker, priority: 1 }));
    let mut notes = Notifications::new();
    assert!(core.on_task_finished(worker, key, DataInfo { data_type: vec![1] }, &mut notes));
    notes
}

#[test]
fn new_store_is_empty() {
    let core = Core::new();
    assert_eq!(core.task_slots(), 0);
    assert!(core.get_task(0).is_none());
    assert!(core.get_task_by_key("a").is_none());
    assert!(core.worker_ids().is_empty());
    assert!(core.client_ids().is_empty());
}

#[test]
fn added_tasks_get_ids_in_the_order_of_the_submission() {
    let core = diamond();
    assert_eq!(core.get_task_id("a"), Some(0));
    assert_eq!(core.get_task_id("d"), Some(3));
    let d = core.get_task_by_key("d").unwrap();
    assert_eq!(d.dependencies, vec![1, 2]);
    assert_eq!(d.unmet_count, 2);
    assert_eq!(d.user_priority, 3);
    assert!(matches!(d.state, TaskRuntimeState::Waiting));
    let a = core.get_task_by_key("a").unwrap();
    assert_eq!(a.dependents, vec![1, 2]);
    assert!(matches!(a.state, TaskRuntimeState::Ready));
    check_invariants(&core);
}

#[test]
fn keys_and_ids_lead_to_the_same_task() {
    let core = diamond();
    for key in ["a", "b", "c", "d"] {
        let by_key = core.get_task_by_key(key).unwrap();
        let by_id = core.get_task(by_key.id).unwrap();
        assert_eq!(by_id.key, key);
        assert_eq!(by_id.id, by_key.id);
    }
    assert!(core.get_task_by_key("e").is_none());
    assert!(core.get_task(4).is_none());
}

#[test]
fn invariants_hold_while_tasks_run() {
    let mut core = diamond();
    let w = connect(&mut core, "tcp://w:1");
    let notes = run(&mut core, "a", w);
    assert_eq!(notes.scheduler_events, vec![SchedulerEvent::TaskReady(1), SchedulerEvent::TaskReady(2)]);
    check_invariants(&core);
    run(&mut core, "b", w);
    assert_eq!(core.get_task_by_key("d").unwrap().unmet_count, 1);
    check_invariants(&core);
    let notes = run(&mut core, "c", w);
    assert_eq!(notes.scheduler_events, vec![SchedulerEvent::TaskReady(3)]);
    check_invariants(&core);
    assert!(core.unregister_worker(w, &mut Notifications::new()));
    check_invariants(&core);
    assert_eq!(core.get_task_by_key("d").unwrap().unmet_count, 2);
}

#[test]
fn new_tasks_come_after_their_dependencies() {
    let mut core = Core::new();
    let order = core
        .add_tasks(vec![entry("c", &["b"]), entry("b", &["a"]), entry("a", &[])], 0)
        .unwrap();
    assert_eq!(core.get_task_id("c"), Some(0));
    assert_eq!(core.get_task_id("a"), Some(2));
    assert_eq!(order, vec![2, 1, 0]);
    check_invariants(&core);
    let more = core.add_tasks(vec![entry("e", &["d", "a"]), entry("d", &["c"])], 0).unwrap();
    assert_eq!(more, vec![4, 3]);
    assert_eq!(core.get_task_by_key("e").unwrap().dependencies, vec![4, 2]);
    check_invariants(&core);
}

#[test]
fn topological_order_of_ids() {
    assert_eq!(topological_order(10, &vec![vec![11, 3], vec![12], vec![]]), Some(vec![12, 11, 10]));
    assert_eq!(topological_order(0, &vec![]), Some(vec![]));
    assert_eq!(topological_order(5, &vec![vec![6], vec![5]]), None);
    assert_eq!(topological_order(5, &vec![vec![5]]), None);
    assert_eq!(topological_order(0, &vec![vec![], vec![0], vec![1, 3], vec![3]]), None);
}

#[test]
fn resubmission_adds_nothing() {
    let mut core = diamond();
    let again = core.add_tasks(
        vec![entry("a", &[]), entry("b", &["a"]), entry("c", &["a"]), entry("d", &["b", "c", "b"])],
        3,
    );
    assert_eq!(again, Ok(vec![]));
    assert_eq!(core.task_slots(), 4);
    assert_eq!(core.get_task_by_key("a").unwrap().dependents, vec![1, 2]);
    check_invariants(&core);
}

#[test]
fn duplicate_key_is_turned_down_first() {
    let mut core = diamond();
    let result = core.add_tasks(vec![entry("x", &["nowhere"]), entry("x", &[])], 0);
    assert_eq!(result, Err(EngineError::DuplicateKey));
    assert_eq!(core.task_slots(), 4);
    let result = core.add_tasks(vec![entry("a", &[]), entry("a", &[])], 0);
    assert_eq!(result, Err(EngineError::DuplicateKey));
}

#[test]
fn unknown_dependency_is_turned_down_before_a_cycle() {
    let mut core = diamond();
    let result = core.add_tasks(vec![entry("x", &["y", "nowhere"]), entry("y", &["x"])], 0);
    assert_eq!(result, Err(EngineError::UnknownDependency));
    assert_eq!(core.task_slots(), 4);
    assert!(core.get_task_by_key("x").is_none());
}

#[test]
fn cycle_is_turned_down() {
    let mut core = diamond();
    let result = core.add_tasks(vec![entry("x", &["y", "a"]), entry("y", &["x"])], 0);
    assert_eq!(result, Err(EngineError::CyclicDependency));
    let result = core.add_tasks(vec![entry("z", &["z"])], 0);
    assert_eq!(result, Err(EngineError::CyclicDependency));
    assert_eq!(core.task_slots(), 4);
    assert_eq!(core.get_task_by_key("a").unwrap().dependents, vec![1, 2]);
    check_invariants(&core);
}

#[test]
fn assignment_needs_a_ready_task_and_a_connected_worker() {
    let mut core = diamond();
    let w = connect(&mut core, "tcp://w:1");
    let mut notes = Notifications::new();
    core.process_assignments(
        &vec![
            TaskAssignment { task: 3, worker: w, priority: 5 },
            TaskAssignment { task: 9, worker: w, priority: 5 },
            TaskAssignment { task: 0, worker: w + 1, priority: 5 },
            TaskAssignment { task: 0, worker: w, priority: 7 },
            TaskAssignment { task: 0, worker: w, priority: 8 },
        ],
        &mut notes,
    );
    assert_eq!(notes.compute_tasks, vec![(w, 0)]);
    let a = core.get_task(0).unwrap();
    assert!(matches!(a.state, TaskRuntimeState::Assigned(on) if on == w));
    assert_eq!(a.scheduler_priority, 7);
    assert!(matches!(core.get_task(3).unwrap().state, TaskRuntimeState::Waiting));
}

#[test]
fn reports_of_tasks_that_are_not_assigned_are_dropped() {
    let mut core = diamond();
    let w = connect(&mut core, "tcp://w:1");
    let mut notes = Notifications::new();
    assert!(!core.on_task_finished(w, "a", DataInfo { data_type: vec![] }, &mut notes));
    assert!(!core.on_task_finished(w, "nowhere", DataInfo { data_type: vec![] }, &mut notes));
    assert!(core.assign(TaskAssignment { task: 0, worker: w, priority: 0 }));
    assert!(!core.on_task_finished(w + 1, "a", DataInfo { data_type: vec![] }, &mut notes));
    let failed = core.on_task_error(
        w + 1,
        "a",
        SerializedMemory::Inline(vec![]),
        SerializedMemory::Inline(vec![]),
        &mut notes,
    );
    assert!(failed.is_empty());
    assert!(notes.is_empty());
    assert!(matches!(core.get_task(0).unwrap().state, TaskRuntimeState::Assigned(_)));
}

#[test]
fn failure_spreads_to_pending_dependents_only() {
    let mut core = diamond();
    let w = connect(&mut core, "tcp://w:1");
    let c1 = core.connect_client("one".to_string());
    let c2 = core.connect_client("two".to_string());
    let mut notes = Notifications::new();
    core.desire_keys(c1, &vec!["d".to_string(), "b".to_string()], &mut notes);
    core.desire_keys(c2, &vec!["d".to_string()], &mut notes);
    assert!(notes.is_empty());
    run(&mut core, "a", w);
    run(&mut core, "c", w);
    assert!(core.assign(TaskAssignment { task: 1, worker: w, priority: 0 }));
    let mut notes = Notifications::new();
    let failed = core.on_task_error(
        w,
        "b",
        SerializedMemory::Indexed { frame: vec![1, 2, 3], header: vec![4] },
        SerializedMemory::Inline(vec![5]),
        &mut notes,
    );
    assert_eq!(failed, vec![1, 3]);
    assert_eq!(notes.error_tasks, vec![(c1, 1), (c2, 1), (c1, 3), (c2, 3)]);
    assert!(matches!(core.get_task(2).unwrap().state, TaskRuntimeState::InMemory(_)));
    match &core.get_task(3).unwrap().state {
        TaskRuntimeState::Error(info) => {
            assert_eq!(info.cause, 1);
            assert!(
                matches!(&info.exception, SerializedMemory::Indexed { frame, header } if frame == &vec![1u8, 2, 3] && header == &vec![4u8])
            );
            assert!(matches!(&info.traceback, SerializedMemory::Inline(v) if v == &vec![5u8]));
        }
        _ => panic!("the dependent did not fail"),
    }
    check_invariants(&core);
}

#[test]
fn desired_keys_in_memory_are_told_at_once() {
    let mut core = diamond();
    let w = connect(&mut core, "tcp://w:1");
    let client = core.connect_client("one".to_string());
    let mut notes = Notifications::new();
    core.desire_keys(client, &vec!["a".to_string()], &mut notes);
    run(&mut core, "a", w);
    let mut notes = Notifications::new();
    core.desire_keys(client, &vec!["a".to_string(), "b".to_string(), "nowhere".to_string(), "a".to_string()], &mut notes);
    assert_eq!(notes.in_memory_tasks, vec![(client, 0), (client, 0)]);
    assert!(notes.error_tasks.is_empty());
    assert_eq!(core.get_task(0).unwrap().client_owners, vec![client]);
    assert_eq!(core.get_task(1).unwrap().client_owners, vec![client]);
}

#[test]
fn released_tasks_are_removed_with_what_only_they_needed() {
    let mut core = diamond();
    let w = connect(&mut core, "tcp://w:1");
    let client = core.connect_client("one".to_string());
    let mut notes = Notifications::new();
    core.desire_keys(client, &vec!["d".to_string(), "c".to_string()], &mut notes);
    run(&mut core, "a", w);
    run(&mut core, "b", w);
    let mut notes = Notifications::new();
    core.release_keys(client, &vec!["d".to_string(), "nowhere".to_string()], &mut notes);
    assert!(core.get_task_by_key("d").is_none());
    assert!(core.get_task_by_key("b").is_none());
    assert!(core.get_task_by_key("c").is_some());
    assert!(core.get_task_by_key("a").is_some());
    assert_eq!(core.get_task(0).unwrap().dependents, vec![2]);
    assert_eq!(notes.delete_keys, vec![(w, 1)]);
    assert_eq!(core.task_slots(), 4);
    check_invariants(&core);

    let order = core.add_tasks(vec![entry("d", &["c"])], 0).unwrap();
    assert_eq!(order, vec![4]);
    assert_eq!(core.get_task_id("d"), Some(4));
    check_invariants(&core);
}

#[test]
fn remove_task_leaves_what_is_needed() {
    let mut core = diamond();
    let mut notes = Notifications::new();
    assert!(!core.remove_task(0, &mut notes));
    assert!(!core.remove_task(7, &mut notes));
    assert!(core.remove_task(3, &mut notes));
    assert!(!core.remove_task(3, &mut notes));
    assert!(core.get_task(3).is_none());
    assert_eq!(core.get_task(1).unwrap().dependents, Vec::<u64>::new());
    assert!(notes.delete_keys.is_empty());
    check_invariants(&core);
}

#[test]
fn closing_client_gives_up_its_keys() {
    let mut core = diamond();
    let c1 = core.connect_client("one".to_string());
    let c2 = core.connect_client("two".to_string());
    let mut notes = Notifications::new();
    core.desire_keys(c1, &vec!["d".to_string(), "a".to_string()], &mut notes);
    core.desire_keys(c2, &vec!["b".to_string()], &mut notes);
    assert!(core.unregister_client(c1, &mut notes));
    assert!(!core.unregister_client(c1, &mut notes));
    assert!(!core.unregister_client(9, &mut notes));
    assert!(core.get_client(c1).is_none());
    assert_eq!(core.client_ids(), vec![c2]);
    assert!(core.get_task_by_key("d").is_none());
    assert!(core.get_task_by_key("c").is_none());
    assert_eq!(core.get_task_by_key("b").unwrap().client_owners, vec![c2]);
    assert!(core.get_task_by_key("a").unwrap().client_owners.is_empty());
    check_invariants(&core);
}

#[test]
fn worker_loss_resets_what_it_ran_and_held() {
    let mut core = diamond();
    let w1 = connect(&mut core, "tcp://w1:1");
    let w2 = connect(&mut core, "tcp://w2:1");
    run(&mut core, "a", w1);
    assert!(core.assign(TaskAssignment { task: 1, worker: w1, priority: 0 }));
    assert!(core.assign(TaskAssignment { task: 2, worker: w2, priority: 0 }));
    let mut notes = Notifications::new();
    assert!(core.unregister_worker(w1, &mut notes));
    assert!(!core.unregister_worker(w1, &mut notes));
    assert_eq!(notes.scheduler_events, vec![SchedulerEvent::LostData(0)]);
    assert!(matches!(core.get_task(0).unwrap().state, TaskRuntimeState::Ready));
    assert!(matches!(core.get_task(1).unwrap().state, TaskRuntimeState::Waiting));
    assert!(matches!(core.get_task(2).unwrap().state, TaskRuntimeState::Assigned(on) if on == w2));
    assert_eq!(core.get_task(2).unwrap().unmet_count, 1);
    assert_eq!(core.worker_ids(), vec![w2]);
    check_invariants(&core);

    let mut notes = Notifications::new();
    let mut core = diamond();
    let w = connect(&mut core, "tcp://w:1");
    assert!(core.assign(TaskAssignment { task: 0, worker: w, priority: 0 }));
    assert!(core.unregister_worker(w, &mut notes));
    assert_eq!(notes.scheduler_events, vec![SchedulerEvent::TaskReady(0)]);
    assert!(matches!(core.get_task(0).unwrap().state, TaskRuntimeState::Ready));
}

#[test]
fn ids_are_given_out_once() {
    let mut core = Core::new();
    assert_eq!(core.new_worker_id(), 0);
    assert_eq!(core.new_worker_id(), 1);
    assert!(core.register_worker(Worker { id: 1, ncpus: 8, listen_address: "tcp://h:1".to_string() }));
    assert!(!core.register_worker(Worker { id: 1, ncpus: 8, listen_address: "tcp://h:2".to_string() }));
    assert!(!core.register_worker(Worker { id: 2, ncpus: 8, listen_address: "tcp://h:3".to_string() }));
    assert_eq!(core.worker_ids(), vec![1]);
    assert_eq!(core.get_worker(1).unwrap().listen_address, "tcp://h:1");
    assert_eq!(core.get_worker(1).unwrap().id(), 1);
    assert!(core.unregister_worker(1, &mut Notifications::new()));
    assert_eq!(core.new_worker_id(), 2);
    assert_eq!(core.new_client_id(), 0);
    assert_eq!(core.connect_client("c".to_string()), 1);
    assert_eq!(core.get_client(1).unwrap().key, "c");
}

#[test]
fn higher_user_priority_outranks() {
    let core = {
        let mut core = Core::new();
        core.add_tasks(vec![entry("a", &[])], 2).unwrap();
        core.add_tasks(vec![entry("b", &[])], 1).unwrap();
        core.add_tasks(vec![entry("c", &[])], 2).unwrap();
        let w = connect(&mut core, "tcp://w:1");
        assert!(core.assign(TaskAssignment { task: 2, worker: w, priority: 9 }));
        core
    };
    let (a, b, c) = (core.get_task(0).unwrap(), core.get_task(1).unwrap(), core.get_task(2).unwrap());
    assert!(a.outranks(b));
    assert!(!b.outranks(a));
    assert!(c.outranks(a));
    assert!(!a.outranks(c));
    assert!(!a.outranks(a));
}

#[test]
fn list_helpers() {
    let mut list = vec![4, 7, 9];
    assert!(list_contains(&list, 7));
    assert!(!list_contains(&list, 8));
    assert!(list_remove(&mut list, 7));
    assert!(!list_remove(&mut list, 7));
    assert_eq!(list, vec![4, 9]);
}

#[test]
fn task_id_given_out_for_no_task_is_used_up() {
    let mut core = diamond();
    assert_eq!(core.new_task_id(), 4);
    assert!(core.get_task(4).is_none());
    assert_eq!(core.task_slots(), 5);
    let order = core.add_tasks(vec![entry("e", &["d"])], 0).unwrap();
    assert_eq!(order, vec![5]);
    assert_eq!(core.get_task_by_key("e").unwrap().dependencies, vec![3]);
    check_invariants(&core);
}
