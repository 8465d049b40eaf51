use mapreduce::coordinator::{all_distinct, AssignError, JobError, TaskResponse};
use mapreduce::task::{TaskKind, TaskState};
use mapreduce::worker::WorkerAction;
use mapreduce::{Master, TaskService, Worker};

fn splits(names: &[&str]) -> Vec<String> {
    names.iter().map(|s| s.to_string()).collect()
}

fn expect_task(r: Result<TaskResponse, AssignError>) -> TaskResponse {
    match r {
        Ok(t) => t,
        Err(e) => panic!("expected a task, got {:?}", e),
    }
}

#[test]
fn init_rejects_split_count_mismatch() {
    let r = TaskService::init("job", 3, &splits(&["a.txt", "b.txt"]), 2);
    assert_eq!(r.unwrap_err(), JobError::SplitCountMismatch);
}

#[test]
fn init_rejects_zero_reduce_tasks() {
    let r = TaskService::init("job", 1, &splits(&["a.txt"]), 0);
    assert_eq!(r.unwrap_err(), JobError::NoReduceTasks);
}

#[test]
fn init_creates_idle_tasks() {
    let t = TaskService::init("wordcount", 2, &splits(&["a.txt", "b.txt"]), 3).unwrap();
    assert_eq!(t.job_name(), "wordcount");
    assert_eq!(t.map_task_count(), 2);
    assert_eq!(t.reduce_task_count(), 3);
    let m1 = t.get_task(TaskKind::MapTask, 1).unwrap();
    assert_eq!(m1.task_id, "b.txt");
    assert_eq!(m1.kind, TaskKind::MapTask);
    assert_eq!(m1.state, TaskState::Idle);
    assert_eq!(m1.index, 1);
    let r2 = t.get_task(TaskKind::ReduceTask, 2).unwrap();
    assert_eq!(r2.task_id, "2");
    assert_eq!(r2.kind, TaskKind::ReduceTask);
    assert_eq!(r2.state, TaskState::Idle);
    assert!(t.get_task(TaskKind::MapTask, 2).is_none());
    assert!(t.get_task(TaskKind::ReduceTask, 3).is_none());
}

#[test]
fn map_tasks_are_handed_out_in_order_and_marked_assigned() {
    let mut t = TaskService::init("job", 2, &splits(&["a.txt", "b.txt"]), 2).unwrap();
    let first = expect_task(t.send_task(1));
    assert_eq!(first.kind, TaskKind::MapTask);
    assert_eq!(first.task_name, "a.txt");
    assert_eq!(first.tasknum, 0);
    assert_eq!(first.map_task_count, 2);
    assert_eq!(first.reduce_task_count, 2);
    assert_eq!(t.get_task(TaskKind::MapTask, 0).unwrap().state, TaskState::Assigned);
    let second = expect_task(t.send_task(2));
    assert_eq!(second.task_name, "b.txt");
    assert_eq!(second.tasknum, 1);
}

#[test]
fn no_task_while_map_tasks_are_in_flight() {
    let mut t = TaskService::init("job", 2, &splits(&["a.txt", "b.txt"]), 2).unwrap();
    expect_task(t.send_task(1));
    expect_task(t.send_task(2));
    assert_eq!(t.send_task(3).unwrap_err(), AssignError::NoTaskAvailable);
    assert!(t.report_done(TaskKind::MapTask, 0));
    // one map task is still assigned: reduce tasks are withheld
    assert_eq!(t.send_task(3).unwrap_err(), AssignError::NoTaskAvailable);
    assert_eq!(t.get_task(TaskKind::ReduceTask, 0).unwrap().state, TaskState::Idle);
}

#[test]
fn report_done_checks_the_task() {
    let mut t = TaskService::init("job", 1, &splits(&["a.txt"]), 1).unwrap();
    assert!(!t.report_done(TaskKind::MapTask, 0));
    assert_eq!(t.get_task(TaskKind::MapTask, 0).unwrap().state, TaskState::Idle);
    assert!(!t.report_done(TaskKind::MapTask, 5));
    expect_task(t.send_task(1));
    assert!(t.report_done(TaskKind::MapTask, 0));
    assert_eq!(t.get_task(TaskKind::MapTask, 0).unwrap().state, TaskState::Done);
    assert!(!t.report_done(TaskKind::MapTask, 0));
    assert!(!t.report_done(TaskKind::ReduceTask, 0));
}

#[test]
fn no_task_is_handed_out_twice() {
    let mut t = TaskService::init("job", 3, &splits(&["x", "y", "z"]), 2).unwrap();
    let mut seen: Vec<(TaskKind, u64)> = Vec::new();
    for round in 0..20u32 {
        match t.send_task(round) {
            Ok(resp) => {
                let key = (resp.kind, resp.tasknum);
                assert!(!seen.contains(&key), "task handed out twice: {:?}", key);
                seen.push(key);
                if round % 2 == 0 {
                    assert!(t.report_done(resp.kind, resp.tasknum));
                }
            }
            Err(_) => {
                for &(k, i) in seen.clone().iter() {
                    t.report_done(k, i);
                }
            }
        }
    }
    assert_eq!(seen.len(), 5);
}

#[test]
fn reduce_tasks_follow_the_map_phase() {
    let mut t = TaskService::init("job", 2, &splits(&["a.txt", "b.txt"]), 2).unwrap();
    let a = expect_task(t.send_task(1));
    let b = expect_task(t.send_task(2));
    assert!(t.report_done(a.kind, a.tasknum));
    assert!(t.report_done(b.kind, b.tasknum));
    let r0 = expect_task(t.send_task(3));
    assert_eq!(r0.kind, TaskKind::ReduceTask);
    assert_eq!(r0.tasknum, 0);
    assert_eq!(r0.task_name, "0");
    let r1 = expect_task(t.send_task(4));
    assert_eq!(r1.kind, TaskKind::ReduceTask);
    assert_eq!(r1.tasknum, 1);
    assert_eq!(r1.task_name, "1");
    assert_eq!(t.send_task(5).unwrap_err(), AssignError::NoTaskAvailable);
}

#[test]
fn job_complete_is_stable() {
    let mut t = TaskService::init("job", 1, &splits(&["a.txt"]), 2).unwrap();
    for _ in 0..3 {
        let task = expect_task(t.send_task(1));
        assert!(t.report_done(task.kind, task.tasknum));
    }
    for caller in 0..5u32 {
        assert_eq!(t.send_task(caller).unwrap_err(), AssignError::JobComplete);
    }
    assert!(!t.report_done(TaskKind::ReduceTask, 1));
    assert_eq!(t.send_task(9).unwrap_err(), AssignError::JobComplete);
}

#[test]
fn job_without_map_tasks_starts_with_reduce() {
    let mut t = TaskService::init("job", 0, &Vec::new(), 1).unwrap();
    let r = expect_task(t.send_task(1));
    assert_eq!(r.kind, TaskKind::ReduceTask);
    assert_eq!(r.map_task_count, 0);
}

#[test]
fn master_keeps_its_name() {
    let m = Master::new("mymaster");
    assert_eq!(m.get_name(), "mymaster");
}

#[test]
fn worker_fields() {
    let w = Worker::new(42, false);
    assert_eq!(w.get_id(), 42);
    assert!(!w.done());
}

#[test]
fn worker_follows_the_replies() {
    let mut w = Worker::new(7, false);
    let mut t = TaskService::init("job", 1, &splits(&["in.txt"]), 3).unwrap();
    match w.handle_reply(t.send_task(7)) {
        WorkerAction::RunMap { split, map_index, reduce_task_count } => {
            assert_eq!(split, "in.txt");
            assert_eq!(map_index, 0);
            assert_eq!(reduce_task_count, 3);
        }
        other => panic!("unexpected action {:?}", other),
    }
    assert!(matches!(w.handle_reply(t.send_task(7)), WorkerAction::Retry));
    assert!(t.report_done(TaskKind::MapTask, 0));
    match w.handle_reply(t.send_task(7)) {
        WorkerAction::RunReduce { partition, map_task_count } => {
            assert_eq!(partition, 0);
            assert_eq!(map_task_count, 1);
        }
        other => panic!("unexpected action {:?}", other),
    }
    assert!(!w.done());
    assert!(matches!(w.handle_reply(Err(AssignError::JobComplete)), WorkerAction::Stop));
    assert!(w.done());
    assert_eq!(w.get_id(), 7);
}

#[test]
fn init_rejects_duplicate_splits() {
    let r = TaskService::init("job", 3, &splits(&["a.txt", "b.txt", "a.txt"]), 2);
    assert_eq!(r.unwrap_err(), JobError::DuplicateSplit);
    assert!(!all_distinct(&splits(&["a", "b", "a"])));
    assert!(all_distinct(&splits(&["a", "b", "c"])));
    assert!(all_distinct(&Vec::new()));
}

#[test]
fn peek_task_changes_nothing() {
    let mut t = TaskService::init("job", 1, &splits(&["a.txt"]), 1).unwrap();
    let peeked = expect_task(t.peek_task());
    assert_eq!(peeked.task_name, "a.txt");
    assert_eq!(t.get_task(TaskKind::MapTask, 0).unwrap().state, TaskState::Idle);
    let sent = expect_task(t.send_task(1));
    assert_eq!(sent.task_name, peeked.task_name);
    assert_eq!(sent.tasknum, peeked.tasknum);
    assert_eq!(t.peek_task().unwrap_err(), AssignError::NoTaskAvailable);
}
