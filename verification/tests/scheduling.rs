//! Tests of the work queue and the controller's scheduling state
//! machine: bounds, phase transitions, retry and shutdown behaviour.
use mapreduce::coordinator::{Coordinator, Opt, PollTaskReply};
use mapreduce::queue::Queue;
use mapreduce::task::{Payload, Task};

fn opt(n_reduce: u64, files: &[&str]) -> Opt {
    Opt { n_reduce, input_files: files.iter().map(|f| f.to_string()).collect() }
}

fn poll(c: &mut Coordinator) -> PollTaskReply {
    c.poll_task()
}

#[test]
fn queue() {
    let mut queue = Queue::new(2);
    assert_eq!(queue.len(), 0);
    queue.push(0);
    assert_eq!(queue.len(), 1);
    queue.push(1);
    assert_eq!(queue.len(), 2);

    assert_eq!(queue.push(2), false); // failed
    assert_eq!(queue.len(), 2);

    assert_eq!(queue.pop(), Some(0));
    assert_eq!(queue.len(), 1);
    assert_eq!(queue.pop(), Some(1));
    assert_eq!(queue.len(), 0);
    assert_eq!(queue.pop(), None);
    assert_eq!(queue.len(), 0);
    assert_eq!(queue.pop(), None);
    assert_eq!(queue.len(), 0);
}

#[test]
fn queue_size_stays_in_bounds() {
    let mut q: Queue<u64> = Queue::new(3);
    for round in 0..5u64 {
        for v in 0..4u64 {
            q.push(round * 10 + v);
            assert!(q.len() <= 3);
        }
        assert_eq!(q.len(), 3);
        assert_eq!(q.push(99), false);
        assert_eq!(q.len(), 3);
        while q.pop().is_some() {}
        assert_eq!(q.len(), 0);
        assert!(q.is_empty());
    }
}

#[test]
fn map_tasks_seeded_in_file_order() {
    let mut c = Coordinator::new(opt(2, &["in/a.txt", "in/b.txt"]));
    for expected in ["in/a.txt", "in/b.txt"] {
        let reply = poll(&mut c);
        assert!(!reply.shutdown);
        let task = reply.task.expect("a map task should be pending");
        match &task.payload {
            Payload::MapTask(m) => {
                assert_eq!(m.files, vec![expected.to_string()]);
                assert_eq!(m.n_reduce, 2);
            }
            Payload::ReduceTask(_) => panic!("reduce task during the map phase"),
        }
    }
    let idle = poll(&mut c);
    assert!(idle.task.is_none());
    assert!(!idle.shutdown, "workers must keep polling while map tasks are in flight");
}

fn complete(c: &mut Coordinator, t: &Task, outputs: &[(u64, &str)]) -> bool {
    let outputs: Vec<(u64, String)> = outputs.iter().map(|(p, f)| (*p, f.to_string())).collect();
    c.complete_task(t, outputs)
}

#[test]
fn reduce_tasks_match_manifest_partitions() {
    let mut c = Coordinator::new(opt(3, &["x", "y"]));
    let t1 = poll(&mut c).task.unwrap();
    let t2 = poll(&mut c).task.unwrap();
    assert!(!complete(&mut c, &t1, &[(0, "f-0-a")]));
    assert!(!complete(&mut c, &t2, &[(2, "f-2-b"), (0, "f-0-b")]));

    // partitions 0 and 2 got intermediate files, partition 1 got none
    let mut seen = Vec::new();
    loop {
        let reply = poll(&mut c);
        match reply.task {
            Some(t) => match &t.payload {
                Payload::ReduceTask(r) => {
                    seen.push((r.index, r.files.clone()));
                    complete(&mut c, &t, &[]);
                }
                Payload::MapTask(_) => panic!("map task during the reduce phase"),
            },
            None => break,
        }
    }
    assert_eq!(
        seen,
        vec![
            (0, vec!["f-0-a".to_string(), "f-0-b".to_string()]),
            (2, vec!["f-2-b".to_string()]),
        ]
    );
}

#[test]
fn transitions_fire_exactly_once() {
    let mut c = Coordinator::new(opt(1, &["only"]));
    let t = poll(&mut c).task.unwrap();
    // finishing the map phase seeds reduce work; that is not the shutdown
    assert!(!complete(&mut c, &t, &[(0, "mid")]));
    let r = poll(&mut c).task.unwrap();
    // finishing the reduce phase is the one reduce-to-done transition
    assert!(complete(&mut c, &r, &[]));
    // late duplicate completions trigger nothing further
    assert!(!complete(&mut c, &r, &[]));
    assert!(!complete(&mut c, &t, &[]));
}

#[test]
fn retry_reassigns_with_fresh_id_and_same_payload() {
    let mut c = Coordinator::new(opt(2, &["crashy"]));
    let t = poll(&mut c).task.unwrap();
    let (orig_index, orig_files) = match &t.payload {
        Payload::MapTask(m) => (m.index, m.files.clone()),
        Payload::ReduceTask(_) => panic!("expected a map task"),
    };
    // grace period elapses without a completion: reassigned exactly once
    assert!(c.retry_task(t.id));
    // the entry is gone, so a second expiry of the same task does nothing
    assert!(!c.retry_task(t.id));

    let again = poll(&mut c).task.unwrap();
    assert_ne!(again.id, t.id, "a retried task carries a fresh id");
    match &again.payload {
        Payload::MapTask(m) => {
            assert_eq!(m.index, orig_index);
            assert_eq!(m.files, orig_files);
        }
        Payload::ReduceTask(_) => panic!("payload must be kept identical"),
    }
    // while the retried task is registered, its timer eviction works once more
    assert!(c.retry_task(again.id));
    assert!(!c.retry_task(again.id));
}

#[test]
fn completion_of_reclaimed_task_is_deduplicated() {
    let mut c = Coordinator::new(opt(1, &["a", "b"]));
    let t1 = poll(&mut c).task.unwrap();
    // t1's worker stalls; the timer reclaims it
    assert!(c.retry_task(t1.id));
    // the stalled worker finally reports: its manifest entry is recorded,
    // but nothing transitions (the replacement is still pending)
    assert!(!complete(&mut c, &t1, &[(0, "late-file")]));
    let replacement = poll(&mut c).task.unwrap();
    let t2 = poll(&mut c).task.unwrap();
    assert!(!complete(&mut c, &replacement, &[(0, "r-file")]));
    assert!(!complete(&mut c, &t2, &[(0, "b-file")]));
    // the late duplicate's entry reached the manifest
    let r = poll(&mut c).task.unwrap();
    match &r.payload {
        Payload::ReduceTask(p) => {
            assert_eq!(p.index, 0);
            assert!(p.files.contains(&"late-file".to_string()));
            assert!(p.files.contains(&"r-file".to_string()));
            assert!(p.files.contains(&"b-file".to_string()));
        }
        Payload::MapTask(_) => panic!("expected a reduce task"),
    }
}

#[test]
fn crash_scenario_job_still_completes() {
    let mut c = Coordinator::new(opt(1, &["doc"]));
    // worker A receives the task and crashes immediately: no completion
    let lost = poll(&mut c).task.unwrap();
    // idle pollers during the map phase are told to wait, not to exit
    let reply = poll(&mut c);
    assert!(reply.task.is_none() && !reply.shutdown);
    // the grace period elapses; the task is reassigned
    assert!(c.retry_task(lost.id));
    // worker B picks up the replacement and finishes the job
    let replacement = poll(&mut c).task.unwrap();
    assert_ne!(replacement.id, lost.id);
    assert!(!complete(&mut c, &replacement, &[(0, "inter")]));
    let r = poll(&mut c).task.unwrap();
    assert!(complete(&mut c, &r, &[]));
    // shutdown: every worker still polling is dismissed without error
    for _ in 0..3 {
        let last = poll(&mut c);
        assert!(last.task.is_none());
        assert!(last.shutdown);
    }
}

#[test]
fn shutdown_only_after_everything_drains() {
    let mut c = Coordinator::new(opt(1, &["d1", "d2"]));
    let t1 = poll(&mut c).task.unwrap();
    let t2 = poll(&mut c).task.unwrap();
    assert!(!complete(&mut c, &t1, &[(0, "i1")]));
    // queue empty but t2 still in flight: keep polling
    let reply = poll(&mut c);
    assert!(reply.task.is_none() && !reply.shutdown);
    assert!(!complete(&mut c, &t2, &[(0, "i2")]));
    let r = poll(&mut c).task.unwrap();
    // reduce task in flight: still no shutdown for an idle poller
    let reply = poll(&mut c);
    assert!(reply.task.is_none() && !reply.shutdown);
    assert!(complete(&mut c, &r, &[]));
    let last = poll(&mut c);
    assert!(last.task.is_none() && last.shutdown);
}
