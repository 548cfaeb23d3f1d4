use xxfunc::runner::ExecutionError;
use xxfunc::runtime::{PoolInitializationError, Resolution, Runtime, SubmissionError};

#[test]
fn pool_of_zero_workers_rejected() {
    let r = Runtime::new(0);
    assert_eq!(r.err(), Some(PoolInitializationError));
}

#[test]
fn fifo_dequeue_order() {
    let mut rt = Runtime::new(1).unwrap();
    let (h1, w1) = rt.spawn("first".to_string(), vec![1]);
    let (h2, w2) = rt.spawn("second".to_string(), vec![2]);
    // No worker has parked yet, so no wake target exists.
    assert_eq!(w1, None);
    assert_eq!(w2, None);
    let t1 = rt.worker_next(0).unwrap();
    assert_eq!(t1.task_id, h1.task_id());
    assert_eq!(t1.binary_path, "first");
    let t2 = rt.worker_next(0).unwrap();
    assert_eq!(t2.task_id, h2.task_id());
    assert_eq!(t2.binary_path, "second");
}

#[test]
fn task_carries_path_and_payload() {
    let mut rt = Runtime::new(1).unwrap();
    let (_h, _w) = rt.spawn("/bin/echo".to_string(), vec![7, 8, 9]);
    let t = rt.worker_next(0).unwrap();
    assert_eq!(t.binary_path, "/bin/echo");
    assert_eq!(t.payload, vec![7, 8, 9]);
}

#[test]
fn submit_wakes_a_parked_worker() {
    let mut rt = Runtime::new(2).unwrap();
    // Both workers find the queue empty and park.
    assert!(rt.worker_next(0).is_none());
    assert!(rt.worker_next(1).is_none());
    // The submission names the worker to resume, and that worker finds the
    // task on its next call.
    let (h, woken) = rt.spawn("task".to_string(), vec![]);
    let w = woken.unwrap();
    let t = rt.worker_next(w).unwrap();
    assert_eq!(t.task_id, h.task_id());
}

#[test]
fn handle_reports_pending_then_resolves() {
    let mut rt = Runtime::new(1).unwrap();
    let (mut h, _) = rt.spawn("task".to_string(), vec![]);
    assert!(h.poll(&rt).is_none());
    let t = rt.worker_next(0).unwrap();
    assert!(h.poll(&rt).is_none());
    rt.report(t.task_id, Resolution::Success);
    assert!(matches!(h.poll(&rt), Some(Resolution::Success)));
}

#[test]
fn error_outcome_reaches_the_handle() {
    let mut rt = Runtime::new(1).unwrap();
    let (mut h, _) = rt.spawn("task".to_string(), vec![]);
    let t = rt.worker_next(0).unwrap();
    rt.report(t.task_id, Resolution::Failure(ExecutionError::NonZeroExit(1)));
    assert!(matches!(
        h.poll(&rt),
        Some(Resolution::Failure(ExecutionError::NonZeroExit(1)))
    ));
}

#[test]
fn abandoned_outcome_reaches_the_handle() {
    let mut rt = Runtime::new(1).unwrap();
    let (mut h, _) = rt.spawn("task".to_string(), vec![]);
    let t = rt.worker_next(0).unwrap();
    rt.report(t.task_id, Resolution::Abandoned);
    assert!(matches!(h.poll(&rt), Some(Resolution::Abandoned)));
}

#[test]
fn submit_without_payload_errs() {
    let mut rt = Runtime::new(1).unwrap();
    let r = rt.submit("task".to_string(), None);
    assert_eq!(r.err(), Some(SubmissionError));
    // Nothing was enqueued.
    assert!(rt.worker_next(0).is_none());
}

#[test]
fn submit_with_payload_enqueues() {
    let mut rt = Runtime::new(1).unwrap();
    let (h, _w) = rt.submit("task".to_string(), Some(vec![1])).unwrap();
    let t = rt.worker_next(0).unwrap();
    assert_eq!(t.task_id, h.task_id());
}

#[test]
fn all_submissions_complete_with_one_wake_each() {
    let pool = 4;
    let tasks = 8;
    let mut rt = Runtime::new(pool).unwrap();
    // Every worker parks.
    for w in 0..pool {
        assert!(rt.worker_next(w).is_none());
    }
    // Submit all tasks; each submission wakes at most one worker.
    let mut handles = Vec::new();
    let mut awake = Vec::new();
    for k in 0..tasks {
        let (h, woken) = rt.spawn(format!("task-{k}"), vec![k as u8]);
        handles.push(h);
        if let Some(w) = woken {
            awake.push(w);
        }
    }
    // Only the parked workers could be woken, each at most once.
    assert_eq!(awake.len(), pool);
    // Awake workers pull work until the queue is drained, reporting each
    // task as it finishes, then park again.
    loop {
        let mut progressed = false;
        for &w in &awake {
            if let Some(t) = rt.worker_next(w) {
                rt.report(t.task_id, Resolution::Success);
                progressed = true;
            }
        }
        if !progressed {
            break;
        }
    }
    // Every submission resolved, exactly once each, to success.
    for mut h in handles {
        assert!(matches!(h.poll(&rt), Some(Resolution::Success)));
    }
}
