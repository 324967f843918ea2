use cuely::mapreduce::{Action, Coordinator, Error};

#[test]
fn every_worker_failing_aborts_the_job() {
    let mut c = Coordinator::new(2, 3);
    assert_eq!(c.first_untried(1), Some(0));
    assert_eq!(c.on_failure(1, 0), Action::Send { task: 1, worker: 1 });
    assert!(!c.aborted);
    assert_eq!(c.on_failure(1, 1), Action::Abort(Error::NoAvailableWorker));
    assert!(c.aborted);
    assert_eq!(c.finish(Some(42u64)), None);
    assert!(!c.is_finished());
}

#[test]
fn no_workers_means_no_available_worker() {
    let c = Coordinator::new(0, 1);
    assert_eq!(c.first_untried(0), None);
}

#[test]
fn retried_task_is_folded_once() {
    let mut c = Coordinator::new(3, 2);
    assert_eq!(c.on_failure(0, 0), Action::Send { task: 0, worker: 1 });
    assert_eq!(c.on_failure(0, 2), Action::Send { task: 0, worker: 1 });
    assert!(c.on_success(0));
    assert!(!c.on_success(0));
    assert!(!c.is_finished());
    assert!(c.on_success(1));
    assert!(c.is_finished());
    assert_eq!(c.finish(Some(7u64)), Some(7));
}
