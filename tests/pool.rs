use std::cell::RefCell;
use std::rc::Rc;
use workpool::pool::{PoolError, Step, WorkerPool, WorkerState};

type Job = Box<dyn FnOnce(usize)>;

/// Lets each worker in turn take and run one entry until every worker has
/// ended its loop or no worker can make progress.
fn drive(pool: &mut WorkerPool<Job>) {
    loop {
        let mut progressed = false;
        for w in 0..pool.size() {
            if pool.worker_state(w) == WorkerState::Waiting {
                match pool.receive(w) {
                    Step::Run(job) => {
                        job(w);
                        pool.finish(w);
                        progressed = true;
                    }
                    Step::Exit => progressed = true,
                    Step::Idle => {}
                }
            }
        }
        if !progressed {
            break;
        }
    }
}

fn recorder(log: &Rc<RefCell<Vec<(usize, usize)>>>, id: usize) -> Job {
    let log = Rc::clone(log);
    Box::new(move |worker: usize| log.borrow_mut().push((id, worker)))
}

#[test]
fn zero_size_is_a_configuration_error() {
    let r = WorkerPool::<u32>::new(0);
    assert!(matches!(r, Err(PoolError::ZeroSize)));
}

#[test]
fn new_pool_has_n_waiting_workers() {
    for n in 1..6usize {
        let pool = WorkerPool::<u32>::new(n).ok().unwrap();
        assert_eq!(pool.size(), n);
        assert!(!pool.is_stopping());
        assert_eq!(pool.queued(), 0);
        for w in 0..n {
            assert_eq!(pool.worker_state(w), WorkerState::Waiting);
        }
        assert!(!pool.all_exited());
    }
}

#[test]
fn every_worker_can_run_a_job() {
    for w in 0..4usize {
        let mut pool = WorkerPool::<u32>::new(4).ok().unwrap();
        pool.execute(9);
        assert!(matches!(pool.receive(w), Step::Run(9)));
        assert_eq!(pool.worker_state(w), WorkerState::Executing);
        pool.finish(w);
        assert_eq!(pool.worker_state(w), WorkerState::Waiting);
    }
}

#[test]
fn jobs_leave_in_submission_order() {
    let mut pool = WorkerPool::<u32>::new(3).ok().unwrap();
    pool.execute(1);
    pool.execute(2);
    pool.execute(3);
    assert_eq!(pool.queued(), 3);
    assert!(matches!(pool.receive(2), Step::Run(1)));
    assert!(matches!(pool.receive(0), Step::Run(2)));
    assert!(matches!(pool.receive(1), Step::Run(3)));
    assert_eq!(pool.queued(), 0);
}

#[test]
fn empty_queue_leaves_worker_waiting() {
    let mut pool = WorkerPool::<u32>::new(2).ok().unwrap();
    assert!(matches!(pool.receive(0), Step::Idle));
    assert_eq!(pool.worker_state(0), WorkerState::Waiting);
}

#[test]
fn each_job_runs_exactly_once() {
    let log = Rc::new(RefCell::new(Vec::new()));
    let mut pool = WorkerPool::<Job>::new(3).ok().unwrap();
    for id in 0..10 {
        pool.execute(recorder(&log, id));
    }
    drive(&mut pool);
    let mut ids: Vec<usize> = log.borrow().iter().map(|p| p.0).collect();
    ids.sort();
    assert_eq!(ids, (0..10).collect::<Vec<usize>>());
    assert_eq!(pool.queued(), 0);
}

#[test]
fn teardown_stops_every_worker() {
    let count = Rc::new(RefCell::new(0u32));
    let mut pool = WorkerPool::<Job>::new(3).ok().unwrap();
    for _ in 0..5 {
        let c = Rc::clone(&count);
        pool.execute(Box::new(move |_w: usize| *c.borrow_mut() += 1));
    }
    pool.shut_down();
    assert!(pool.is_stopping());
    assert_eq!(pool.queued(), 8);
    drive(&mut pool);
    assert!(pool.all_exited());
    assert_eq!(pool.queued(), 0);
    assert_eq!(*count.borrow(), 5);
    for w in 0..3 {
        assert_eq!(pool.worker_state(w), WorkerState::Terminated);
    }
    drive(&mut pool);
    assert_eq!(*count.borrow(), 5);
}

#[test]
fn busy_worker_sees_marker_after_its_job() {
    let mut pool = WorkerPool::<u32>::new(2).ok().unwrap();
    pool.execute(5);
    assert!(matches!(pool.receive(0), Step::Run(5)));
    pool.shut_down();
    assert!(matches!(pool.receive(1), Step::Exit));
    assert!(!pool.all_exited());
    assert_eq!(pool.worker_state(0), WorkerState::Executing);
    pool.finish(0);
    assert!(matches!(pool.receive(0), Step::Exit));
    assert!(pool.all_exited());
}

#[test]
fn pending_jobs_run_before_markers() {
    let mut pool = WorkerPool::<u32>::new(1).ok().unwrap();
    pool.execute(1);
    pool.execute(2);
    pool.shut_down();
    assert!(matches!(pool.receive(0), Step::Run(1)));
    pool.finish(0);
    assert!(matches!(pool.receive(0), Step::Run(2)));
    pool.finish(0);
    assert!(matches!(pool.receive(0), Step::Exit));
    assert!(pool.all_exited());
}

#[test]
fn recorded_ids_are_workers_and_completions_match() {
    let log = Rc::new(RefCell::new(Vec::new()));
    let mut pool = WorkerPool::<Job>::new(4).ok().unwrap();
    for id in 0..12 {
        pool.execute(recorder(&log, id));
    }
    drive(&mut pool);
    pool.shut_down();
    drive(&mut pool);
    assert!(pool.all_exited());
    let log = log.borrow();
    assert!(log.iter().all(|p| p.1 < 4));
    let mut ids: Vec<usize> = log.iter().map(|p| p.0).collect();
    ids.sort();
    assert_eq!(ids, (0..12).collect::<Vec<usize>>());
}

#[test]
fn single_worker_keeps_submission_order() {
    let log = Rc::new(RefCell::new(Vec::new()));
    let mut pool = WorkerPool::<Job>::new(1).ok().unwrap();
    for id in 0..6 {
        pool.execute(recorder(&log, id));
    }
    pool.shut_down();
    drive(&mut pool);
    assert!(pool.all_exited());
    let order: Vec<usize> = log.borrow().iter().map(|p| p.0).collect();
    assert_eq!(order, vec![0, 1, 2, 3, 4, 5]);
    assert!(log.borrow().iter().all(|p| p.1 == 0));
}

#[test]
fn two_workers_run_slow_and_fast_jobs_side_by_side() {
    let log: Rc<RefCell<Vec<&'static str>>> = Rc::new(RefCell::new(Vec::new()));
    let mut pool = WorkerPool::<&'static str>::new(2).ok().unwrap();
    pool.execute("A");
    pool.execute("B");
    let a = match pool.receive(0) {
        Step::Run(j) => j,
        _ => panic!("worker 0 should take A"),
    };
    let b = match pool.receive(1) {
        Step::Run(j) => j,
        _ => panic!("worker 1 should take B"),
    };
    assert_eq!(pool.worker_state(0), WorkerState::Executing);
    assert_eq!(pool.worker_state(1), WorkerState::Executing);
    // A is the slow one: B finishes while A still runs.
    log.borrow_mut().push(b);
    pool.finish(1);
    log.borrow_mut().push(a);
    pool.finish(0);
    let mut done = log.borrow().clone();
    done.sort();
    assert_eq!(done, vec!["A", "B"]);
    pool.shut_down();
    assert!(matches!(pool.receive(0), Step::Exit));
    assert!(matches!(pool.receive(1), Step::Exit));
    assert!(pool.all_exited());
}
