use std::io;
use std::sync::mpsc;
use std::sync::Arc;
use std::sync::Mutex;
use thread_pool::{Message, ThreadPool, Worker, WorkerState};

type Job = Box<dyn FnOnce() + Send + 'static>;

fn write_to_stdout(stdout: &mut dyn io::Write, thing: &str) {
    stdout.write_all(format!("{}\n", thing).as_bytes()).unwrap();
}

/// Lets worker `id` take one message; runs it if it is a job. Returns
/// whether the worker keeps serving.
fn step(pool: &mut ThreadPool<Job>, id: usize) -> bool {
    match pool.receive(id) {
        Message::NewJob(job) => {
            job();
            true
        }
        Message::Terminate => false,
    }
}

/// Sends the terminate signals, lets worker 0 drain the queue, then the
/// other workers take their signals, and every thread handle is taken.
fn teardown(pool: &mut ThreadPool<Job>) {
    pool.shutdown();
    for id in 0..pool.size() {
        while pool.has_message() && step(pool, id) {}
    }
    for id in 0..pool.size() {
        assert!(pool.take_thread(id));
    }
}

#[test]
fn test_thread_pool_new() {
    let pool: ThreadPool<Job> = ThreadPool::new(10);

    assert_eq!(pool.size(), 10);
}

#[test]
fn test_thread_execute() {
    let mut pool = ThreadPool::new(1);
    let mut stdout = Vec::new();

    let x = {
        write_to_stdout(&mut stdout, "...processing task 1");
        write_to_stdout(&mut stdout, "...processing task 2");
    };

    let consume_fn = move || x;
    pool.execute(consume_fn);

    assert_eq!(stdout, b"...processing task 1\n...processing task 2\n");
}

#[test]
fn test_worker_new() {
    let mut pool = ThreadPool::new(1);
    let mut stdout = Vec::new();
    let (_sender, receiver) = mpsc::channel::<u8>();
    let _receiver = Arc::new(Mutex::new(receiver));

    let worker = Worker::new(5);
    assert_eq!(worker.id(), 5);
    assert_eq!(worker.state(), WorkerState::Running);

    let x = {
        write_to_stdout(&mut stdout, "...processing task 1");
        write_to_stdout(&mut stdout, "...processing task 2");
    };

    let consume_fn = move || x;
    pool.execute(consume_fn);

    assert_eq!(stdout, b"...processing task 1\n...processing task 2\n");
}

#[test]
fn new_pool_has_running_workers_and_empty_queue() {
    let pool: ThreadPool<Job> = ThreadPool::new(3);
    assert_eq!(pool.size(), 3);
    for id in 0..3 {
        assert_eq!(pool.worker_state(id), WorkerState::Running);
    }
    assert!(!pool.has_message());
    assert!(!pool.is_shutting_down());
}

#[test]
fn each_no_op_job_runs_exactly_once() {
    let runs = Arc::new(Mutex::new(vec![0u32; 20]));
    let mut pool: ThreadPool<Job> = ThreadPool::new(4);
    for n in 0..20 {
        let runs = Arc::clone(&runs);
        pool.execute(Box::new(move || runs.lock().unwrap()[n] += 1));
    }
    teardown(&mut pool);
    assert!(!pool.has_message());
    assert_eq!(*runs.lock().unwrap(), vec![1u32; 20]);
}

#[test]
fn token_in_sink_exactly_once_after_teardown() {
    let sink = Arc::new(Mutex::new(Vec::<String>::new()));
    let mut pool: ThreadPool<Job> = ThreadPool::new(2);
    let s = Arc::clone(&sink);
    pool.execute(Box::new(move || s.lock().unwrap().push("token".to_string())));
    teardown(&mut pool);
    assert_eq!(*sink.lock().unwrap(), vec!["token".to_string()]);
}

#[test]
fn shutdown_sends_one_signal_per_worker_and_joins_each_once() {
    let mut pool: ThreadPool<u32> = ThreadPool::new(3);
    pool.shutdown();
    assert!(pool.is_shutting_down());
    let mut signals = 0;
    for id in 0..3 {
        match pool.receive(id) {
            Message::Terminate => signals += 1,
            Message::NewJob(_) => panic!("no job was submitted"),
        }
        assert_eq!(pool.worker_state(id), WorkerState::Terminated);
    }
    assert_eq!(signals, 3);
    assert!(!pool.has_message());
    for id in 0..3 {
        assert!(pool.take_thread(id));
        assert_eq!(pool.worker_state(id), WorkerState::Joined);
        assert!(!pool.take_thread(id));
    }
}

#[test]
fn terminate_signals_queue_behind_jobs() {
    let mut pool: ThreadPool<u32> = ThreadPool::new(2);
    pool.execute(7);
    pool.shutdown();
    assert!(matches!(pool.receive(1), Message::NewJob(7)));
    assert!(matches!(pool.receive(1), Message::Terminate));
    assert!(matches!(pool.receive(0), Message::Terminate));
    assert!(!pool.has_message());
}

#[test]
fn jobs_are_dispatched_to_more_than_one_worker() {
    let mut pool: ThreadPool<u32> = ThreadPool::new(2);
    for n in 0..8 {
        pool.execute(n);
    }
    let mut seen: Vec<(usize, u32)> = Vec::new();
    for n in 0..8 {
        let id = n % 2;
        if let Message::NewJob(j) = pool.receive(id) {
            seen.push((id, j));
        }
    }
    assert_eq!(seen.len(), 8);
    assert!(seen.iter().any(|&(id, _)| id == 0));
    assert!(seen.iter().any(|&(id, _)| id == 1));
    let jobs: Vec<u32> = seen.iter().map(|&(_, j)| j).collect();
    assert_eq!(jobs, (0..8).collect::<Vec<u32>>());
}

#[test]
fn single_worker_runs_jobs_in_submission_order() {
    let sink = Arc::new(Mutex::new(Vec::<&'static str>::new()));
    let mut pool: ThreadPool<Job> = ThreadPool::new(1);
    let a = Arc::clone(&sink);
    pool.execute(Box::new(move || a.lock().unwrap().push("A")));
    let b = Arc::clone(&sink);
    pool.execute(Box::new(move || b.lock().unwrap().push("B")));
    teardown(&mut pool);
    assert_eq!(*sink.lock().unwrap(), vec!["A", "B"]);
}
