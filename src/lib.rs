use vstd::prelude::*;

mod pool;

pub use pool::{
    jobs_of, lemma_delivered_in_order, lemma_one_signal_per_worker, lemma_teardown_complete,
    stopped_count, terminate_signals, terminates_in, Message, PoolModel, ThreadPool, Worker,
    WorkerState,
};
