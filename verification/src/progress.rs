//! How far a long copy has come, shared between the worker and the window.
use vstd::prelude::*;

use std::sync::atomic::AtomicU64;
use std::sync::atomic::Ordering;

verus! {

/// Bytes done out of bytes expected. Both counts are atomics that a worker bumps
/// while the window reads them; what a read returns depends on how the threads
/// interleave, so no read is given a value.
#[derive(Debug, Default)]
pub struct Progress {
    done: AtomicU64,
    total: AtomicU64,
}

impl Progress {
    /// Starts counting a new operation of `total` bytes.
    pub fn start(&self, total: u64) {
        self.total.store(total, Ordering::Relaxed);
        self.done.store(0, Ordering::Relaxed);
    }

    /// Adds `more` bytes to what is expected.
    pub fn expect(&self, more: u64) {
        self.total.fetch_add(more, Ordering::Relaxed);
    }

    /// Counts `bytes` more as done.
    pub fn add(&self, bytes: u64) {
        self.done.fetch_add(bytes, Ordering::Relaxed);
    }

    /// Forgets the last operation.
    pub fn clear(&self) {
        self.total.store(0, Ordering::Relaxed);
        self.done.store(0, Ordering::Relaxed);
    }

    /// The bytes counted as done.
    pub fn done(&self) -> u64 {
        self.done.load(Ordering::Relaxed)
    }

    /// The bytes expected.
    pub fn total(&self) -> u64 {
        self.total.load(Ordering::Relaxed)
    }
}

} // verus!
