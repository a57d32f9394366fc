//! Stop and dump requests, shared between the solver and whatever delivers
//! them (signal handlers, or a caller that wants a clean stop).
//!
//! `stop` — stop cleanly, checkpoint, print a final summary.
//! `dump` — dump a stats snapshot immediately without stopping.
use vstd::prelude::*;
use std::sync::Arc;
use std::sync::atomic::{AtomicBool, AtomicU64};

verus! {

/// Two shared flags and a shared reading of the resident memory in bytes
/// (`0` until one is reported). Another thread may set them at any time, so
/// what a read returns is whatever they hold at that moment.
#[derive(Clone)]
pub struct Interrupt {
    pub stop: Arc<AtomicBool>,
    pub dump: Arc<AtomicBool>,
    pub rss: Arc<AtomicU64>,
}

impl Interrupt {
    pub fn new() -> Interrupt {
        Interrupt {
            stop: Arc::new(AtomicBool::new(false)),
            dump: Arc::new(AtomicBool::new(false)),
            rss: Arc::new(AtomicU64::new(0)),
        }
    }

    pub fn stop_requested(&self) -> bool {
        self.stop.load(std::sync::atomic::Ordering::Relaxed)
    }

    /// Consume a pending dump request.
    pub fn take_dump(&self) -> bool {
        self.dump.swap(false, std::sync::atomic::Ordering::Relaxed)
    }

    /// Programmatic equivalent of the stop signal.
    pub fn request_stop(&self) {
        self.stop.store(true, std::sync::atomic::Ordering::Relaxed);
    }

    /// The latest resident-memory reading, in bytes; `0` if none.
    pub fn rss_reading(&self) -> u64 {
        self.rss.load(std::sync::atomic::Ordering::Relaxed)
    }

    /// Report a resident-memory reading, in bytes.
    pub fn report_rss(&self, bytes: u64) {
        self.rss.store(bytes, std::sync::atomic::Ordering::Relaxed);
    }

    /// Programmatic equivalent of the dump signal.
    pub fn request_dump(&self) {
        self.dump.store(true, std::sync::atomic::Ordering::Relaxed);
    }
}

} // verus!
