use vstd::prelude::*;
use std::sync::Arc;
use std::sync::atomic::AtomicBool;
use std::sync::atomic::Ordering;

verus! {

/// Shared cancellation flag.
///
/// Producers (a signal handler, a server loop) flip the flag with a
/// sequentially-consistent store; consumers poll it with a relaxed load.
/// The flag lives behind an `Arc`, so clones observe the same flag.
/// To the verifier the polled value is unconstrained: another thread may
/// flip it at any time, so every caller must handle either answer.
#[derive(Clone, Debug)]
pub struct CancelToken {
    flag: Arc<AtomicBool>,
}

impl CancelToken {
    /// A fresh token whose flag starts unset.
    pub fn new() -> CancelToken {
        CancelToken { flag: Arc::new(AtomicBool::new(false)) }
    }

    /// Polls the flag. The result is deliberately unspecified: the flag is
    /// shared with unverified producers and may change between two polls.
    pub fn is_cancelled(&self) -> bool {
        self.flag.load(Ordering::Relaxed)
    }

    /// Requests cancellation: every later poll of any clone of this token
    /// observes the store once it propagates.
    pub fn cancel(&self) {
        self.flag.store(true, Ordering::SeqCst);
    }
}

} // verus!
