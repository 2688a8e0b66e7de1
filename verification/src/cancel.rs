//! Shared cancellation flag.

use std::sync::atomic::{AtomicBool, Ordering};
use std::sync::Arc;

use vstd::prelude::*;

use crate::error::Error;

verus! {

/// Shared cancellation flag. A clone points at the same state: call `cancel()` from any thread (e.g. from a Ctrl+C
/// handler) and a running phonemization kills its subprocesses, a synthesis stops between chunks, and both return
/// `Error::Cancelled`. A single ONNX inference or a file download cannot be interrupted.
#[derive(Clone, Debug, Default)]
pub struct CancelToken(Arc<AtomicBool>);

/// The answer of `CancelToken::check` for a flag that reads `cancelled`.
pub fn cancel_outcome(cancelled: bool) -> (r: Result<(), Error>)
    ensures
        r is Ok <==> !cancelled,
        r matches Err(e) ==> e is Cancelled,
{
    if cancelled {
        Err(Error::Cancelled)
    } else {
        Ok(())
    }
}

/// Whether one of `tokens` reads as cancelled: the flags are read in order, up to the first that is set; no token,
/// no cancellation.
pub fn any_cancelled(tokens: &[&CancelToken]) -> (r: bool)
    ensures
        tokens.len() == 0 ==> !r,
{
    let mut i: usize = 0;
    while i < tokens.len()
        invariant
            i <= tokens.len(),
        decreases tokens.len() - i,
    {
        if tokens[i].is_cancelled() {
            return true;
        }
        i += 1;
    }
    false
}

impl CancelToken {
    /// A fresh, not cancelled token.
    pub fn new() -> Self {
        CancelToken(Arc::new(AtomicBool::new(false)))
    }

    /// Sets the shared flag; every clone sees it from now on.
    pub fn cancel(&self) {
        self.0.store(true, Ordering::SeqCst);
    }

    /// Reads the shared flag. Another thread may set it at any moment, so the answer is whatever the flag held when
    /// it was read.
    pub fn is_cancelled(&self) -> bool {
        self.0.load(Ordering::SeqCst)
    }

    /// `Err(Error::Cancelled)` when the flag is set, `Ok(())` otherwise.
    pub fn check(&self) -> (r: Result<(), Error>)
        ensures
            r matches Err(e) ==> e is Cancelled,
    {
        let c = self.is_cancelled();
        cancel_outcome(c)
    }
}

} // verus!
