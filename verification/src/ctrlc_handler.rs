//! Cooperative cancellation: a process-wide flag that an interrupt
//! handler sets and the evaluator checks (and clears) between steps.
//!
//! The library only reads and writes the flag; installing the actual
//! signal handler is I/O and happens outside it, through a clone of the
//! handle.

use vstd::prelude::*;

use std::sync::Arc;
use std::sync::atomic::{AtomicBool, Ordering};

verus! {

/// A shared cancellation flag.
#[derive(Clone)]
pub struct CtrlCHandler {
    was_pressed: Arc<AtomicBool>,
}

/// The error that reports a caught cancellation.
#[derive(Clone, Copy, Debug, PartialEq, Eq, Structural)]
pub struct CtrlCError;

impl CtrlCHandler {
    /// A handler whose flag no signal sets; tests press it by hand.
    pub fn mock() -> CtrlCHandler {
        CtrlCHandler { was_pressed: Arc::new(AtomicBool::new(false)) }
    }

    /// Set the flag, as the interrupt handler does.
    pub fn press(&self) {
        self.was_pressed.store(true, Ordering::SeqCst);
    }

    /// Check and clear the flag: an error exactly when it was set. The
    /// outcome depends on interrupts delivered meanwhile, so nothing
    /// more is promised.
    pub fn catch(&self) -> Result<(), CtrlCError> {
        if self.was_pressed.swap(false, Ordering::SeqCst) {
            Err(CtrlCError)
        } else {
            Ok(())
        }
    }
}

} // verus!
