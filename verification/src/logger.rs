//! The logging sink: a byte-oriented writer that may fail.

use crate::sbi::SbiError;
use vstd::prelude::*;

verus! {

/// `core::fmt::Error`, the error of a failed write. It carries nothing.
#[verifier::external_type_specification]
#[verifier::external_body]
pub struct ExFmtError(core::fmt::Error);

/// A sink for log output. Implementations decide where the bytes go; a
/// write either takes all of them or fails.
pub trait Logger {
    fn write(&self, bytes: &[u8]) -> Result<(), core::fmt::Error>;
}

/// What a writer that sends its bytes one by one through the firmware does
/// next.
#[derive(Debug, Clone, Copy, PartialEq, Eq, Structural)]
pub enum LogStep {
    /// Send this byte.
    Send(u8),
    /// All bytes were sent.
    Done,
    /// The last byte was refused: give up.
    Failed,
}

/// The next step of writing `bytes` after `sent` of them were sent, where
/// `last` is the firmware's answer to the latest of them: the write fails
/// at the first answer that is not success, and is done when no byte is
/// left.
pub fn log_step(bytes: &[u8], sent: usize, last: Option<SbiError>) -> (r: LogStep)
    ensures
        r == if last is Some && last != Some(SbiError::Success) {
            LogStep::Failed
        } else if sent < bytes@.len() {
            LogStep::Send(bytes@[sent as int])
        } else {
            LogStep::Done
        },
{
    match last {
        Some(SbiError::Success) | None => {
            if sent < bytes.len() {
                LogStep::Send(bytes[sent])
            } else {
                LogStep::Done
            }
        },
        Some(_) => LogStep::Failed,
    }
}

} // verus!
