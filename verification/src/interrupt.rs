//! The first-stage trap entry: the handful of causes that are told apart
//! while the kernel comes up.

use crate::trap::{extract_scause, INTERRUPT_BIT};
use vstd::prelude::*;

verus! {

/// What a trap is taken for at this stage.
#[derive(Debug, Clone, Copy, PartialEq, Eq, Structural)]
pub enum InterruptKind {
    IllegalInstruction,
    LoadAccessFault,
    SupervisorTimer,
    StoreAccessFault,
    Unhandled,
}

/// What is to be done about a trap at this stage.
#[derive(Debug, Clone, Copy, PartialEq, Eq, Structural)]
pub enum InterruptAction {
    /// Clear the pending timer interrupt and program the next deadline.
    RearmTimer,
    /// Report the trap and halt.
    Halt,
}

/// The answer to one trap: whether it is an interrupt, its code, what it was
/// taken for and what to do.
#[derive(Debug, Clone, Copy, PartialEq, Eq, Structural)]
pub struct InterruptOutcome {
    pub is_interrupt: bool,
    pub cause: u64,
    pub kind: InterruptKind,
    pub action: InterruptAction,
}

/// What a cause stands for: of the interrupts only the supervisor timer is
/// handled, of the exceptions none.
pub open spec fn interrupt_kind(is_interrupt: bool, cause: u64) -> InterruptKind {
    if !is_interrupt && cause == 2 {
        InterruptKind::IllegalInstruction
    } else if !is_interrupt && cause == 5 {
        InterruptKind::LoadAccessFault
    } else if is_interrupt && cause == 5 {
        InterruptKind::SupervisorTimer
    } else if !is_interrupt && cause == 7 {
        InterruptKind::StoreAccessFault
    } else {
        InterruptKind::Unhandled
    }
}

/// The trap entry of the first stage: the supervisor timer interrupt rearms
/// the timer, every other cause halts.
pub fn s_mode_interrupt_handler(scause: u64) -> (r: InterruptOutcome)
    ensures
        r.is_interrupt == (scause >= INTERRUPT_BIT),
        r.cause == if scause >= INTERRUPT_BIT {
            scause - INTERRUPT_BIT
        } else {
            scause as int
        },
        r.kind == interrupt_kind(r.is_interrupt, r.cause),
        r.action == if r.kind == InterruptKind::SupervisorTimer {
            InterruptAction::RearmTimer
        } else {
            InterruptAction::Halt
        },
{
    let (is_interrupt, cause) = extract_scause(scause);
    let (kind, action) = match (is_interrupt, cause) {
        (false, 0x2) => (InterruptKind::IllegalInstruction, InterruptAction::Halt),
        (false, 0x5) => (InterruptKind::LoadAccessFault, InterruptAction::Halt),
        (true, 0x5) => (InterruptKind::SupervisorTimer, InterruptAction::RearmTimer),
        (false, 0x7) => (InterruptKind::StoreAccessFault, InterruptAction::Halt),
        _ => (InterruptKind::Unhandled, InterruptAction::Halt),
    };
    InterruptOutcome { is_interrupt, cause, kind, action }
}

} // verus!
