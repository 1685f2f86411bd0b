//! Classification and dispatch of supervisor-mode traps.
//!
//! The dispatcher is a function from the trap registers to an outcome: which
//! cause was recognized, what is to be done about it, and where execution
//! resumes. Carrying the outcome out is the caller's part.

use vstd::prelude::*;

verus! {

/// Ticks between two timer interrupts.
pub const TIMER_INTERVAL: u64 = 10_000_000;

/// Bytes of the instruction that a recoverable exception steps over.
pub const INSTRUCTION_WIDTH: u64 = 4;

/// The bit of the cause register that tells interrupts from exceptions.
pub const INTERRUPT_BIT: u64 = 0x8000_0000_0000_0000;

/// Extract the trap bit and the cause from the scause register.
/// Returns `(is_async, cause)`.
pub fn extract_scause(scause: u64) -> (r: (bool, u64))
    ensures
        r.0 == (scause >= INTERRUPT_BIT),
        r.1 == if scause >= INTERRUPT_BIT {
            scause - INTERRUPT_BIT
        } else {
            scause as int
        },
{
    let interrupt = (scause >> 63) != 0;
    let code = scause & !(1u64 << 63);
    proof {
        assert(((scause >> 63) != 0) == (scause >= 0x8000_0000_0000_0000u64) && (scause
            >= 0x8000_0000_0000_0000u64 ==> scause & !(1u64 << 63) == scause
            - 0x8000_0000_0000_0000u64) && (scause < 0x8000_0000_0000_0000u64 ==> scause & !(1u64
            << 63) == scause)) by (bit_vector);
    }
    (interrupt, code)
}

/// The register save area of one hart.
#[derive(Debug, Clone, Copy)]
pub struct TrapFrame {
    pub regs: [usize; 32],
    pub fregs: [usize; 32],
    pub satp: usize,
    /// Address of the stack that the hart's trap handler runs on.
    pub trap_stack: u64,
    pub hartid: usize,
}

impl TrapFrame {
    pub fn new() -> (r: Self)
        ensures
            forall|i: int| 0 <= i < 32 ==> r.regs[i] == 0,
            forall|i: int| 0 <= i < 32 ==> r.fregs[i] == 0,
            r.satp == 0,
            r.trap_stack == 0,
            r.hartid == 0,
    {
        Self { regs: [0;32], fregs: [0;32], satp: 0, trap_stack: 0, hartid: 0 }
    }
}

/// The causes that the dispatcher tells apart.
#[derive(Debug, Clone, Copy, PartialEq, Eq, Structural)]
pub enum TrapCause {
    SupervisorSoftwareInterrupt,
    MachineSoftwareInterrupt,
    SupervisorTimerInterrupt,
    MachineTimerInterrupt,
    SupervisorExternalInterrupt,
    MachineExternalInterrupt,
    IllegalInstruction,
    UserEnvironmentCall,
    SupervisorEnvironmentCall,
    MachineEnvironmentCall,
    InstructionPageFault,
    LoadPageFault,
    StorePageFault,
    /// An interrupt with a code that is not handled.
    UnhandledInterrupt(u64),
    /// An exception with a code that is not handled.
    UnhandledException(u64),
}

/// What is to be done about a trap.
#[derive(Debug, Clone, Copy, PartialEq, Eq, Structural)]
pub enum TrapAction {
    /// Report the trap and go on.
    Report,
    /// Clear the pending timer interrupt and program the next deadline.
    RearmTimer,
    /// Report the trap and halt: there is no way to go on.
    Halt,
}

/// The dispatcher's answer to one trap.
#[derive(Debug, Clone, Copy, PartialEq, Eq, Structural)]
pub struct TrapOutcome {
    pub cause: TrapCause,
    pub action: TrapAction,
    /// The program counter to write back before returning from the trap.
    pub epc: u64,
}

/// The cause that an interrupt code stands for.
pub open spec fn interrupt_cause(cause: u64) -> TrapCause {
    if cause == 1 {
        TrapCause::SupervisorSoftwareInterrupt
    } else if cause == 3 {
        TrapCause::MachineSoftwareInterrupt
    } else if cause == 5 {
        TrapCause::SupervisorTimerInterrupt
    } else if cause == 7 {
        TrapCause::MachineTimerInterrupt
    } else if cause == 9 {
        TrapCause::SupervisorExternalInterrupt
    } else if cause == 11 {
        TrapCause::MachineExternalInterrupt
    } else {
        TrapCause::UnhandledInterrupt(cause)
    }
}

/// The cause that an exception code stands for.
pub open spec fn exception_cause(cause: u64) -> TrapCause {
    if cause == 2 {
        TrapCause::IllegalInstruction
    } else if cause == 8 {
        TrapCause::UserEnvironmentCall
    } else if cause == 9 {
        TrapCause::SupervisorEnvironmentCall
    } else if cause == 11 {
        TrapCause::MachineEnvironmentCall
    } else if cause == 12 {
        TrapCause::InstructionPageFault
    } else if cause == 13 {
        TrapCause::LoadPageFault
    } else if cause == 15 {
        TrapCause::StorePageFault
    } else {
        TrapCause::UnhandledException(cause)
    }
}

/// What the dispatcher does about each cause: software and external
/// interrupts are reported, timer interrupts rearm the timer, environment
/// calls from the two lower privilege levels and page faults are reported,
/// everything else halts.
pub open spec fn action_for(cause: TrapCause) -> TrapAction {
    match cause {
        TrapCause::SupervisorSoftwareInterrupt => TrapAction::Report,
        TrapCause::MachineSoftwareInterrupt => TrapAction::Report,
        TrapCause::SupervisorTimerInterrupt => TrapAction::RearmTimer,
        TrapCause::MachineTimerInterrupt => TrapAction::RearmTimer,
        TrapCause::SupervisorExternalInterrupt => TrapAction::Report,
        TrapCause::MachineExternalInterrupt => TrapAction::Report,
        TrapCause::IllegalInstruction => TrapAction::Halt,
        TrapCause::UserEnvironmentCall => TrapAction::Report,
        TrapCause::SupervisorEnvironmentCall => TrapAction::Report,
        TrapCause::MachineEnvironmentCall => TrapAction::Halt,
        TrapCause::InstructionPageFault => TrapAction::Report,
        TrapCause::LoadPageFault => TrapAction::Report,
        TrapCause::StorePageFault => TrapAction::Report,
        TrapCause::UnhandledInterrupt(_) => TrapAction::Halt,
        TrapCause::UnhandledException(_) => TrapAction::Halt,
    }
}

/// Whether execution resumes after the trapping instruction rather than at
/// it: so it is for the recoverable exceptions.
pub open spec fn steps_over(cause: TrapCause) -> bool {
    match cause {
        TrapCause::UserEnvironmentCall => true,
        TrapCause::SupervisorEnvironmentCall => true,
        TrapCause::InstructionPageFault => true,
        TrapCause::LoadPageFault => true,
        TrapCause::StorePageFault => true,
        _ => false,
    }
}

/// The address of the instruction after the one at `epc`, in the 64-bit
/// address space of the program counter.
pub open spec fn next_instruction(epc: u64) -> u64 {
    if epc + 4 <= u64::MAX {
        (epc + 4) as u64
    } else {
        (epc + 4 - 0x1_0000_0000_0000_0000) as u64
    }
}

/// The outcome for a recognized cause at program counter `epc`.
pub open spec fn outcome_for(cause: TrapCause, epc: u64) -> TrapOutcome {
    TrapOutcome {
        cause,
        action: action_for(cause),
        epc: if steps_over(cause) {
            next_instruction(epc)
        } else {
            epc
        },
    }
}

fn step_over(epc: u64) -> (r: u64)
    ensures
        r == next_instruction(epc),
{
    if epc <= u64::MAX - INSTRUCTION_WIDTH {
        epc + INSTRUCTION_WIDTH
    } else {
        epc - (u64::MAX - INSTRUCTION_WIDTH + 1)
    }
}

/// Asynchronous trap handler.
/// Returns the cause, what to do about it, and the program counter at
/// which the program should continue execution: always the one it got.
pub fn s_mode_asynchronous_handler(epc: u64, tval: u64, cause: u64, hart: u64) -> (r: TrapOutcome)
    ensures
        r == outcome_for(interrupt_cause(cause), epc),
        r.epc == epc,
{
    let (kind, action) = match cause {
        1 => (TrapCause::SupervisorSoftwareInterrupt, TrapAction::Report),
        3 => (TrapCause::MachineSoftwareInterrupt, TrapAction::Report),
        5 => (TrapCause::SupervisorTimerInterrupt, TrapAction::RearmTimer),
        7 => (TrapCause::MachineTimerInterrupt, TrapAction::RearmTimer),
        9 => (TrapCause::SupervisorExternalInterrupt, TrapAction::Report),
        11 => (TrapCause::MachineExternalInterrupt, TrapAction::Report),
        _ => (TrapCause::UnhandledInterrupt(cause), TrapAction::Halt),
    };
    TrapOutcome { cause: kind, action, epc }
}

/// Synchronous trap handler.
/// Returns the cause, what to do about it, and the program counter at
/// which the program should continue execution.
pub fn s_mode_synchronous_handler(epc: u64, tval: u64, cause: u64, hart: u64) -> (r: TrapOutcome)
    ensures
        r == outcome_for(exception_cause(cause), epc),
{
    let mut epc_return = epc;
    let (kind, action) = match cause {
        2 => (TrapCause::IllegalInstruction, TrapAction::Halt),
        8 => {
            epc_return = step_over(epc);
            (TrapCause::UserEnvironmentCall, TrapAction::Report)
        },
        9 => {
            epc_return = step_over(epc);
            (TrapCause::SupervisorEnvironmentCall, TrapAction::Report)
        },
        11 => (TrapCause::MachineEnvironmentCall, TrapAction::Halt),
        12 => {
            epc_return = step_over(epc);
            (TrapCause::InstructionPageFault, TrapAction::Report)
        },
        13 => {
            epc_return = step_over(epc);
            (TrapCause::LoadPageFault, TrapAction::Report)
        },
        15 => {
            epc_return = step_over(epc);
            (TrapCause::StorePageFault, TrapAction::Report)
        },
        _ => (TrapCause::UnhandledException(cause), TrapAction::Halt),
    };
    TrapOutcome { cause: kind, action, epc: epc_return }
}

/// The cause code that the dispatcher looks at: the low twelve bits of what
/// the cause register holds beside its interrupt bit.
pub open spec fn cause_code(scause: u64) -> u64 {
    ((if scause >= INTERRUPT_BIT {
        scause - INTERRUPT_BIT
    } else {
        scause as int
    }) % 4096) as u64
}

/// The single entry point for every trap: splits the cause register, and
/// hands interrupts and exceptions to their handlers. The outcome's program
/// counter is to be written back before the trap returns.
pub fn s_mode_trap_handler(scause: u64, sepc: u64, stval: u64, hart: u64) -> (r: TrapOutcome)
    ensures
        r == if scause >= INTERRUPT_BIT {
            outcome_for(interrupt_cause(cause_code(scause)), sepc)
        } else {
            outcome_for(exception_cause(cause_code(scause)), sepc)
        },
{
    let (is_async, cause) = extract_scause(scause);
    let code = cause & 0xfff;
    proof {
        assert(cause & 0xfff == cause % 4096) by (bit_vector);
    }
    if is_async {
        s_mode_asynchronous_handler(sepc, stval, code, hart)
    } else {
        s_mode_synchronous_handler(sepc, stval, code, hart)
    }
}

/// The deadline to program when the timer fired at time `now`.
pub fn timer_deadline(now: u64) -> (r: u64)
    requires
        now + TIMER_INTERVAL <= u64::MAX,
    ensures
        r == now + TIMER_INTERVAL,
{
    now + TIMER_INTERVAL
}

} // verus!
