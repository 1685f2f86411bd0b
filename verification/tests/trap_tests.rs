use riskyos::interrupt::{s_mode_interrupt_handler, InterruptAction, InterruptKind};
use riskyos::trap::{
    extract_scause, s_mode_asynchronous_handler, s_mode_synchronous_handler, s_mode_trap_handler,
    timer_deadline, TrapAction, TrapCause, TrapFrame,
};

const INTERRUPT: u64 = 1 << 63;

#[test]
fn extract_scause_splits_the_top_bit() {
    assert_eq!(extract_scause(5), (false, 5));
    assert_eq!(extract_scause(INTERRUPT | 5), (true, 5));
    assert_eq!(extract_scause(INTERRUPT), (true, 0));
    assert_eq!(extract_scause(u64::MAX), (true, u64::MAX >> 1));
    assert_eq!(extract_scause(0), (false, 0));
}

#[test]
fn supervisor_timer_rearms_and_keeps_the_program_counter() {
    let out = s_mode_trap_handler(INTERRUPT | 5, 0x8020_0000, 0, 0);
    assert_eq!(out.cause, TrapCause::SupervisorTimerInterrupt);
    assert_eq!(out.action, TrapAction::RearmTimer);
    assert_eq!(out.epc, 0x8020_0000);
    assert_eq!(timer_deadline(1_000), 10_001_000);
}

#[test]
fn load_page_fault_resumes_after_the_instruction() {
    let x: u64 = 0x8020_1234;
    let out = s_mode_trap_handler(13, x, 0xdead_0000, 1);
    assert_eq!(out.cause, TrapCause::LoadPageFault);
    assert_eq!(out.action, TrapAction::Report);
    assert_eq!(out.epc, x + 4);
}

#[test]
fn interrupts_never_move_the_program_counter() {
    for cause in 0..32u64 {
        let out = s_mode_asynchronous_handler(0x1000, 0, cause, 0);
        assert_eq!(out.epc, 0x1000);
    }
}

#[test]
fn interrupt_causes_are_classified() {
    let table = [
        (1, TrapCause::SupervisorSoftwareInterrupt, TrapAction::Report),
        (3, TrapCause::MachineSoftwareInterrupt, TrapAction::Report),
        (5, TrapCause::SupervisorTimerInterrupt, TrapAction::RearmTimer),
        (7, TrapCause::MachineTimerInterrupt, TrapAction::RearmTimer),
        (9, TrapCause::SupervisorExternalInterrupt, TrapAction::Report),
        (11, TrapCause::MachineExternalInterrupt, TrapAction::Report),
        (0, TrapCause::UnhandledInterrupt(0), TrapAction::Halt),
        (2, TrapCause::UnhandledInterrupt(2), TrapAction::Halt),
        (13, TrapCause::UnhandledInterrupt(13), TrapAction::Halt),
    ];
    for (code, cause, action) in table {
        let out = s_mode_asynchronous_handler(0x40, 0, code, 2);
        assert_eq!(out.cause, cause);
        assert_eq!(out.action, action);
    }
}

#[test]
fn exception_causes_are_classified() {
    let table = [
        (2, TrapCause::IllegalInstruction, TrapAction::Halt, 0x40),
        (8, TrapCause::UserEnvironmentCall, TrapAction::Report, 0x44),
        (9, TrapCause::SupervisorEnvironmentCall, TrapAction::Report, 0x44),
        (11, TrapCause::MachineEnvironmentCall, TrapAction::Halt, 0x40),
        (12, TrapCause::InstructionPageFault, TrapAction::Report, 0x44),
        (13, TrapCause::LoadPageFault, TrapAction::Report, 0x44),
        (15, TrapCause::StorePageFault, TrapAction::Report, 0x44),
        (0, TrapCause::UnhandledException(0), TrapAction::Halt, 0x40),
        (5, TrapCause::UnhandledException(5), TrapAction::Halt, 0x40),
        (14, TrapCause::UnhandledException(14), TrapAction::Halt, 0x40),
    ];
    for (code, cause, action, epc) in table {
        let out = s_mode_synchronous_handler(0x40, 0, code, 0);
        assert_eq!(out.cause, cause);
        assert_eq!(out.action, action);
        assert_eq!(out.epc, epc);
    }
}

#[test]
fn the_program_counter_wraps_at_the_top_of_the_address_space() {
    let out = s_mode_synchronous_handler(u64::MAX - 1, 0, 8, 0);
    assert_eq!(out.epc, 2);
    let out = s_mode_synchronous_handler(u64::MAX - 4, 0, 8, 0);
    assert_eq!(out.epc, u64::MAX);
}

#[test]
fn only_the_low_twelve_bits_of_the_cause_count() {
    let out = s_mode_trap_handler(0x1000 | 13, 0x100, 0, 0);
    assert_eq!(out.cause, TrapCause::LoadPageFault);
    let out = s_mode_trap_handler(INTERRUPT | 0x2000 | 5, 0x100, 0, 0);
    assert_eq!(out.cause, TrapCause::SupervisorTimerInterrupt);
}

#[test]
fn a_new_trap_frame_is_zeroed() {
    let f = TrapFrame::new();
    assert!(f.regs.iter().all(|r| *r == 0));
    assert!(f.fregs.iter().all(|r| *r == 0));
    assert_eq!(f.satp, 0);
    assert_eq!(f.trap_stack, 0);
    assert_eq!(f.hartid, 0);
}

#[test]
fn first_stage_handles_only_the_supervisor_timer() {
    let table = [
        (2u64, InterruptKind::IllegalInstruction, InterruptAction::Halt),
        (5, InterruptKind::LoadAccessFault, InterruptAction::Halt),
        (7, InterruptKind::StoreAccessFault, InterruptAction::Halt),
        (INTERRUPT | 5, InterruptKind::SupervisorTimer, InterruptAction::RearmTimer),
        (INTERRUPT | 2, InterruptKind::Unhandled, InterruptAction::Halt),
        (INTERRUPT | 7, InterruptKind::Unhandled, InterruptAction::Halt),
        (13, InterruptKind::Unhandled, InterruptAction::Halt),
        (0, InterruptKind::Unhandled, InterruptAction::Halt),
    ];
    for (scause, kind, action) in table {
        let out = s_mode_interrupt_handler(scause);
        assert_eq!(out.kind, kind);
        assert_eq!(out.action, action);
        assert_eq!(out.is_interrupt, scause >> 63 == 1);
        assert_eq!(out.cause, scause & !INTERRUPT);
    }
}
