use riskyos::sbi::{
    debug_console_read_call, debug_console_write_byte_call, debug_console_write_call, decode_ret,
    hart_get_status_call, hart_start_call, hart_status_ret, hart_stop_call, hart_suspend_call,
    set_timer_call, split_address, HartState, SbiCall, SbiError, SbiRet, SUSPEND_NON_RETENTIVE,
    SUSPEND_RETENTIVE,
};

#[test]
fn error_codes_map_to_their_variants() {
    let table = [
        (0, SbiError::Success),
        (-1, SbiError::Failed),
        (-2, SbiError::NotSupported),
        (-3, SbiError::InvalidParam),
        (-4, SbiError::Denied),
        (-5, SbiError::InvalidAddress),
        (-6, SbiError::AlreadyAvailable),
        (-7, SbiError::AlreadyStarted),
        (-8, SbiError::AlreadyStopped),
        (-9, SbiError::NoShmem),
        (-10, SbiError::InvalidState),
        (-11, SbiError::BadRange),
        (-12, SbiError::Unknown(-12)),
        (1, SbiError::Unknown(1)),
    ];
    for (code, error) in table {
        assert_eq!(SbiError::new(code), error);
    }
}

#[test]
fn hart_states_map_to_their_variants() {
    let table = [
        (0, HartState::Started),
        (1, HartState::Stopped),
        (2, HartState::StartPending),
        (3, HartState::StopPending),
        (4, HartState::Suspended),
        (5, HartState::SuspendPending),
        (6, HartState::ResumePending),
        (7, HartState::Unknown(7)),
    ];
    for (id, state) in table {
        assert_eq!(HartState::new(id), state);
    }
}

#[test]
fn a_return_pairs_error_and_value() {
    let r = SbiRet::new(SbiError::Denied, 17u8);
    assert_eq!(r.error, SbiError::Denied);
    assert_eq!(r.value, 17);
    let d = decode_ret(-3, 99);
    assert_eq!(d.error, SbiError::InvalidParam);
    assert_eq!(d.value, 99);
    let s = hart_status_ret(decode_ret(0, 4));
    assert_eq!(s.error, SbiError::Success);
    assert_eq!(s.value, HartState::Suspended);
}

#[test]
fn calls_carry_their_registers() {
    let c = SbiCall::new(1, 2, [3, 4, 5, 6, 7, 8]);
    assert_eq!(c.extension_id, 1);
    assert_eq!(c.function_id, 2);
    assert_eq!(c.args, [3, 4, 5, 6, 7, 8]);
    let c = hart_start_call(2, 0x8020_0000, 0xc0ffee);
    assert_eq!(c.extension_id, 0x48534D);
    assert_eq!(c.function_id, 0);
    assert_eq!(c.args, [2, 0x8020_0000, 0xc0ffee, 0, 0, 0]);
    let c = hart_get_status_call(3);
    assert_eq!(c.function_id, 2);
    assert_eq!(c.args, [3, 0, 0, 0, 0, 0]);
    let c = set_timer_call(12345);
    assert_eq!(c.extension_id, 0x54494D45);
    assert_eq!(c.function_id, 0);
    assert_eq!(c.args, [12345, 0, 0, 0, 0, 0]);
}

#[test]
fn an_address_is_its_own_low_part() {
    assert_eq!(split_address(0x1234_5678_9abc_def0), (0x1234_5678_9abc_def0, 0));
}

#[test]
fn hart_stop_and_suspend_calls_carry_their_registers() {
    let c = hart_stop_call();
    assert_eq!(c.extension_id, 0x48534D);
    assert_eq!(c.function_id, 1);
    assert_eq!(c.args, [0, 0, 0, 0, 0, 0]);
    let c = hart_suspend_call(SUSPEND_NON_RETENTIVE, 0x8020_0000, 7);
    assert_eq!(c.extension_id, 0x48534D);
    assert_eq!(c.function_id, 3);
    assert_eq!(c.args, [0x8000_0000, 0x8020_0000, 7, 0, 0, 0]);
    let c = hart_suspend_call(SUSPEND_RETENTIVE, 0, 0);
    assert_eq!(c.args, [0, 0, 0, 0, 0, 0]);
}

#[test]
fn debug_console_calls_carry_length_and_split_address() {
    let c = debug_console_write_call(12, 0x8020_1000);
    assert_eq!(c.extension_id, 0x4442434E);
    assert_eq!(c.function_id, 0);
    assert_eq!(c.args, [12, 0x8020_1000, 0, 0, 0, 0]);
    let c = debug_console_read_call(64, 0x8020_2000);
    assert_eq!(c.extension_id, 0x4442434E);
    assert_eq!(c.function_id, 1);
    assert_eq!(c.args, [64, 0x8020_2000, 0, 0, 0, 0]);
    let c = debug_console_write_byte_call(b'A');
    assert_eq!(c.extension_id, 0x4442434E);
    assert_eq!(c.function_id, 2);
    assert_eq!(c.args, [65, 0, 0, 0, 0, 0]);
}
