//! The firmware call interface: what a call is made of and how its answer
//! is read. Making the call itself is left to the caller.

use vstd::prelude::*;

verus! {

pub const HSM_EID: usize = 0x48534D;

pub const HSM_EID_HART_START_FID: usize = 0;

pub const HSM_EID_HART_STOP_FID: usize = 1;

pub const HSM_EID_HART_GET_STATUS_FID: usize = 2;

pub const HSM_EID_HART_SUSPEND_FID: usize = 3;

/// The suspend type that keeps the hart's state.
pub const SUSPEND_RETENTIVE: u32 = 0x00000000;

/// The suspend type that gives the hart's state up.
pub const SUSPEND_NON_RETENTIVE: u32 = 0x80000000;

pub const TIME_EID: usize = 0x54494D45;

pub const TIME_EID_SET_TIMER_FID: usize = 0;

pub const DBCN_EID: usize = 0x4442434E;

pub const DBCN_EID_WRITE_FID: usize = 0;

pub const DBCN_EID_READ_FID: usize = 1;

pub const DBCN_EID_WRITE_BYTE_FID: usize = 2;

/// The error vocabulary of the firmware.
#[derive(Debug, Clone, Copy, PartialEq, Eq, Structural)]
pub enum SbiError {
    Success,
    Failed,
    NotSupported,
    InvalidParam,
    Denied,
    InvalidAddress,
    AlreadyAvailable,
    AlreadyStarted,
    AlreadyStopped,
    NoShmem,
    InvalidState,
    BadRange,
    Unknown(isize),
}

impl SbiError {
    /// The error that a code stands for.
    pub open spec fn of_code(error_code: isize) -> SbiError {
        if error_code == 0 {
            SbiError::Success
        } else if error_code == -1 {
            SbiError::Failed
        } else if error_code == -2 {
            SbiError::NotSupported
        } else if error_code == -3 {
            SbiError::InvalidParam
        } else if error_code == -4 {
            SbiError::Denied
        } else if error_code == -5 {
            SbiError::InvalidAddress
        } else if error_code == -6 {
            SbiError::AlreadyAvailable
        } else if error_code == -7 {
            SbiError::AlreadyStarted
        } else if error_code == -8 {
            SbiError::AlreadyStopped
        } else if error_code == -9 {
            SbiError::NoShmem
        } else if error_code == -10 {
            SbiError::InvalidState
        } else if error_code == -11 {
            SbiError::BadRange
        } else {
            SbiError::Unknown(error_code)
        }
    }

    pub fn new(error_code: isize) -> (r: Self)
        ensures
            r == Self::of_code(error_code),
    {
        match error_code {
            0 => Self::Success,
            -1 => Self::Failed,
            -2 => Self::NotSupported,
            -3 => Self::InvalidParam,
            -4 => Self::Denied,
            -5 => Self::InvalidAddress,
            -6 => Self::AlreadyAvailable,
            -7 => Self::AlreadyStarted,
            -8 => Self::AlreadyStopped,
            -9 => Self::NoShmem,
            -10 => Self::InvalidState,
            -11 => Self::BadRange,
            code => Self::Unknown(code),
        }
    }
}

/// The answer of the firmware: an error and a value.
#[derive(Debug, Clone)]
pub struct SbiRet<T> {
    pub error: SbiError,
    pub value: T,
}

impl<T> SbiRet<T> {
    pub fn new(error: SbiError, value: T) -> (r: Self)
        ensures
            r.error == error,
            r.value == value,
    {
        Self { error, value }
    }
}

/// The answer that the two result registers of a call stand for.
pub fn decode_ret(error: isize, value: usize) -> (r: SbiRet<usize>)
    ensures
        r.error == SbiError::of_code(error),
        r.value == value,
{
    SbiRet::new(SbiError::new(error), value)
}

/// One firmware call: the extension, the function and six argument registers.
#[derive(Debug, Clone)]
pub struct SbiCall {
    pub extension_id: usize,
    pub function_id: usize,
    pub args: [usize; 6],
}

impl SbiCall {
    pub fn new(extension_id: usize, function_id: usize, args: [usize; 6]) -> (r: Self)
        ensures
            r.extension_id == extension_id,
            r.function_id == function_id,
            r.args == args,
    {
        Self { extension_id, function_id, args }
    }
}

/// The state of a hart as the firmware reports it.
#[derive(Debug, Clone, Copy, PartialEq, Eq, Structural)]
pub enum HartState {
    Started,
    Stopped,
    StartPending,
    StopPending,
    Suspended,
    SuspendPending,
    ResumePending,
    Unknown(usize),
}

impl HartState {
    /// The state that an identifier stands for.
    pub open spec fn of_id(state_id: usize) -> HartState {
        if state_id == 0 {
            HartState::Started
        } else if state_id == 1 {
            HartState::Stopped
        } else if state_id == 2 {
            HartState::StartPending
        } else if state_id == 3 {
            HartState::StopPending
        } else if state_id == 4 {
            HartState::Suspended
        } else if state_id == 5 {
            HartState::SuspendPending
        } else if state_id == 6 {
            HartState::ResumePending
        } else {
            HartState::Unknown(state_id)
        }
    }

    pub fn new(state_id: usize) -> (r: Self)
        ensures
            r == Self::of_id(state_id),
    {
        match state_id {
            0 => Self::Started,
            1 => Self::Stopped,
            2 => Self::StartPending,
            3 => Self::StopPending,
            4 => Self::Suspended,
            5 => Self::SuspendPending,
            6 => Self::ResumePending,
            state => Self::Unknown(state),
        }
    }
}

/// The call that starts the hart `hartid` at `start_address`, with `opaque`
/// handed to it in a register.
pub fn hart_start_call(hartid: usize, start_address: usize, opaque: usize) -> (r: SbiCall)
    ensures
        r.extension_id == HSM_EID,
        r.function_id == HSM_EID_HART_START_FID,
        r.args@ == seq![hartid, start_address, opaque, 0usize, 0usize, 0usize],
{
    SbiCall::new(HSM_EID, HSM_EID_HART_START_FID, [hartid, start_address, opaque, 0, 0, 0])
}

/// The call that stops the calling hart.
pub fn hart_stop_call() -> (r: SbiCall)
    ensures
        r.extension_id == HSM_EID,
        r.function_id == HSM_EID_HART_STOP_FID,
        r.args@ == seq![0usize, 0usize, 0usize, 0usize, 0usize, 0usize],
{
    SbiCall::new(HSM_EID, HSM_EID_HART_STOP_FID, [0, 0, 0, 0, 0, 0])
}

/// The call that suspends the calling hart in the way that `suspend_type`
/// names, to resume at `resume_address` with `opaque` handed to it in a
/// register.
pub fn hart_suspend_call(suspend_type: u32, resume_address: usize, opaque: usize) -> (r: SbiCall)
    ensures
        r.extension_id == HSM_EID,
        r.function_id == HSM_EID_HART_SUSPEND_FID,
        r.args@ == seq![suspend_type as usize, resume_address, opaque, 0usize, 0usize, 0usize],
{
    SbiCall::new(
        HSM_EID,
        HSM_EID_HART_SUSPEND_FID,
        [suspend_type as usize, resume_address, opaque, 0, 0, 0],
    )
}

/// The call that writes the `num_bytes` bytes at `base_address` to the debug
/// console: the length, and the address split into its low and high part.
pub fn debug_console_write_call(num_bytes: usize, base_address: u64) -> (r: SbiCall)
    requires
        base_address <= usize::MAX,
    ensures
        r.extension_id == DBCN_EID,
        r.function_id == DBCN_EID_WRITE_FID,
        r.args@ == seq![num_bytes, base_address as usize, 0usize, 0usize, 0usize, 0usize],
{
    let (base_addr_lo, base_addr_hi) = split_address(base_address);
    SbiCall::new(
        DBCN_EID,
        DBCN_EID_WRITE_FID,
        [num_bytes, base_addr_lo as usize, base_addr_hi as usize, 0, 0, 0],
    )
}

/// The call that reads up to `num_bytes` bytes from the debug console into
/// the memory at `base_address`.
pub fn debug_console_read_call(num_bytes: usize, base_address: u64) -> (r: SbiCall)
    requires
        base_address <= usize::MAX,
    ensures
        r.extension_id == DBCN_EID,
        r.function_id == DBCN_EID_READ_FID,
        r.args@ == seq![num_bytes, base_address as usize, 0usize, 0usize, 0usize, 0usize],
{
    let (base_addr_lo, base_addr_hi) = split_address(base_address);
    SbiCall::new(
        DBCN_EID,
        DBCN_EID_READ_FID,
        [num_bytes, base_addr_lo as usize, base_addr_hi as usize, 0, 0, 0],
    )
}

/// The call that writes one byte to the debug console.
pub fn debug_console_write_byte_call(byte: u8) -> (r: SbiCall)
    ensures
        r.extension_id == DBCN_EID,
        r.function_id == DBCN_EID_WRITE_BYTE_FID,
        r.args@ == seq![byte as usize, 0usize, 0usize, 0usize, 0usize, 0usize],
{
    SbiCall::new(DBCN_EID, DBCN_EID_WRITE_BYTE_FID, [byte as usize, 0, 0, 0, 0, 0])
}

/// The call that asks for the state of the hart `hartid`.
pub fn hart_get_status_call(hartid: usize) -> (r: SbiCall)
    ensures
        r.extension_id == HSM_EID,
        r.function_id == HSM_EID_HART_GET_STATUS_FID,
        r.args@ == seq![hartid, 0usize, 0usize, 0usize, 0usize, 0usize],
{
    SbiCall::new(HSM_EID, HSM_EID_HART_GET_STATUS_FID, [hartid, 0, 0, 0, 0, 0])
}

/// The answer to a status call, with its value read as a hart state.
pub fn hart_status_ret(result: SbiRet<usize>) -> (r: SbiRet<HartState>)
    ensures
        r.error == result.error,
        r.value == HartState::of_id(result.value),
{
    SbiRet::new(result.error, HartState::new(result.value))
}

/// The call that programs the timer to fire at `stime_value`.
pub fn set_timer_call(stime_value: u64) -> (r: SbiCall)
    requires
        stime_value <= usize::MAX,
    ensures
        r.extension_id == TIME_EID,
        r.function_id == TIME_EID_SET_TIMER_FID,
        r.args@ == seq![stime_value as usize, 0usize, 0usize, 0usize, 0usize, 0usize],
{
    SbiCall::new(TIME_EID, TIME_EID_SET_TIMER_FID, [stime_value as usize, 0, 0, 0, 0, 0])
}

/// Returns the address split up into (lo, hi): on a 64-bit machine the low
/// part is the whole address.
pub fn split_address(address: u64) -> (r: (u64, u64))
    ensures
        r == (address, 0u64),
{
    (address, 0)
}

} // verus!
