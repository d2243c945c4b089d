use vstd::prelude::*;
use vstd::string::StringSliceAdditionalSpecFns;
use crate::error::VmError;
use crate::simulator::{
    ExitCode, Simulator, STDERR, STDIN, STDOUT, JOURNAL, REG_A0, REG_A1, REG_A3, REG_A4, REG_A5,
    range_in_window,
};

verus! {

pub const SYS_RANDOM: &'static str = "risc0_zkvm_platform::syscall::nr::SYS_RANDOM";
pub const SYS_CYCLE_COUNT: &'static str = "risc0_zkvm_platform::syscall::nr::SYS_CYCLE_COUNT";
pub const SYS_PANIC: &'static str = "risc0_zkvm_platform::syscall::nr::SYS_PANIC";
pub const SYS_GETENV: &'static str = "risc0_zkvm_platform::syscall::nr::SYS_GETENV";
pub const SYS_READ: &'static str = "risc0_zkvm_platform::syscall::nr::SYS_READ";
pub const SYS_READ_AVAIL: &'static str = "risc0_zkvm_platform::syscall::nr::SYS_READ_AVAIL";
pub const SYS_WRITE: &'static str = "risc0_zkvm_platform::syscall::nr::SYS_WRITE";
pub const SYS_LOG: &'static str = "risc0_zkvm_platform::syscall::nr::SYS_LOG";
pub const SYS_VERIFY: &'static str = "risc0_zkvm_platform::syscall::nr::SYS_VERIFY";
pub const SYS_VERIFY_INTEGRITY: &'static str = "risc0_zkvm_platform::syscall::nr::SYS_VERIFY_INTEGRITY";
pub const SYS_ARGC: &'static str = "risc0_zkvm_platform::syscall::nr::SYS_ARGC";
pub const SYS_ARGS: &'static str = "risc0_zkvm_platform::syscall::nr::SYS_ARGS";

/// The host calls, by the name the guest gives.
#[derive(Clone, Copy, Debug, PartialEq, Eq, Structural)]
pub enum HostCall {
    Random,
    CycleCount,
    Panic,
    GetEnv,
    Read,
    ReadAvail,
    Write,
    Log,
    Verify,
    ArgC,
    ArgS,
    Unknown,
}

/// The host call that `name` selects; names are matched exactly, in this order.
pub open spec fn host_call(name: Seq<u8>) -> HostCall {
    if name == SYS_RANDOM.spec_bytes() {
        HostCall::Random
    } else if name == SYS_CYCLE_COUNT.spec_bytes() {
        HostCall::CycleCount
    } else if name == SYS_PANIC.spec_bytes() {
        HostCall::Panic
    } else if name == SYS_GETENV.spec_bytes() {
        HostCall::GetEnv
    } else if name == SYS_READ.spec_bytes() {
        HostCall::Read
    } else if name == SYS_READ_AVAIL.spec_bytes() {
        HostCall::ReadAvail
    } else if name == SYS_WRITE.spec_bytes() {
        HostCall::Write
    } else if name == SYS_LOG.spec_bytes() {
        HostCall::Log
    } else if name == SYS_VERIFY.spec_bytes() {
        HostCall::Verify
    } else if name == SYS_VERIFY_INTEGRITY.spec_bytes() {
        HostCall::Verify
    } else if name == SYS_ARGC.spec_bytes() {
        HostCall::ArgC
    } else if name == SYS_ARGS.spec_bytes() {
        HostCall::ArgS
    } else {
        HostCall::Unknown
    }
}

/// Whether the bytes are well-formed UTF-8.
pub uninterp spec fn utf8_valid(b: Seq<u8>) -> bool;

/// Relies on String::from_utf8: it succeeds exactly on well-formed UTF-8, keeping the bytes.
#[verifier::external_body]
pub(crate) fn utf8_text(b: &[u8]) -> (r: Option<String>)
    ensures
        r.is_some() == utf8_valid(b@),
{
    String::from_utf8(b.to_vec()).ok()
}

/// Relies on getrandom::getrandom: it fills the whole buffer from the host's random source,
/// or fails; nothing is promised of the bytes.
#[verifier::external_body]
fn fill_random(buf: &mut Vec<u8>) -> (r: bool)
    ensures
        final(buf)@.len() == old(buf)@.len(),
{
    getrandom::getrandom(buf.as_mut_slice()).is_ok()
}

/// Whether `a` and `b` hold the same bytes.
pub fn bytes_eq(a: &[u8], b: &[u8]) -> (r: bool)
    ensures
        r == (a@ == b@),
{
    if a.len() != b.len() {
        return false;
    }
    let mut i: usize = 0;
    while i < a.len()
        invariant
            i <= a.len(),
            a.len() == b.len(),
            forall|j: int| 0 <= j < i ==> a@[j] == b@[j],
        decreases a.len() - i,
    {
        if a[i] != b[i] {
            return false;
        }
        i += 1;
    }
    assert(a@ =~= b@);
    true
}

/// Whether `name` is the byte string of `lit`.
fn name_is(name: &[u8], lit: &str) -> (r: bool)
    ensures
        r == (name@ == lit.spec_bytes()),
{
    bytes_eq(name, lit.as_bytes())
}

/// Copies as much of `src` as fits to the front of `dst`; returns how many bytes.
pub fn copy_prefix(dst: &mut Vec<u8>, src: &[u8]) -> (n: usize)
    ensures
        n == if old(dst)@.len() <= src@.len() {
            old(dst)@.len()
        } else {
            src@.len()
        },
        final(dst)@.len() == old(dst)@.len(),
        final(dst)@.take(n as int) == src@.take(n as int),
        final(dst)@.skip(n as int) == old(dst)@.skip(n as int),
{
    let n = if dst.len() <= src.len() {
        dst.len()
    } else {
        src.len()
    };
    let mut i: usize = 0;
    while i < n
        invariant
            i <= n,
            n <= dst.len(),
            n <= src.len(),
            dst@.len() == old(dst)@.len(),
            forall|j: int| 0 <= j < i ==> dst@[j] == src@[j],
            forall|j: int| i <= j < dst@.len() ==> dst@[j] == old(dst)@[j],
        decreases n - i,
    {
        dst.set(i, src[i]);
        i += 1;
    }
    assert(dst@.take(n as int) =~= src@.take(n as int));
    assert(dst@.skip(n as int) =~= old(dst)@.skip(n as int));
    n
}

/// The index of the first entry of `env` named `name`.
pub open spec fn env_index(env: Seq<(Vec<u8>, Vec<u8>)>, name: Seq<u8>, i: int) -> bool {
    &&& 0 <= i < env.len()
    &&& env[i].0@ == name
    &&& forall|j: int| 0 <= j < i ==> env[j].0@ != name
}

/// Looks `name` up in `env`.
fn find_env(env: &Vec<(Vec<u8>, Vec<u8>)>, name: &[u8]) -> (r: Option<usize>)
    ensures
        match r {
            Some(i) => env_index(env@, name@, i as int),
            None => forall|j: int| 0 <= j < env@.len() ==> env@[j].0@ != name@,
        },
{
    let mut i: usize = 0;
    while i < env.len()
        invariant
            i <= env.len(),
            forall|j: int| 0 <= j < i ==> env@[j].0@ != name@,
        decreases env.len() - i,
    {
        if bytes_eq(env[i].0.as_slice(), name) {
            return Some(i);
        }
        i += 1;
    }
    None
}

/// The little-endian word of the four bytes of `b`.
pub open spec fn le_word(b: Seq<u8>) -> u32 {
    (b[0] as u32) | ((b[1] as u32) << 8) | ((b[2] as u32) << 16) | ((b[3] as u32) << 24)
}

/// Sets `a0` and `a1`, leaving the other registers as they were.
fn set_result(vm: &mut Simulator, a0: u32, a1: u32)
    ensures
        final(vm).hart_state.registers[REG_A0 as int] == a0,
        final(vm).hart_state.registers[REG_A1 as int] == a1,
        forall|i: int|
            0 <= i < 32 && i != REG_A0 && i != REG_A1 ==> final(vm).hart_state.registers[i] == old(
                vm,
            ).hart_state.registers[i],
        final(vm).hart_state.pc == old(vm).hart_state.pc,
        final(vm).mem == old(vm).mem,
        final(vm).env == old(vm).env,
        final(vm).args == old(vm).args,
        final(vm).stdin == old(vm).stdin,
        final(vm).stdout == old(vm).stdout,
        final(vm).stderr == old(vm).stderr,
        final(vm).journal == old(vm).journal,
{
    vm.hart_state.registers[REG_A0] = a0;
    vm.hart_state.registers[REG_A1] = a1;
}

/// What a host call leaves alone, besides `a0` and `a1`.
pub open spec fn only_results(old: &Simulator, new: &Simulator) -> bool {
    &&& forall|i: int|
        0 <= i < 32 && i != REG_A0 && i != REG_A1 ==> new.hart_state.registers[i]
            == old.hart_state.registers[i]
    &&& new.hart_state.pc == old.hart_state.pc
    &&& new.env == old.env
    &&& new.args == old.args
}

/// `a0` and `a1` of `s`.
pub open spec fn results(s: &Simulator) -> (u32, u32) {
    (s.hart_state.registers[REG_A0 as int], s.hart_state.registers[REG_A1 as int])
}

/// Runs the host call named `syscall_name`, with `to_guest` as the buffer of bytes that goes
/// back to the guest. An unknown name does nothing.
pub fn handle_syscall(syscall_name: &[u8], to_guest: &mut Vec<u8>, vm: &mut Simulator) -> (r:
    Result<Option<ExitCode>, VmError>)
    requires
        old(vm).wf(),
    ensures
        final(vm).mem.watch_trigger == old(vm).mem.watch_trigger,
        final(vm).mem.session_cycle_callback == old(vm).mem.session_cycle_callback,
        old(vm).kept(final(vm)),
        final(vm).session_cycle() == old(vm).session_cycle(),
        only_results(old(vm), final(vm)),
        final(to_guest)@.len() == old(to_guest)@.len(),
        r.is_ok() ==> r.unwrap().is_none(),
        host_call(syscall_name@) == HostCall::Random ==> (r.is_ok() ==> results(final(vm)) == (0u32, 0u32)),
        host_call(syscall_name@) == HostCall::CycleCount ==> r.is_ok() && results(final(vm)) == (
            (old(vm).session_cycle() % 0x1_0000_0000) as u32,
            0u32,
        ) && final(vm).mem == old(vm).mem && final(vm).stdin == old(vm).stdin && final(vm).stdout
            == old(vm).stdout && final(vm).stderr == old(vm).stderr && final(vm).journal == old(
            vm,
        ).journal && final(to_guest)@ == old(to_guest)@,
        host_call(syscall_name@) == HostCall::Panic ==> r.is_err(),
        host_call(syscall_name@) == HostCall::Verify ==> r.is_ok() && results(final(vm)) == (0u32, 0u32)
            && final(to_guest)@ == old(to_guest)@,
        host_call(syscall_name@) == HostCall::ArgC ==> r.is_ok() && results(final(vm)) == (
            old(vm).args@.len() as u32,
            0u32,
        ) && final(to_guest)@ == old(to_guest)@,
        host_call(syscall_name@) == HostCall::ArgS ==> {
            let idx = old(vm).hart_state.registers[REG_A3 as int];
            &&& idx >= old(vm).args@.len() ==> r == Err::<Option<ExitCode>, VmError>(
                VmError::ArgIndexOutOfRange(idx),
            )
            &&& idx < old(vm).args@.len() ==> {
                let arg = old(vm).args@[idx as int]@;
                let n = if old(to_guest)@.len() <= arg.len() {
                    old(to_guest)@.len()
                } else {
                    arg.len()
                };
                &&& r.is_ok()
                &&& results(final(vm)) == (arg.len() as u32, 0u32)
                &&& final(to_guest)@.take(n as int) == arg.take(n as int)
                &&& final(to_guest)@.skip(n as int) == old(to_guest)@.skip(n as int)
            }
        },
        host_call(syscall_name@) == HostCall::ReadAvail ==> {
            let fd = old(vm).hart_state.registers[REG_A3 as int];
            &&& fd != STDIN ==> r == Err::<Option<ExitCode>, VmError>(VmError::BadReadFd(fd))
            &&& fd == STDIN ==> r.is_ok() && results(final(vm)) == (
                old(vm).stdin.remaining().len() as u32,
                0u32,
            )
        },
        host_call(syscall_name@) == HostCall::GetEnv ==> {
            let ptr = old(vm).hart_state.registers[REG_A3 as int];
            let len = old(vm).hart_state.registers[REG_A4 as int];
            let name = Seq::new(len as nat, |i: int| old(vm).mem.byte((ptr + i) as u32) as u8);
            &&& !range_in_window(ptr, len as int) ==> r == Err::<Option<ExitCode>, VmError>(
                VmError::GuestRead(ptr),
            )
            &&& range_in_window(ptr, len as int) && !utf8_valid(name) ==> r == Err::<
                Option<ExitCode>,
                VmError,
            >(VmError::InvalidUtf8)
            &&& range_in_window(ptr, len as int) && utf8_valid(name) ==> {
                &&& r.is_ok()
                &&& (forall|j: int| 0 <= j < old(vm).env@.len() ==> old(vm).env@[j].0@ != name)
                    ==> results(final(vm)) == (u32::MAX, 0u32) && final(to_guest)@ == old(to_guest)@
                &&& forall|i: int| #[trigger]
                    env_index(old(vm).env@, name, i) ==> {
                        let val = old(vm).env@[i].1@;
                        let n = if old(to_guest)@.len() <= val.len() {
                            old(to_guest)@.len()
                        } else {
                            val.len()
                        };
                        &&& results(final(vm)) == (val.len() as u32, 0u32)
                        &&& final(to_guest)@.take(n as int) == val.take(n as int)
                        &&& final(to_guest)@.skip(n as int) == old(to_guest)@.skip(n as int)
                    }
            }
        },
        host_call(syscall_name@) == HostCall::Write ==> {
            let fd = old(vm).hart_state.registers[REG_A3 as int];
            let ptr = old(vm).hart_state.registers[REG_A4 as int];
            let len = old(vm).hart_state.registers[REG_A5 as int];
            let bytes = Seq::new(len as nat, |i: int| old(vm).mem.byte((ptr + i) as u32) as u8);
            &&& !range_in_window(ptr, len as int) ==> r == Err::<Option<ExitCode>, VmError>(
                VmError::GuestRead(ptr),
            )
            &&& range_in_window(ptr, len as int) && !(fd == STDOUT || fd == STDERR || fd
                == JOURNAL) ==> r == Err::<Option<ExitCode>, VmError>(VmError::BadWriteFd(fd))
            &&& range_in_window(ptr, len as int) && fd == STDOUT ==> r.is_ok()
                && final(vm).stdout.data@ == old(vm).stdout.data@ + bytes
            &&& range_in_window(ptr, len as int) && fd == STDERR ==> r.is_ok()
                && final(vm).stderr.data@ == old(vm).stderr.data@ + bytes
            &&& range_in_window(ptr, len as int) && fd == JOURNAL ==> r.is_ok()
                && final(vm).journal.data@ == old(vm).journal.data@ + bytes
            &&& r.is_ok() ==> results(final(vm)) == (0u32, 0u32)
        },
        host_call(syscall_name@) == HostCall::Log ==> {
            let ptr = old(vm).hart_state.registers[REG_A3 as int];
            let len = old(vm).hart_state.registers[REG_A4 as int];
            let bytes = Seq::new(len as nat, |i: int| old(vm).mem.byte((ptr + i) as u32) as u8);
            &&& !range_in_window(ptr, len as int) ==> r == Err::<Option<ExitCode>, VmError>(
                VmError::GuestRead(ptr),
            )
            &&& range_in_window(ptr, len as int) ==> r.is_ok() && final(vm).stdout.data@ == old(
                vm,
            ).stdout.data@ + bytes && results(final(vm)) == (0u32, 0u32)
        },
        host_call(syscall_name@) == HostCall::Read ==> {
            let fd = old(vm).hart_state.registers[REG_A3 as int];
            let nbytes = old(vm).hart_state.registers[REG_A4 as int];
            let avail = old(vm).stdin.remaining();
            let main = old(to_guest)@.len();
            &&& (nbytes as int) < main ==> r == Err::<Option<ExitCode>, VmError>(
                VmError::ReadBufferTooLarge,
            )
            &&& (nbytes as int) >= main && fd != STDIN ==> r == Err::<Option<ExitCode>, VmError>(
                VmError::BadReadFd(fd),
            )
            &&& (nbytes as int) >= main && fd == STDIN && avail.len() < main ==> r == Err::<
                Option<ExitCode>,
                VmError,
            >(VmError::ShortRead)
            &&& (nbytes as int) >= main && fd == STDIN && avail.len() >= main && nbytes - main > 4
                ==> r == Err::<Option<ExitCode>, VmError>(VmError::ReadTailTooLong)
            &&& (nbytes as int) >= main && fd == STDIN && avail.len() >= main && nbytes - main <= 4
                ==> {
                let tail = nbytes - main;
                let got = if avail.len() - main <= tail {
                    avail.len() - main
                } else {
                    tail as int
                };
                let pad = Seq::new(4, |k: int| if k < got { avail[main + k] } else { 0u8 });
                &&& r.is_ok()
                &&& final(to_guest)@ == avail.take(main as int)
                &&& results(final(vm)) == ((main + got) as u32, le_word(pad))
                &&& final(vm).stdin.pos == old(vm).stdin.pos + main + got
            }
        },
        host_call(syscall_name@) == HostCall::Unknown ==> r == Ok::<Option<ExitCode>, VmError>(
            None,
        ) && *final(vm) == *old(vm) && final(to_guest)@ == old(to_guest)@,
{
    if name_is(syscall_name, SYS_RANDOM) {
        if !fill_random(to_guest) {
            return Err(VmError::RandomFailed);
        }
        set_result(vm, 0, 0);
        return Ok(None);
    }
    if name_is(syscall_name, SYS_CYCLE_COUNT) {
        let cycles = vm.session_cycle_count();
        set_result(vm, (cycles as u64 % 0x1_0000_0000) as u32, 0);
        return Ok(None);
    }
    if name_is(syscall_name, SYS_PANIC) {
        let ptr = vm.hart_state.registers[REG_A3];
        let len = vm.hart_state.registers[REG_A4];
        let msg = match vm.read_guest_bytes(ptr, len) {
            Ok(m) => m,
            Err(e) => {
                return Err(e);
            },
        };
        return match utf8_text(msg.as_slice()) {
            Some(text) => Err(VmError::GuestPanicked(text)),
            None => Err(VmError::InvalidUtf8),
        };
    }
    if name_is(syscall_name, SYS_GETENV) {
        let ptr = vm.hart_state.registers[REG_A3];
        let len = vm.hart_state.registers[REG_A4];
        let name = match vm.read_guest_bytes(ptr, len) {
            Ok(m) => m,
            Err(e) => {
                return Err(e);
            },
        };
        let ghost name_view = name@;
        proof {
            assert(name_view =~= Seq::new(
                len as nat,
                |i: int| old(vm).mem.byte((ptr + i) as u32) as u8,
            ));
        }
        if utf8_text(name.as_slice()).is_none() {
            return Err(VmError::InvalidUtf8);
        }
        match find_env(&vm.env, name.as_slice()) {
            None => {
                set_result(vm, u32::MAX, 0);
            },
            Some(i) => {
                let val_len = vm.env[i].1.len();
                copy_prefix(to_guest, vm.env[i].1.as_slice());
                set_result(vm, val_len as u32, 0);
            },
        }
        return Ok(None);
    }
    if name_is(syscall_name, SYS_READ) {
        return sys_read(to_guest, vm);
    }
    if name_is(syscall_name, SYS_READ_AVAIL) {
        let fd = vm.hart_state.registers[REG_A3];
        if fd != STDIN {
            return Err(VmError::BadReadFd(fd));
        }
        let navail = vm.stdin.data.len() - vm.stdin.pos;
        set_result(vm, navail as u32, 0);
        return Ok(None);
    }
    if name_is(syscall_name, SYS_WRITE) {
        let fd = vm.hart_state.registers[REG_A3];
        let ptr = vm.hart_state.registers[REG_A4];
        let len = vm.hart_state.registers[REG_A5];
        let bytes = match vm.read_guest_bytes(ptr, len) {
            Ok(m) => m,
            Err(e) => {
                return Err(e);
            },
        };
        proof {
            assert(bytes@ =~= Seq::new(len as nat, |i: int| old(vm).mem.byte((ptr + i) as u32) as u8));
        }
        if fd == STDOUT {
            vm.stdout.append(bytes.as_slice());
        } else if fd == STDERR {
            vm.stderr.append(bytes.as_slice());
        } else if fd == JOURNAL {
            vm.journal.append(bytes.as_slice());
        } else {
            return Err(VmError::BadWriteFd(fd));
        }
        set_result(vm, 0, 0);
        return Ok(None);
    }
    if name_is(syscall_name, SYS_LOG) {
        let ptr = vm.hart_state.registers[REG_A3];
        let len = vm.hart_state.registers[REG_A4];
        let bytes = match vm.read_guest_bytes(ptr, len) {
            Ok(m) => m,
            Err(e) => {
                return Err(e);
            },
        };
        proof {
            assert(bytes@ =~= Seq::new(len as nat, |i: int| old(vm).mem.byte((ptr + i) as u32) as u8));
        }
        vm.stdout.append(bytes.as_slice());
        set_result(vm, 0, 0);
        return Ok(None);
    }
    if name_is(syscall_name, SYS_VERIFY) || name_is(syscall_name, SYS_VERIFY_INTEGRITY) {
        set_result(vm, 0, 0);
        return Ok(None);
    }
    if name_is(syscall_name, SYS_ARGC) {
        let argc = vm.args.len();
        set_result(vm, argc as u32, 0);
        return Ok(None);
    }
    if name_is(syscall_name, SYS_ARGS) {
        let idx = vm.hart_state.registers[REG_A3];
        if idx as usize >= vm.args.len() {
            return Err(VmError::ArgIndexOutOfRange(idx));
        }
        let arg_len = vm.args[idx as usize].len();
        copy_prefix(to_guest, vm.args[idx as usize].as_slice());
        set_result(vm, arg_len as u32, 0);
        return Ok(None);
    }
    Ok(None)
}

/// SYS_READ: fills the word-aligned buffer from standard input, then up to four more bytes,
/// which go back packed little-endian in `a1`; `a0` counts all bytes read.
fn sys_read(to_guest: &mut Vec<u8>, vm: &mut Simulator) -> (r: Result<Option<ExitCode>, VmError>)
    requires
        old(vm).wf(),
    ensures
        old(vm).kept(final(vm)),
        final(vm).mem == old(vm).mem,
        only_results(old(vm), final(vm)),
        final(to_guest)@.len() == old(to_guest)@.len(),
        r.is_ok() ==> r.unwrap().is_none(),
        ({
            let fd = old(vm).hart_state.registers[REG_A3 as int];
            let nbytes = old(vm).hart_state.registers[REG_A4 as int];
            let avail = old(vm).stdin.remaining();
            let main = old(to_guest)@.len();
            &&& (nbytes as int) < main ==> r == Err::<Option<ExitCode>, VmError>(
                VmError::ReadBufferTooLarge,
            )
            &&& (nbytes as int) >= main && fd != STDIN ==> r == Err::<Option<ExitCode>, VmError>(
                VmError::BadReadFd(fd),
            )
            &&& (nbytes as int) >= main && fd == STDIN && avail.len() < main ==> r == Err::<
                Option<ExitCode>,
                VmError,
            >(VmError::ShortRead)
            &&& (nbytes as int) >= main && fd == STDIN && avail.len() >= main && nbytes - main > 4
                ==> r == Err::<Option<ExitCode>, VmError>(VmError::ReadTailTooLong)
            &&& (nbytes as int) >= main && fd == STDIN && avail.len() >= main && nbytes - main <= 4
                ==> {
                let tail = nbytes - main;
                let got = if avail.len() - main <= tail {
                    avail.len() - main
                } else {
                    tail as int
                };
                let pad = Seq::new(4, |k: int| if k < got { avail[main + k] } else { 0u8 });
                &&& r.is_ok()
                &&& final(to_guest)@ == avail.take(main as int)
                &&& results(final(vm)) == ((main + got) as u32, le_word(pad))
                &&& final(vm).stdin.pos == old(vm).stdin.pos + main + got
            }
        }),
{
    let fd = vm.hart_state.registers[REG_A3];
    let nbytes = vm.hart_state.registers[REG_A4];
    if (nbytes as usize) < to_guest.len() {
        return Err(VmError::ReadBufferTooLarge);
    }
    if fd != STDIN {
        return Err(VmError::BadReadFd(fd));
    }
    let main = to_guest.len();
    if vm.stdin.data.len() - vm.stdin.pos < main {
        return Err(VmError::ShortRead);
    }
    let unaligned_end = nbytes as usize - main;
    if unaligned_end > 4 {
        return Err(VmError::ReadTailTooLong);
    }
    let ghost avail = vm.stdin.remaining();
    let nread_main = vm.stdin.read_into(to_guest.as_mut_slice());
    assert(to_guest@ =~= avail.take(main as int));
    let ghost avail2 = vm.stdin.remaining();
    assert(avail2 =~= avail.skip(main as int));
    let mut end: Vec<u8> = vec![0u8; unaligned_end];
    let nread_end = vm.stdin.read_into(end.as_mut_slice());
    let mut tail: [u8; 4] = [0u8; 4];
    let mut k: usize = 0;
    while k < nread_end
        invariant
            k <= nread_end,
            nread_end <= end@.len() <= 4,
            forall|j: int| 0 <= j < k ==> tail[j] == end@[j],
            forall|j: int| k <= j < 4 ==> tail[j] == 0,
        decreases nread_end - k,
    {
        tail[k] = end[k];
        k += 1;
    }
    let packed = (tail[0] as u32) | ((tail[1] as u32) << 8) | ((tail[2] as u32) << 16) | ((
    tail[3] as u32) << 24);
    proof {
        let got = nread_end as int;
        let pad = Seq::new(4, |k: int| if k < got { avail[main + k] } else { 0u8 });
        assert forall|j: int| 0 <= j < 4 implies tail[j] == pad[j] by {
            if j < got {
                assert(end@[j] == avail2.take(got)[j]);
            }
        }
        assert(packed == le_word(pad));
    }
    set_result(vm, (nread_main + nread_end) as u32, packed);
    Ok(None)
}

} // verus!
