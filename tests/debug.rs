use zkvm_sim::debugger::{
    copy_range_to_buf, copy_to_buf, stop_reason, Debugger, ExecMode, HostErrno, RegId, StopReason,
    TargetError,
};
use zkvm_sim::error::VmError;
use zkvm_sim::memory::{AccessSize, Memory, WatchKind};
use zkvm_sim::simulator::{ExitCode, Simulator};

const NOP: u32 = 0x0000_0013;

fn target(words: usize) -> Debugger {
    let mut mem = Memory::new();
    for i in 0..words {
        assert!(mem.write_mem_with_privileges(0x400 + 4 * i as u32, AccessSize::Word, NOP, true));
    }
    Debugger::new(b"\x7fELF-image".to_vec(), Simulator::new(mem, 0x400, Vec::new()))
}

#[test]
fn continue_stops_at_breakpoint() {
    let mut dbg = target(64);
    assert!(dbg.add_sw_breakpoint(0x420));
    assert_eq!(dbg.resume(None), Ok(()));
    assert_eq!(dbg.exec_mode, ExecMode::Continue);
    assert_eq!(dbg.run_steps(1024), Some(StopReason::SwBreak));
    assert_eq!(dbg.simulator.hart_state.pc, 0x420);
}

#[test]
fn range_step_stops_when_pc_leaves_range() {
    let mut dbg = target(64);
    assert_eq!(dbg.resume_range_step(0x400, 0x410), Ok(()));
    assert_eq!(dbg.run_steps(1024), Some(StopReason::DoneStep));
    assert_eq!(dbg.simulator.hart_state.pc, 0x410);
}

#[test]
fn single_step_reports_done_step() {
    let mut dbg = target(4);
    assert_eq!(dbg.step(None), Ok(()));
    assert_eq!(dbg.run_steps(1), Some(StopReason::DoneStep));
    assert_eq!(dbg.simulator.hart_state.pc, 0x404);
}

#[test]
fn step_onto_breakpoint_reports_sw_break() {
    let mut dbg = target(4);
    dbg.add_sw_breakpoint(0x404);
    dbg.step(None).unwrap();
    assert_eq!(dbg.run_steps(1), Some(StopReason::SwBreak));
}

#[test]
fn continue_without_stop_uses_whole_budget() {
    let mut dbg = target(64);
    assert_eq!(dbg.run_steps(8), None);
    assert_eq!(dbg.simulator.hart_state.pc, 0x420);
}

#[test]
fn failing_step_terminates() {
    let mut dbg = target(0);
    dbg.step(None).unwrap();
    assert_eq!(dbg.run_steps(1), Some(StopReason::Terminated));
}

#[test]
fn interrupt_reports_signal_without_running() {
    let mut dbg = target(4);
    assert_eq!(dbg.on_interrupt(), StopReason::Interrupted);
    assert_eq!(dbg.run_steps(10), Some(StopReason::Interrupted));
    assert_eq!(dbg.simulator.hart_state.pc, 0x400);
}

#[test]
fn signals_are_refused() {
    let mut dbg = target(1);
    assert_eq!(dbg.resume(Some(2)), Err(TargetError::SignalNotSupported));
    assert_eq!(dbg.step(Some(2)), Err(TargetError::SignalNotSupported));
}

#[test]
fn stop_reason_maps_exit_codes() {
    assert_eq!(
        stop_reason(ExecMode::Continue, &Ok(Some(ExitCode::Paused(1))), 0x400, false),
        Some(StopReason::SwBreak)
    );
    assert_eq!(
        stop_reason(ExecMode::Continue, &Ok(Some(ExitCode::Halted(0x12A))), 0x400, false),
        Some(StopReason::Exited(0x2A))
    );
    assert_eq!(
        stop_reason(
            ExecMode::Step,
            &Ok(Some(ExitCode::HwWatchPoint(WatchKind::Read, 0x900))),
            0x400,
            false
        ),
        Some(StopReason::Watch(WatchKind::Read, 0x900))
    );
    assert_eq!(
        stop_reason(ExecMode::Continue, &Err(VmError::FetchFault(0)), 0x400, true),
        Some(StopReason::Terminated)
    );
    assert_eq!(stop_reason(ExecMode::RangeStep(0x400, 0x500), &Ok(None), 0x480, false), None);
}

#[test]
fn breakpoints_are_a_set() {
    let mut dbg = target(1);
    assert!(dbg.add_sw_breakpoint(0x500));
    assert!(!dbg.add_sw_breakpoint(0x500));
    assert!(dbg.remove_sw_breakpoint(0x500));
    assert!(!dbg.remove_sw_breakpoint(0x500));
}

#[test]
fn watchpoints_refuse_duplicates() {
    let mut dbg = target(1);
    assert!(dbg.add_hw_watchpoint(0x1000, 4, WatchKind::Write));
    assert!(!dbg.add_hw_watchpoint(0x1000, 4, WatchKind::Write));
    assert!(dbg.add_hw_watchpoint(0x1000, 4, WatchKind::Read));
    assert!(dbg.remove_hw_watchpoint(0x1000, 4, WatchKind::Write));
    assert!(!dbg.remove_hw_watchpoint(0x1000, 4, WatchKind::Write));
    assert_eq!(dbg.simulator.mem.hw_watchpoints, vec![(0x1000, 4, WatchKind::Read)]);
}

#[test]
fn register_round_trip() {
    let mut dbg = target(1);
    assert_eq!(dbg.write_register(RegId::Gpr(7), &[0x78, 0x56, 0x34, 0x12]), Ok(()));
    let mut buf = [0u8; 4];
    assert_eq!(dbg.read_register(RegId::Gpr(7), &mut buf), Ok(4));
    assert_eq!(buf, [0x78, 0x56, 0x34, 0x12]);
    assert_eq!(dbg.simulator.hart_state.registers[7], 0x1234_5678);
    assert_eq!(dbg.write_register(RegId::Pc, &[0, 8, 0, 0]), Ok(()));
    assert_eq!(dbg.read_register(RegId::Pc, &mut buf), Ok(4));
    assert_eq!(buf, [0, 8, 0, 0]);
    assert_eq!(dbg.read_register(RegId::Other, &mut buf), Err(TargetError::NonFatal));
    assert_eq!(dbg.write_register(RegId::Gpr(40), &[0, 0, 0, 0]), Err(TargetError::NonFatal));
}

#[test]
fn bulk_registers_round_trip() {
    let mut dbg = target(1);
    let mut regs = [0u32; 32];
    regs[3] = 33;
    dbg.write_registers(regs, 0x800);
    assert_eq!(dbg.read_registers(), (regs, 0x800));
}

#[test]
fn memory_round_trip_through_debugger() {
    let mut dbg = target(1);
    assert_eq!(dbg.write_addrs(0x2000, &[1, 2, 3]), Ok(()));
    let mut data = [0u8; 3];
    assert_eq!(dbg.read_addrs(0x2000, &mut data), Ok(3));
    assert_eq!(data, [1, 2, 3]);
    assert_eq!(dbg.simulator.mem.session_cycle_callback.as_ref().unwrap().cur_step_read.len(), 0);
}

#[test]
fn debugger_memory_access_stops_at_window() {
    let mut dbg = target(1);
    let mut data = [0u8; 8];
    assert_eq!(dbg.read_addrs(0x0BFF_FFFC, &mut data), Ok(4));
    assert_eq!(dbg.read_addrs(0x10, &mut data), Err(TargetError::NonFatal));
    assert_eq!(dbg.write_addrs(0x0BFF_FFFE, &[1, 2, 3]), Err(TargetError::NonFatal));
}

#[test]
fn monitor_commands() {
    let dbg = target(1);
    assert_eq!(dbg.handle_monitor_cmd(b"cycle"), b"1721".to_vec());
    assert_eq!(
        dbg.handle_monitor_cmd(b"v"),
        b"0 segments finished, current segment has taken 1721 cycles, 0 pages are loaded, 0 pages need to be stored".to_vec()
    );
    assert!(dbg.handle_monitor_cmd(b"help").starts_with(b"Supported commands"));
    assert_eq!(dbg.handle_monitor_cmd(&[0xff]), b"command must be valid UTF-8".to_vec());
}

#[test]
fn host_io_serves_the_image() {
    let dbg = target(1);
    assert_eq!(dbg.open(b"/r0code.elf"), Ok(0));
    assert_eq!(dbg.open(b"/etc/passwd"), Err(HostErrno::NoEntry));
    let mut buf = [0u8; 3];
    assert_eq!(dbg.pread(0, 3, 1, &mut buf), Ok(3));
    assert_eq!(&buf, b"ELF");
    assert_eq!(dbg.pread(1, 3, 0, &mut buf), Err(HostErrno::BadFd));
    assert_eq!(dbg.fstat(0), Ok(10));
    assert_eq!(dbg.fstat(2), Err(HostErrno::BadFd));
    let mut link = [0u8; 16];
    assert_eq!(dbg.readlink(b"/proc/1/exe", &mut link), Ok(11));
    assert_eq!(&link[..11], b"/r0code.elf");
    assert_eq!(dbg.readlink(b"/proc/1/cwd", &mut link), Ok(1));
    assert_eq!(dbg.readlink(b"/nope", &mut link), Err(HostErrno::NoEntry));
    let mut name = [0u8; 4];
    assert_eq!(dbg.get_exec_file(1, 4, &mut name), 4);
    assert_eq!(&name, b"r0co");
}

#[test]
fn copy_helpers() {
    let mut buf = [9u8; 4];
    assert_eq!(copy_to_buf(b"ab", &mut buf), 2);
    assert_eq!(buf, [b'a', b'b', 9, 9]);
    assert_eq!(copy_range_to_buf(b"abcdef", 2, 3, &mut buf), 3);
    assert_eq!(&buf[..3], b"cde");
    assert_eq!(copy_range_to_buf(b"abc", 7, 3, &mut buf), 0);
    assert_eq!(copy_range_to_buf(b"abc", 3, 3, &mut buf), 0);
}
