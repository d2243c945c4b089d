use vstd::prelude::*;
use vstd::string::StringSliceAdditionalSpecFns;
use std::collections::HashSet;
use crate::error::VmError;
use crate::memory::{AccessSize, WatchKind, in_window};
use crate::simulator::{ExitCode, Simulator};

verus! {

broadcast use vstd::std_specs::hash::group_hash_axioms;

/// How the event loop drives the guest.
#[derive(Clone, Copy, Debug, PartialEq, Eq, Structural)]
pub enum ExecMode {
    Step,
    Continue,
    RangeStep(u32, u32),
    Interrupted,
}

/// Why the guest stopped, as reported to the debugger.
#[derive(Clone, Copy, Debug, PartialEq, Eq, Structural)]
pub enum StopReason {
    /// A single step completed.
    DoneStep,
    /// A software breakpoint, or a guest pause, was reached.
    SwBreak,
    /// The guest terminated with this code.
    Exited(u8),
    /// The step failed; reported as a bad access.
    Terminated,
    /// A watchpoint of this kind stopped an access at this address.
    Watch(WatchKind, u32),
    /// The debugger interrupted the guest.
    Interrupted,
}

/// A target error that the debugger is told of and survives.
#[derive(Clone, Copy, Debug, PartialEq, Eq, Structural)]
pub enum TargetError {
    /// Resuming or stepping with a signal is not supported.
    SignalNotSupported,
    /// The register class or the address is not supported.
    NonFatal,
}

/// A register as the debugger names it.
#[derive(Clone, Copy, Debug, PartialEq, Eq, Structural)]
pub enum RegId {
    Gpr(u8),
    Pc,
    Other,
}

/// The stop that a step's `outcome` gives in `mode`, with `pc` the PC after it and
/// `at_breakpoint` whether a software breakpoint is set there; `None` to keep running.
pub open spec fn stop_for(
    mode: ExecMode,
    outcome: Result<Option<ExitCode>, VmError>,
    pc: u32,
    at_breakpoint: bool,
) -> Option<StopReason> {
    match outcome {
        Err(_) => Some(StopReason::Terminated),
        Ok(Some(ExitCode::Paused(_))) => Some(StopReason::SwBreak),
        Ok(Some(ExitCode::Halted(code))) => Some(StopReason::Exited(code as u8)),
        Ok(Some(ExitCode::HwWatchPoint(kind, addr))) => Some(StopReason::Watch(kind, addr)),
        Ok(None) => match mode {
            ExecMode::Step => if at_breakpoint {
                Some(StopReason::SwBreak)
            } else {
                Some(StopReason::DoneStep)
            },
            ExecMode::RangeStep(start, end) => if !(start <= pc < end) {
                Some(StopReason::DoneStep)
            } else if at_breakpoint {
                Some(StopReason::SwBreak)
            } else {
                None
            },
            ExecMode::Interrupted => Some(StopReason::Interrupted),
            ExecMode::Continue => if at_breakpoint {
                Some(StopReason::SwBreak)
            } else {
                None
            },
        },
    }
}

/// The stop that a step's `outcome` gives in `mode`; `None` to keep running.
pub fn stop_reason(
    mode: ExecMode,
    outcome: &Result<Option<ExitCode>, VmError>,
    pc: u32,
    at_breakpoint: bool,
) -> (r: Option<StopReason>)
    ensures
        r == stop_for(mode, *outcome, pc, at_breakpoint),
{
    match outcome {
        Err(_) => Some(StopReason::Terminated),
        Ok(Some(ExitCode::Paused(_))) => Some(StopReason::SwBreak),
        Ok(Some(ExitCode::Halted(code))) => Some(StopReason::Exited(*code as u8)),
        Ok(Some(ExitCode::HwWatchPoint(kind, addr))) => Some(StopReason::Watch(*kind, *addr)),
        Ok(None) => match mode {
            ExecMode::Step => if at_breakpoint {
                Some(StopReason::SwBreak)
            } else {
                Some(StopReason::DoneStep)
            },
            ExecMode::RangeStep(start, end) => if !(start <= pc && pc < end) {
                Some(StopReason::DoneStep)
            } else if at_breakpoint {
                Some(StopReason::SwBreak)
            } else {
                None
            },
            ExecMode::Interrupted => Some(StopReason::Interrupted),
            ExecMode::Continue => if at_breakpoint {
                Some(StopReason::SwBreak)
            } else {
                None
            },
        },
    }
}

/// The stop after step `k` of a run: what its outcome gives at the PC it left.
pub open spec fn stop_after(
    mode: ExecMode,
    breakpoints: Set<u32>,
    states: Seq<Simulator>,
    outcomes: Seq<Result<Option<ExitCode>, VmError>>,
    k: int,
) -> Option<StopReason> {
    let pc = states[k + 1].hart_state.pc;
    stop_for(mode, outcomes[k], pc, breakpoints.contains(pc))
}

/// `states` and `outcomes` are a run of steps in `mode`: each step meets `Simulator::step_spec`,
/// and none but the last stops the event loop.
pub open spec fn is_run(
    mode: ExecMode,
    breakpoints: Set<u32>,
    states: Seq<Simulator>,
    outcomes: Seq<Result<Option<ExitCode>, VmError>>,
) -> bool {
    &&& states.len() == outcomes.len() + 1
    &&& forall|k: int|
        0 <= k < outcomes.len() ==> Simulator::step_spec(&#[trigger] states[k], &states[k + 1], outcomes[k])
    &&& forall|k: int|
        0 <= k < outcomes.len() - 1 ==> #[trigger] stop_after(mode, breakpoints, states, outcomes, k).is_none()
}

/// The name under which the loaded image is served.
pub const EXEC_FILE_NAME: &'static str = "/r0code.elf";

/// Copies as much of `data` as fits to the front of `buf`; returns how many bytes.
pub fn copy_to_buf(data: &[u8], buf: &mut [u8]) -> (n: usize)
    ensures
        n == if old(buf)@.len() <= data@.len() {
            old(buf)@.len()
        } else {
            data@.len()
        },
        final(buf)@.len() == old(buf)@.len(),
        final(buf)@.take(n as int) == data@.take(n as int),
        final(buf)@.skip(n as int) == old(buf)@.skip(n as int),
{
    let len = if buf.len() <= data.len() {
        buf.len()
    } else {
        data.len()
    };
    let mut i: usize = 0;
    while i < len
        invariant
            i <= len,
            len <= buf@.len(),
            len <= data@.len(),
            buf@.len() == old(buf)@.len(),
            forall|j: int| 0 <= j < i ==> buf@[j] == data@[j],
            forall|j: int| i <= j < buf@.len() ==> buf@[j] == old(buf)@[j],
        decreases len - i,
    {
        buf[i] = data[i];
        i += 1;
    }
    assert(buf@.take(len as int) =~= data@.take(len as int));
    assert(buf@.skip(len as int) =~= old(buf)@.skip(len as int));
    len
}

/// The part of `data` from `offset` of at most `length` bytes; empty past the end.
pub open spec fn data_range(data: Seq<u8>, offset: int, length: int) -> Seq<u8> {
    if offset > data.len() {
        Seq::empty()
    } else if offset + length <= data.len() {
        data.subrange(offset, offset + length)
    } else {
        data.subrange(offset, data.len() as int)
    }
}

/// Copies the part of `data` from `offset`, at most `length` bytes, to `buf`; returns how many
/// bytes. Returns 0 where `offset` lies past the end of `data`.
pub fn copy_range_to_buf(data: &[u8], offset: u64, length: usize, buf: &mut [u8]) -> (n: usize)
    ensures
        ({
            let part = data_range(data@, offset as int, length as int);
            &&& n == if old(buf)@.len() <= part.len() {
                old(buf)@.len()
            } else {
                part.len()
            }
            &&& final(buf)@.take(n as int) == part.take(n as int)
            &&& final(buf)@.skip(n as int) == old(buf)@.skip(n as int)
        }),
        final(buf)@.len() == old(buf)@.len(),
{
    if offset > data.len() as u64 {
        assert(buf@.skip(0) =~= old(buf)@.skip(0));
        return 0;
    }
    let start = offset as usize;
    let end = if length <= data.len() - start {
        start + length
    } else {
        data.len()
    };
    let part = slice_range(data, start, end);
    assert(part@ =~= data_range(data@, offset as int, length as int));
    copy_to_buf(part.as_slice(), buf)
}

/// The bytes of `data` from `start` to `end`.
fn slice_range(data: &[u8], start: usize, end: usize) -> (r: Vec<u8>)
    requires
        start <= end <= data@.len(),
    ensures
        r@ == data@.subrange(start as int, end as int),
{
    let mut out: Vec<u8> = Vec::new();
    let mut i: usize = start;
    while i < end
        invariant
            start <= i <= end,
            end <= data@.len(),
            out@ == data@.subrange(start as int, i as int),
        decreases end - i,
    {
        out.push(data[i]);
        proof {
            assert(data@.subrange(start as int, i + 1) == data@.subrange(start as int, i as int).push(
                data@[i as int],
            ));
        }
        i += 1;
    }
    out
}

/// The debug target: the guest machine, the image it was loaded from, the execution mode and
/// the software breakpoints.
pub struct Debugger {
    pub elf: Vec<u8>,
    pub simulator: Simulator,
    pub exec_mode: ExecMode,
    pub breakpoints: HashSet<u32>,
}

impl Debugger {
    /// A target over `simulator` that starts in Continue mode with no breakpoints.
    pub fn new(elf: Vec<u8>, simulator: Simulator) -> (r: Self)
        ensures
            r.elf == elf,
            r.simulator == simulator,
            r.exec_mode == ExecMode::Continue,
            r.breakpoints@.is_empty(),
    {
        Debugger { elf, simulator, exec_mode: ExecMode::Continue, breakpoints: HashSet::new() }
    }

    /// Sets a software breakpoint at `addr`; `false` where one was set already.
    pub fn add_sw_breakpoint(&mut self, addr: u32) -> (r: bool)
        ensures
            r == !old(self).breakpoints@.contains(addr),
            final(self).breakpoints@ == old(self).breakpoints@.insert(addr),
            final(self).simulator == old(self).simulator,
            final(self).exec_mode == old(self).exec_mode,
    {
        self.breakpoints.insert(addr)
    }

    /// Clears the software breakpoint at `addr`; `false` where none was set.
    pub fn remove_sw_breakpoint(&mut self, addr: u32) -> (r: bool)
        ensures
            r == old(self).breakpoints@.contains(addr),
            final(self).breakpoints@ == old(self).breakpoints@.remove(addr),
            final(self).simulator == old(self).simulator,
            final(self).exec_mode == old(self).exec_mode,
    {
        self.breakpoints.remove(&addr)
    }

    /// Installs a watchpoint; `false` where the same one is installed already.
    pub fn add_hw_watchpoint(&mut self, addr: u32, len: u32, kind: WatchKind) -> (r: bool)
        ensures
            r == !old(self).simulator.mem.hw_watchpoints@.contains((addr, len, kind)),
            final(self).simulator.mem.hw_watchpoints@ == if r {
                old(self).simulator.mem.hw_watchpoints@.push((addr, len, kind))
            } else {
                old(self).simulator.mem.hw_watchpoints@
            },
            final(self).simulator.mem.map == old(self).simulator.mem.map,
            final(self).simulator.mem.watch_trigger == old(self).simulator.mem.watch_trigger,
            final(self).simulator.mem.session_cycle_callback == old(self).simulator.mem.session_cycle_callback,
            final(self).simulator.hart_state == old(self).simulator.hart_state,
            final(self).breakpoints == old(self).breakpoints,
    {
        match position_of(&self.simulator.mem.hw_watchpoints, (addr, len, kind)) {
            Some(_) => false,
            None => {
                self.simulator.mem.hw_watchpoints.push((addr, len, kind));
                true
            },
        }
    }

    /// Removes a watchpoint; `false` where it was not installed.
    pub fn remove_hw_watchpoint(&mut self, addr: u32, len: u32, kind: WatchKind) -> (r: bool)
        ensures
            r == old(self).simulator.mem.hw_watchpoints@.contains((addr, len, kind)),
            !r ==> final(self).simulator.mem.hw_watchpoints == old(self).simulator.mem.hw_watchpoints,
            r ==> exists|i: int|
                0 <= i < old(self).simulator.mem.hw_watchpoints@.len()
                    && old(self).simulator.mem.hw_watchpoints@[i] == (addr, len, kind)
                    && (forall|j: int| 0 <= j < i ==> old(self).simulator.mem.hw_watchpoints@[j] != (addr, len, kind))
                    && final(self).simulator.mem.hw_watchpoints@ == old(self).simulator.mem.hw_watchpoints@.remove(i),
            final(self).simulator.mem.map == old(self).simulator.mem.map,
            final(self).simulator.mem.watch_trigger == old(self).simulator.mem.watch_trigger,
            final(self).simulator.mem.session_cycle_callback == old(self).simulator.mem.session_cycle_callback,
            final(self).simulator.hart_state == old(self).simulator.hart_state,
            final(self).breakpoints == old(self).breakpoints,
    {
        match position_of(&self.simulator.mem.hw_watchpoints, (addr, len, kind)) {
            Some(i) => {
                self.simulator.mem.hw_watchpoints.remove(i);
                true
            },
            None => false,
        }
    }

    /// Continue: runs until something stops the guest. A signal is not supported.
    pub fn resume(&mut self, signal: Option<u8>) -> (r: Result<(), TargetError>)
        ensures
            signal.is_some() ==> r == Err::<(), TargetError>(TargetError::SignalNotSupported)
                && final(self).exec_mode == old(self).exec_mode,
            signal.is_none() ==> r.is_ok() && final(self).exec_mode == ExecMode::Continue,
            final(self).simulator == old(self).simulator,
            final(self).breakpoints == old(self).breakpoints,
    {
        if signal.is_some() {
            return Err(TargetError::SignalNotSupported);
        }
        self.exec_mode = ExecMode::Continue;
        Ok(())
    }

    /// Single step. A signal is not supported.
    pub fn step(&mut self, signal: Option<u8>) -> (r: Result<(), TargetError>)
        ensures
            signal.is_some() ==> r == Err::<(), TargetError>(TargetError::SignalNotSupported)
                && final(self).exec_mode == old(self).exec_mode,
            signal.is_none() ==> r.is_ok() && final(self).exec_mode == ExecMode::Step,
            final(self).simulator == old(self).simulator,
            final(self).breakpoints == old(self).breakpoints,
    {
        if signal.is_some() {
            return Err(TargetError::SignalNotSupported);
        }
        self.exec_mode = ExecMode::Step;
        Ok(())
    }

    /// Range step: runs while the PC stays in `[start, end)`.
    pub fn resume_range_step(&mut self, start: u32, end: u32) -> (r: Result<(), TargetError>)
        ensures
            r.is_ok(),
            final(self).exec_mode == ExecMode::RangeStep(start, end),
            final(self).simulator == old(self).simulator,
            final(self).breakpoints == old(self).breakpoints,
    {
        self.exec_mode = ExecMode::RangeStep(start, end);
        Ok(())
    }

    /// The debugger interrupted the guest.
    pub fn on_interrupt(&mut self) -> (r: StopReason)
        ensures
            r == StopReason::Interrupted,
            final(self).exec_mode == ExecMode::Interrupted,
            final(self).simulator == old(self).simulator,
            final(self).breakpoints == old(self).breakpoints,
    {
        self.exec_mode = ExecMode::Interrupted;
        StopReason::Interrupted
    }

    /// Runs one step of the guest and says whether it stops the event loop: the stop that
    /// the step's outcome gives in the current mode.
    pub fn step_once(&mut self) -> (r: Option<StopReason>)
        requires
            old(self).simulator.wf(),
        ensures
            final(self).exec_mode == old(self).exec_mode,
            final(self).breakpoints == old(self).breakpoints,
            final(self).elf == old(self).elf,
            exists|outcome: Result<Option<ExitCode>, VmError>|
                Simulator::step_spec(&old(self).simulator, &final(self).simulator, outcome) && r
                    == stop_for(
                    old(self).exec_mode,
                    outcome,
                    final(self).simulator.hart_state.pc,
                    final(self).breakpoints@.contains(final(self).simulator.hart_state.pc),
                ),
    {
        let outcome = self.simulator.step();
        let pc = self.simulator.hart_state.pc;
        let at_breakpoint = self.breakpoints.contains(&pc);
        stop_reason(self.exec_mode, &outcome, pc, at_breakpoint)
    }

    /// Runs at most `budget` steps, until one stops the event loop; `None` where all of them
    /// ran without a stop. In Interrupted mode nothing runs and the stop is the interrupt.
    pub fn run_steps(&mut self, budget: usize) -> (r: Option<StopReason>)
        requires
            old(self).simulator.wf(),
        ensures
            final(self).simulator.wf(),
            final(self).exec_mode == old(self).exec_mode,
            final(self).breakpoints == old(self).breakpoints,
            final(self).elf == old(self).elf,
            old(self).exec_mode == ExecMode::Interrupted ==> r == Some(StopReason::Interrupted)
                && final(self).simulator == old(self).simulator,
            old(self).exec_mode != ExecMode::Interrupted ==> exists|
                states: Seq<Simulator>,
                outcomes: Seq<Result<Option<ExitCode>, VmError>>,
            |
                {
                    &&& is_run(old(self).exec_mode, old(self).breakpoints@, states, outcomes)
                    &&& states[0] == old(self).simulator
                    &&& states.last() == final(self).simulator
                    &&& r.is_none() ==> outcomes.len() == budget
                    &&& r.is_some() ==> outcomes.len() >= 1 && r == stop_after(
                        old(self).exec_mode,
                        old(self).breakpoints@,
                        states,
                        outcomes,
                        outcomes.len() - 1,
                    )
                },
    {
        if self.exec_mode == ExecMode::Interrupted {
            return Some(StopReason::Interrupted);
        }
        let ghost states: Seq<Simulator> = seq![self.simulator];
        let ghost outcomes: Seq<Result<Option<ExitCode>, VmError>> = Seq::empty();
        let mut i: usize = 0;
        while i < budget
            invariant
                self.simulator.wf(),
                self.exec_mode == old(self).exec_mode,
                self.exec_mode != ExecMode::Interrupted,
                self.breakpoints == old(self).breakpoints,
                self.elf == old(self).elf,
                i <= budget,
                outcomes.len() == i,
                is_run(old(self).exec_mode, old(self).breakpoints@, states, outcomes),
                states[0] == old(self).simulator,
                states.last() == self.simulator,
                i > 0 ==> stop_after(
                    old(self).exec_mode,
                    old(self).breakpoints@,
                    states,
                    outcomes,
                    i - 1,
                ).is_none(),
            decreases budget - i,
        {
            let ghost before = self.simulator;
            let outcome = self.simulator.step();
            let pc = self.simulator.hart_state.pc;
            let at_breakpoint = self.breakpoints.contains(&pc);
            let r = stop_reason(self.exec_mode, &outcome, pc, at_breakpoint);
            proof {
                let s2 = states.push(self.simulator);
                let o2 = outcomes.push(outcome);
                assert forall|k: int| 0 <= k < o2.len() implies Simulator::step_spec(
                    &#[trigger] s2[k],
                    &s2[k + 1],
                    o2[k],
                ) by {
                    if k < outcomes.len() {
                        assert(s2[k] == states[k] && s2[k + 1] == states[k + 1] && o2[k] == outcomes[k]);
                    } else {
                        assert(s2[k] == before);
                    }
                }
                assert forall|k: int| 0 <= k < o2.len() - 1 implies #[trigger] stop_after(
                    old(self).exec_mode,
                    old(self).breakpoints@,
                    s2,
                    o2,
                    k,
                ).is_none() by {
                    assert(stop_after(old(self).exec_mode, old(self).breakpoints@, s2, o2, k)
                        == stop_after(old(self).exec_mode, old(self).breakpoints@, states, outcomes, k));
                }
                assert(stop_after(old(self).exec_mode, old(self).breakpoints@, s2, o2, i as int) == r);
                states = s2;
                outcomes = o2;
            }
            if r.is_some() {
                proof {
                    assert(is_run(old(self).exec_mode, old(self).breakpoints@, states, outcomes));
                    assert(states.last() == self.simulator);
                    assert(r == stop_after(
                        old(self).exec_mode,
                        old(self).breakpoints@,
                        states,
                        outcomes,
                        outcomes.len() - 1,
                    ));
                }
                return r;
            }
            i += 1;
        }
        proof {
            assert(is_run(old(self).exec_mode, old(self).breakpoints@, states, outcomes));
            assert(states.last() == self.simulator);
        }
        None
    }

    /// The 32 general registers and the PC.
    pub fn read_registers(&self) -> (r: ([u32; 32], u32))
        ensures
            r.0 == self.simulator.hart_state.registers,
            r.1 == self.simulator.hart_state.pc,
    {
        (self.simulator.hart_state.registers, self.simulator.hart_state.pc)
    }

    /// Replaces the 32 general registers and the PC.
    pub fn write_registers(&mut self, regs: [u32; 32], pc: u32)
        ensures
            final(self).simulator.hart_state.registers == regs,
            final(self).simulator.hart_state.pc == pc,
            final(self).simulator.mem == old(self).simulator.mem,
            final(self).exec_mode == old(self).exec_mode,
            final(self).breakpoints == old(self).breakpoints,
    {
        self.simulator.hart_state.registers = regs;
        self.simulator.hart_state.pc = pc;
    }

    /// Reads one register as four little-endian bytes into `buf`; returns 4.
    pub fn read_register(&self, reg_id: RegId, buf: &mut [u8]) -> (r: Result<usize, TargetError>)
        requires
            old(buf)@.len() == 4,
        ensures
            final(buf)@.len() == 4,
            match reg_id {
                RegId::Gpr(idx) => if idx < 32 {
                    r == Ok::<usize, TargetError>(4) && le_word_of(final(buf)@)
                        == self.simulator.hart_state.registers[idx as int]
                } else {
                    r == Err::<usize, TargetError>(TargetError::NonFatal)
                },
                RegId::Pc => r == Ok::<usize, TargetError>(4) && le_word_of(final(buf)@)
                    == self.simulator.hart_state.pc,
                RegId::Other => r == Err::<usize, TargetError>(TargetError::NonFatal),
            },
    {
        let value = match reg_id {
            RegId::Gpr(idx) => {
                if idx >= 32 {
                    return Err(TargetError::NonFatal);
                }
                self.simulator.hart_state.registers[idx as usize]
            },
            RegId::Pc => self.simulator.hart_state.pc,
            RegId::Other => {
                return Err(TargetError::NonFatal);
            },
        };
        buf[0] = (value & 0xff) as u8;
        buf[1] = ((value >> 8) & 0xff) as u8;
        buf[2] = ((value >> 16) & 0xff) as u8;
        buf[3] = ((value >> 24) & 0xff) as u8;
        proof {
            lemma_le_word_bytes(value);
        }
        Ok(4)
    }

    /// Writes one register from the first four little-endian bytes of `val`.
    pub fn write_register(&mut self, reg_id: RegId, val: &[u8]) -> (r: Result<(), TargetError>)
        requires
            val@.len() >= 4,
        ensures
            final(self).simulator.mem == old(self).simulator.mem,
            final(self).exec_mode == old(self).exec_mode,
            final(self).breakpoints == old(self).breakpoints,
            match reg_id {
                RegId::Gpr(idx) => if idx < 32 {
                    &&& r.is_ok()
                    &&& final(self).simulator.hart_state.registers@ == old(self).simulator.hart_state.registers@.update(idx as int, le_word_of(val@))
                    &&& final(self).simulator.hart_state.pc == old(self).simulator.hart_state.pc
                } else {
                    r == Err::<(), TargetError>(TargetError::NonFatal) && final(self).simulator
                        == old(self).simulator
                },
                RegId::Pc => r.is_ok() && final(self).simulator.hart_state.pc == le_word_of(val@)
                    && final(self).simulator.hart_state.registers == old(self).simulator.hart_state.registers,
                RegId::Other => r == Err::<(), TargetError>(TargetError::NonFatal) && final(self).simulator == old(self).simulator,
            },
    {
        let value = (val[0] as u32) | ((val[1] as u32) << 8) | ((val[2] as u32) << 16) | ((
        val[3] as u32) << 24);
        match reg_id {
            RegId::Gpr(idx) => {
                if idx >= 32 {
                    return Err(TargetError::NonFatal);
                }
                self.simulator.hart_state.registers[idx as usize] = value;
                assert(self.simulator.hart_state.registers@ =~= old(self).simulator.hart_state.registers@.update(idx as int, le_word_of(val@)));
                Ok(())
            },
            RegId::Pc => {
                self.simulator.hart_state.pc = value;
                Ok(())
            },
            RegId::Other => Err(TargetError::NonFatal),
        }
    }

    /// Reads guest bytes from `start_addr` into `data` without side effects on the guest,
    /// stopping at the end of the guest window; returns how many. `start_addr` must lie in
    /// the window.
    pub fn read_addrs(&mut self, start_addr: u32, data: &mut [u8]) -> (r: Result<usize, TargetError>)
        requires
            old(self).simulator.wf(),
        ensures
            final(self).simulator.wf(),
            final(self).simulator.mem.same_contents(&old(self).simulator.mem),
            final(self).simulator.mem.watch_trigger == old(self).simulator.mem.watch_trigger,
            final(self).simulator.mem.hw_watchpoints == old(self).simulator.mem.hw_watchpoints,
            final(self).simulator.mem.session_cycle_callback == old(self).simulator.mem.session_cycle_callback,
            final(self).simulator.hart_state == old(self).simulator.hart_state,
            final(self).exec_mode == old(self).exec_mode,
            final(self).breakpoints == old(self).breakpoints,
            final(data)@.len() == old(data)@.len(),
            !in_window(start_addr) ==> r == Err::<usize, TargetError>(TargetError::NonFatal),
            in_window(start_addr) ==> {
                let n = if start_addr + old(data)@.len() <= 0x0C00_0000 {
                    old(data)@.len() as int
                } else {
                    0x0C00_0000 - start_addr
                };
                &&& r == Ok::<usize, TargetError>(n as usize)
                &&& forall|i: int| 0 <= i < n ==> #[trigger] final(data)@[i] as u32
                    == old(self).simulator.mem.byte((start_addr + i) as u32)
            },
    {
        if start_addr < crate::memory::GUEST_MIN_MEM || start_addr >= crate::memory::GUEST_MAX_MEM {
            return Err(TargetError::NonFatal);
        }
        let room = (crate::memory::GUEST_MAX_MEM - start_addr) as usize;
        let n = if data.len() <= room {
            data.len()
        } else {
            room
        };
        let mut i: usize = 0;
        while i < n
            invariant
                i <= n,
                n <= data@.len(),
                start_addr + n <= 0x0C00_0000,
                in_window(start_addr),
                data@.len() == old(data)@.len(),
                self.simulator.wf(),
                self.simulator.mem.same_contents(&old(self).simulator.mem),
                self.simulator.mem.watch_trigger == old(self).simulator.mem.watch_trigger,
                self.simulator.mem.hw_watchpoints == old(self).simulator.mem.hw_watchpoints,
                self.simulator.mem.session_cycle_callback == old(self).simulator.mem.session_cycle_callback,
                self.simulator.hart_state == old(self).simulator.hart_state,
                self.simulator.stdin == old(self).simulator.stdin,
                self.simulator.stdout == old(self).simulator.stdout,
                self.simulator.stderr == old(self).simulator.stderr,
                self.simulator.journal == old(self).simulator.journal,
                self.exec_mode == old(self).exec_mode,
                self.breakpoints == old(self).breakpoints,
                forall|j: int| 0 <= j < i ==> #[trigger] data@[j] as u32 == old(self).simulator.mem.byte(
                    (start_addr + j) as u32,
                ),
            decreases n - i,
        {
            let addr = start_addr + i as u32;
            let b = match self.simulator.mem.read_mem_with_privileges(addr, AccessSize::Byte, true) {
                Some(b) => b,
                None => {
                    return Err(TargetError::NonFatal);
                },
            };
            proof {
                let w = old(self).simulator.mem.word(addr);
                let sh = crate::memory::byte_shift(addr);
                assert(b == (w >> sh) & 0xff);
                assert((w >> sh) & 0xff <= 0xff) by (bit_vector);
            }
            data[i] = b as u8;
            i += 1;
        }
        Ok(n)
    }

    /// Writes `data` from `start_addr` without side effects on the guest; fails at the first
    /// byte outside the guest window (the bytes before it are written).
    pub fn write_addrs(&mut self, start_addr: u32, data: &[u8]) -> (r: Result<(), TargetError>)
        requires
            old(self).simulator.wf(),
        ensures
            final(self).simulator.wf(),
            final(self).simulator.mem.watch_trigger == old(self).simulator.mem.watch_trigger,
            final(self).simulator.mem.hw_watchpoints == old(self).simulator.mem.hw_watchpoints,
            final(self).simulator.mem.session_cycle_callback == old(self).simulator.mem.session_cycle_callback,
            final(self).simulator.hart_state == old(self).simulator.hart_state,
            final(self).exec_mode == old(self).exec_mode,
            final(self).breakpoints == old(self).breakpoints,
            r.is_ok() <==> crate::simulator::range_in_window(start_addr, data@.len() as int),
            r.is_err() ==> r == Err::<(), TargetError>(TargetError::NonFatal),
            r.is_ok() ==> forall|a: u32| #[trigger] final(self).simulator.mem.byte(a) == if start_addr <= a
                < start_addr + data@.len() {
                data@[a - start_addr] as u32
            } else {
                old(self).simulator.mem.byte(a)
            },
    {
        let mut i: usize = 0;
        while i < data.len()
            invariant
                i <= data.len(),
                self.simulator.wf(),
                self.simulator.mem.watch_trigger == old(self).simulator.mem.watch_trigger,
                self.simulator.mem.hw_watchpoints == old(self).simulator.mem.hw_watchpoints,
                self.simulator.mem.session_cycle_callback == old(self).simulator.mem.session_cycle_callback,
                self.simulator.hart_state == old(self).simulator.hart_state,
                self.simulator.stdin == old(self).simulator.stdin,
                self.simulator.stdout == old(self).simulator.stdout,
                self.simulator.stderr == old(self).simulator.stderr,
                self.simulator.journal == old(self).simulator.journal,
                self.exec_mode == old(self).exec_mode,
                self.breakpoints == old(self).breakpoints,
                crate::simulator::range_in_window(start_addr, i as int),
                forall|a: u32| #[trigger] self.simulator.mem.byte(a) == if start_addr <= a < start_addr + i {
                    data@[a - start_addr] as u32
                } else {
                    old(self).simulator.mem.byte(a)
                },
            decreases data.len() - i,
        {
            if start_addr as u64 + i as u64 >= 0x1_0000_0000 {
                return Err(TargetError::NonFatal);
            }
            let addr = start_addr + i as u32;
            if !self.simulator.mem.write_mem_with_privileges(addr, AccessSize::Byte, data[i] as u32, true) {
                return Err(TargetError::NonFatal);
            }
            proof {
                let d = data@[i as int] as u32;
                assert(d & 0xff == d) by (bit_vector)
                    requires
                        d <= 0xff,
                ;
            }
            i += 1;
        }
        Ok(())
    }

    /// Host I/O open: only the image's own name opens, as descriptor 0.
    pub fn open(&self, filename: &[u8]) -> (r: Result<u32, HostErrno>)
        ensures
            filename@ == EXEC_FILE_NAME.spec_bytes() ==> r == Ok::<u32, HostErrno>(0),
            filename@ != EXEC_FILE_NAME.spec_bytes() ==> r == Err::<u32, HostErrno>(HostErrno::NoEntry),
    {
        if crate::syscall::bytes_eq(filename, EXEC_FILE_NAME.as_bytes()) {
            Ok(0)
        } else {
            Err(HostErrno::NoEntry)
        }
    }

    /// Host I/O pread: bytes of the image from `offset`, at most `count`.
    pub fn pread(&self, fd: u32, count: usize, offset: u64, buf: &mut [u8]) -> (r: Result<usize, HostErrno>)
        ensures
            final(buf)@.len() == old(buf)@.len(),
            fd != 0 ==> r == Err::<usize, HostErrno>(HostErrno::BadFd),
            fd == 0 ==> {
                let part = data_range(self.elf@, offset as int, count as int);
                let n = if old(buf)@.len() <= part.len() {
                    old(buf)@.len()
                } else {
                    part.len()
                };
                &&& r == Ok::<usize, HostErrno>(n as usize)
                &&& final(buf)@.take(n as int) == part.take(n as int)
            },
    {
        if fd == 0 {
            Ok(copy_range_to_buf(self.elf.as_slice(), offset, count, buf))
        } else {
            Err(HostErrno::BadFd)
        }
    }

    /// Host I/O fstat: the size of the image.
    pub fn fstat(&self, fd: u32) -> (r: Result<u64, HostErrno>)
        ensures
            fd != 0 ==> r == Err::<u64, HostErrno>(HostErrno::BadFd),
            fd == 0 ==> r == Ok::<u64, HostErrno>(self.elf@.len() as u64),
    {
        if fd == 0 {
            Ok(self.elf.len() as u64)
        } else {
            Err(HostErrno::BadFd)
        }
    }

    /// Host I/O readlink: the running program is the image, its directory the root.
    pub fn readlink(&self, filename: &[u8], buf: &mut [u8]) -> (r: Result<usize, HostErrno>)
        ensures
            final(buf)@.len() == old(buf)@.len(),
            filename@ == PROC_EXE.spec_bytes() ==> r.is_ok() && final(buf)@.take(r.unwrap() as int)
                == EXEC_FILE_NAME.spec_bytes().take(r.unwrap() as int),
            filename@ != PROC_EXE.spec_bytes() && filename@ == PROC_CWD.spec_bytes() ==> r.is_ok()
                && final(buf)@.take(r.unwrap() as int) == ROOT_DIR.spec_bytes().take(r.unwrap() as int),
            filename@ != PROC_EXE.spec_bytes() && filename@ != PROC_CWD.spec_bytes() ==> r == Err::<
                usize,
                HostErrno,
            >(HostErrno::NoEntry),
    {
        if crate::syscall::bytes_eq(filename, PROC_EXE.as_bytes()) {
            Ok(copy_to_buf(EXEC_FILE_NAME.as_bytes(), buf))
        } else if crate::syscall::bytes_eq(filename, PROC_CWD.as_bytes()) {
            Ok(copy_to_buf(ROOT_DIR.as_bytes(), buf))
        } else {
            Err(HostErrno::NoEntry)
        }
    }

    /// The name of the executable, from `offset`, at most `length` bytes.
    pub fn get_exec_file(&self, offset: u64, length: usize, buf: &mut [u8]) -> (r: usize)
        ensures
            final(buf)@.len() == old(buf)@.len(),
            ({
                let part = data_range(EXEC_FILE_NAME.spec_bytes(), offset as int, length as int);
                &&& r == if old(buf)@.len() <= part.len() {
                    old(buf)@.len()
                } else {
                    part.len()
                }
                &&& final(buf)@.take(r as int) == part.take(r as int)
            }),
    {
        copy_range_to_buf(EXEC_FILE_NAME.as_bytes(), offset, length, buf)
    }
}

pub const PROC_EXE: &'static str = "/proc/1/exe";
pub const PROC_CWD: &'static str = "/proc/1/cwd";
pub const ROOT_DIR: &'static str = "/";

/// Host I/O errors.
#[derive(Clone, Copy, Debug, PartialEq, Eq, Structural)]
pub enum HostErrno {
    /// No such file.
    NoEntry,
    /// No such descriptor.
    BadFd,
}

/// The little-endian word of the first four bytes of `b`.
pub open spec fn le_word_of(b: Seq<u8>) -> u32 {
    (b[0] as u32) | ((b[1] as u32) << 8) | ((b[2] as u32) << 16) | ((b[3] as u32) << 24)
}

proof fn lemma_le_word_bytes(v: u32)
    ensures
        (((v & 0xff) as u8) as u32) | (((((v >> 8) & 0xff) as u8) as u32) << 8) | (((((v >> 16)
            & 0xff) as u8) as u32) << 16) | (((((v >> 24) & 0xff) as u8) as u32) << 24) == v,
{
    assert(((v & 0xff) as u8) as u32 == v & 0xff) by (bit_vector);
    assert((((v >> 8) & 0xff) as u8) as u32 == (v >> 8) & 0xff) by (bit_vector);
    assert((((v >> 16) & 0xff) as u8) as u32 == (v >> 16) & 0xff) by (bit_vector);
    assert((((v >> 24) & 0xff) as u8) as u32 == (v >> 24) & 0xff) by (bit_vector);
    assert((v & 0xff) | (((v >> 8) & 0xff) << 8) | (((v >> 16) & 0xff) << 16) | (((v >> 24) & 0xff)
        << 24) == v) by (bit_vector);
}

/// The index of the first `x` in `v`.
fn position_of(v: &Vec<(u32, u32, WatchKind)>, x: (u32, u32, WatchKind)) -> (r: Option<usize>)
    ensures
        match r {
            Some(i) => i < v@.len() && v@[i as int] == x && forall|j: int| 0 <= j < i ==> v@[j] != x,
            None => !v@.contains(x),
        },
{
    let mut i: usize = 0;
    while i < v.len()
        invariant
            i <= v.len(),
            forall|j: int| 0 <= j < i ==> v@[j] != x,
        decreases v.len() - i,
    {
        let e = v[i];
        if e.0 == x.0 && e.1 == x.1 && e.2 == x.2 {
            return Some(i);
        }
        i += 1;
    }
    None
}

/// The decimal digits of `n`.
pub open spec fn decimal(n: nat) -> Seq<u8>
    decreases n,
{
    if n < 10 {
        seq![(48 + n) as u8]
    } else {
        decimal(n / 10).push((48 + n % 10) as u8)
    }
}

/// Appends the decimal digits of `n` to `out`.
pub fn push_decimal(out: &mut Vec<u8>, n: u64)
    ensures
        final(out)@ == old(out)@ + decimal(n as nat),
    decreases n,
{
    if n < 10 {
        out.push((48 + n) as u8);
        assert(old(out)@.push((48 + n) as u8) =~= old(out)@ + decimal(n as nat));
    } else {
        push_decimal(out, n / 10);
        out.push((48 + n % 10) as u8);
        assert(old(out)@ + decimal((n / 10) as nat) + seq![(48 + n % 10) as u8] =~= old(out)@
            + decimal(n as nat));
    }
}

/// Appends the bytes of `s` to `out`.
fn push_str(out: &mut Vec<u8>, s: &str)
    ensures
        final(out)@ == old(out)@ + s.spec_bytes(),
{
    let b = s.as_bytes();
    let mut i: usize = 0;
    while i < b.len()
        invariant
            i <= b@.len(),
            b@ == s.spec_bytes(),
            out@ == old(out)@ + b@.take(i as int),
        decreases b.len() - i,
    {
        out.push(b[i]);
        proof {
            assert(b@.take(i + 1) == b@.take(i as int).push(b@[i as int]));
        }
        i += 1;
    }
    assert(b@.take(b@.len() as int) == b@);
}

pub const MONITOR_NOT_UTF8: &'static str = "command must be valid UTF-8";
pub const MONITOR_USAGE: &'static str = "Supported commands: c(ycle) -- display cycle counts, v(erbose) -- display detailed cycle information";
pub const MONITOR_SEGMENTS: &'static str = " segments finished, current segment has taken ";
pub const MONITOR_CYCLES: &'static str = " cycles, ";
pub const MONITOR_LOADED: &'static str = " pages are loaded, ";
pub const MONITOR_STORED: &'static str = " pages need to be stored";

impl Debugger {
    /// The line that monitor command `cmd` prints: `c...` the session's cycles, `v...` the
    /// segment count, the current segment's cycles with overhead, and its resident and dirty
    /// page counts, anything else the usage.
    pub fn handle_monitor_cmd(&self, cmd: &[u8]) -> (r: Vec<u8>)
        requires
            self.simulator.wf(),
        ensures
            !crate::syscall::utf8_valid(cmd@) ==> r@ == MONITOR_NOT_UTF8.spec_bytes(),
            crate::syscall::utf8_valid(cmd@) && cmd@.len() > 0 && cmd@[0] == 0x76 ==> {
                let c = self.simulator.counter();
                r@ == decimal(c.num_segment as nat) + MONITOR_SEGMENTS.spec_bytes() + decimal(
                    (c.cur_segment_cycle + crate::session_cycle::CONST_CYCLE) as nat,
                ) + MONITOR_CYCLES.spec_bytes() + decimal(c.cur_segment_resident@.len())
                    + MONITOR_LOADED.spec_bytes() + decimal(c.cur_segment_dirty@.len())
                    + MONITOR_STORED.spec_bytes()
            },
            crate::syscall::utf8_valid(cmd@) && cmd@.len() > 0 && cmd@[0] == 0x63 ==> r@ == decimal(
                self.simulator.session_cycle() as nat,
            ),
            crate::syscall::utf8_valid(cmd@) && !(cmd@.len() > 0 && (cmd@[0] == 0x76 || cmd@[0]
                == 0x63)) ==> r@ == MONITOR_USAGE.spec_bytes(),
    {
        let mut out: Vec<u8> = Vec::new();
        if crate::syscall::utf8_text(cmd).is_none() {
            push_str(&mut out, MONITOR_NOT_UTF8);
            return out;
        }
        let counter = match &self.simulator.mem.session_cycle_callback {
            Some(c) => c,
            None => {
                return out;
            },
        };
        if cmd.len() > 0 && cmd[0] == 0x76 {
            push_decimal(&mut out, counter.num_segment as u64);
            push_str(&mut out, MONITOR_SEGMENTS);
            push_decimal(
                &mut out,
                (counter.cur_segment_cycle + crate::session_cycle::CONST_CYCLE) as u64,
            );
            push_str(&mut out, MONITOR_CYCLES);
            push_decimal(&mut out, counter.cur_segment_resident.len() as u64);
            push_str(&mut out, MONITOR_LOADED);
            push_decimal(&mut out, counter.cur_segment_dirty.len() as u64);
            push_str(&mut out, MONITOR_STORED);
        } else if cmd.len() > 0 && cmd[0] == 0x63 {
            push_decimal(&mut out, counter.get_session_cycle() as u64);
        } else {
            push_str(&mut out, MONITOR_USAGE);
        }
        out
    }
}

/// A register read right after a register write gives the written value: writing puts the
/// little-endian word of the bytes in the register file, and reading hands that word back as the
/// same four bytes.
pub proof fn lemma_register_round_trip(regs: Seq<u32>, idx: int, val: Seq<u8>, buf: Seq<u8>)
    requires
        0 <= idx < regs.len(),
        val.len() >= 4,
        buf.len() == 4,
        le_word_of(buf) == regs.update(idx, le_word_of(val))[idx],
    ensures
        le_word_of(buf) == le_word_of(val),
        buf == val.take(4),
{
    let w = le_word_of(val);
    let (b0, b1, b2, b3) = (buf[0], buf[1], buf[2], buf[3]);
    let (v0, v1, v2, v3) = (val[0], val[1], val[2], val[3]);
    assert((b0 as u32) | ((b1 as u32) << 8) | ((b2 as u32) << 16) | ((b3 as u32) << 24) == (v0 as u32)
        | ((v1 as u32) << 8) | ((v2 as u32) << 16) | ((v3 as u32) << 24) ==> b0 == v0 && b1 == v1
        && b2 == v2 && b3 == v3) by (bit_vector);
    assert(buf =~= val.take(4));
}

} // verus!
