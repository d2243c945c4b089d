use vstd::prelude::*;
use crate::error::VmError;
use crate::memory::{AccessSize, Memory, WatchKind, in_window, latch, load_value, page_of, read_recorded};
use crate::session_cycle::{SessionCycleCount, get_opcode_cycle, lemma_booked_views, opcode_cycle};
use crate::syscall::{handle_syscall, utf8_text};

verus! {

pub const REG_T0: usize = 5;
pub const REG_A0: usize = 10;
pub const REG_A1: usize = 11;
pub const REG_A2: usize = 12;
pub const REG_A3: usize = 13;
pub const REG_A4: usize = 14;
pub const REG_A5: usize = 15;

pub const ECALL_HALT: u32 = 0;
pub const ECALL_INPUT: u32 = 1;
pub const ECALL_SOFTWARE: u32 = 2;
pub const ECALL_SHA: u32 = 3;
pub const ECALL_BIGINT: u32 = 4;

pub const HALT_TERMINATE: u32 = 0;
pub const HALT_PAUSE: u32 = 1;

pub const STDIN: u32 = 0;
pub const STDOUT: u32 = 1;
pub const STDERR: u32 = 2;
pub const JOURNAL: u32 = 3;

/// Registers and program counter of the single hart.
pub struct HartState {
    pub registers: [u32; 32],
    pub pc: u32,
}

impl HartState {
    pub fn new() -> (r: Self)
        ensures
            r.pc == 0,
            forall|i: int| 0 <= i < 32 ==> r.registers[i] == 0,
    {
        HartState { registers: [0u32; 32], pc: 0 }
    }
}

/// How a step ended, where it did not simply continue.
#[derive(Clone, Copy, Debug, PartialEq, Eq, Structural)]
pub enum ExitCode {
    /// The guest asked to be suspended, with its code.
    Paused(u32),
    /// The guest terminated normally, with its code.
    Halted(u32),
    /// A watchpoint stopped an access of the step.
    HwWatchPoint(WatchKind, u32),
}

/// A byte stream with a read position.
pub struct Channel {
    pub data: Vec<u8>,
    pub pos: usize,
}

impl Channel {
    pub open spec fn wf(&self) -> bool {
        self.pos <= self.data.len()
    }

    pub fn new() -> (r: Self)
        ensures
            r.wf(),
            r.data@.len() == 0,
            r.pos == 0,
    {
        Channel { data: Vec::new(), pos: 0 }
    }

    /// The bytes not yet read.
    pub open spec fn remaining(&self) -> Seq<u8> {
        self.data@.subrange(self.pos as int, self.data@.len() as int)
    }

    /// Appends `bytes` at the end.
    pub fn append(&mut self, bytes: &[u8])
        requires
            old(self).wf(),
        ensures
            final(self).wf(),
            final(self).data@ == old(self).data@ + bytes@,
            final(self).pos == old(self).pos,
    {
        let mut i: usize = 0;
        while i < bytes.len()
            invariant
                i <= bytes.len(),
                self.wf(),
                self.pos == old(self).pos,
                self.data@ == old(self).data@ + bytes@.take(i as int),
            decreases bytes.len() - i,
        {
            self.data.push(bytes[i]);
            proof {
                assert(bytes@.take(i + 1) == bytes@.take(i as int).push(bytes@[i as int]));
            }
            i += 1;
        }
        assert(bytes@.take(bytes.len() as int) == bytes@);
    }

    /// Moves up to `dst.len()` unread bytes into `dst`; returns how many.
    pub fn read_into(&mut self, dst: &mut [u8]) -> (n: usize)
        requires
            old(self).wf(),
        ensures
            final(self).wf(),
            final(self).data == old(self).data,
            n == if old(dst)@.len() <= old(self).remaining().len() {
                old(dst)@.len()
            } else {
                old(self).remaining().len()
            },
            final(self).pos == old(self).pos + n,
            final(dst)@.len() == old(dst)@.len(),
            final(dst)@.take(n as int) == old(self).remaining().take(n as int),
            final(dst)@.skip(n as int) == old(dst)@.skip(n as int),
    {
        let avail = self.data.len() - self.pos;
        let n = if dst.len() <= avail {
            dst.len()
        } else {
            avail
        };
        let mut i: usize = 0;
        while i < n
            invariant
                i <= n,
                n <= dst.len(),
                self.pos + n <= self.data.len(),
                *self == *old(self),
                dst@.len() == old(dst)@.len(),
                forall|j: int| 0 <= j < i ==> dst@[j] == self.data@[self.pos + j],
                forall|j: int| i <= j < dst@.len() ==> dst@[j] == old(dst)@[j],
            decreases n - i,
        {
            dst[i] = self.data[self.pos + i];
            i += 1;
        }
        self.pos = self.pos + n;
        assert(dst@.take(n as int) =~= old(self).remaining().take(n as int));
        assert(dst@.skip(n as int) =~= old(dst)@.skip(n as int));
        n
    }
}

/// Whether `insn` is an environment call.
pub open spec fn is_ecall(insn: u32) -> bool {
    &&& insn & 0x7f == 0b1110011
    &&& (insn & 0x7000) >> 12 == 0
    &&& ((insn & 0x01f0_0000) >> 20 == 0 || (insn & 0x01f0_0000) >> 20 == 1)
    &&& (insn & 0xfe00_0000) >> 25 == 0
}

/// The guest machine: memory, hart, host inputs and outputs.
pub struct Simulator {
    pub mem: Memory,
    pub hart_state: HartState,
    pub env: Vec<(Vec<u8>, Vec<u8>)>,
    pub stdin: Channel,
    pub stdout: Channel,
    pub stderr: Channel,
    pub journal: Channel,
    pub args: Vec<Vec<u8>>,
}

impl Simulator {
    pub open spec fn wf(&self) -> bool {
        &&& self.mem.wf()
        &&& self.mem.session_cycle_callback.is_some()
        &&& self.stdin.wf()
        &&& self.stdout.wf()
        &&& self.stderr.wf()
        &&& self.journal.wf()
    }

    /// The cycle accountant of the session.
    pub open spec fn counter(&self) -> SessionCycleCount {
        self.mem.session_cycle_callback.unwrap()
    }

    /// Total prover cycles of the session so far.
    pub open spec fn session_cycle(&self) -> int {
        self.counter().session_cycle()
    }

    /// What the simulator keeps across guest work: well-formedness and what `Memory::evolves` keeps.
    pub open spec fn kept(&self, new: &Simulator) -> bool {
        &&& new.wf()
        &&& self.mem.evolves(&new.mem)
    }

    /// Whether the instruction at the PC is a HALT that terminates or pauses.
    pub open spec fn halts_here(&self) -> bool {
        &&& in_window(self.hart_state.pc)
        &&& is_ecall(self.mem.word(self.hart_state.pc))
        &&& self.hart_state.registers[REG_T0 as int] == ECALL_HALT
        &&& self.hart_state.registers[REG_A0 as int] & 0xff <= 1
    }

    /// Whether the accountant, once the fetch at the PC is recorded, can book a step of base
    /// cost 1 and no extra cost: in the current segment, or in a fresh one.
    pub open spec fn books_halt(&self) -> bool {
        forall|c: SessionCycleCount|
            #[trigger] read_recorded(self.counter(), c, page_of(self.hart_state.pc)) ==> c.step_fits(
                1,
                0,
            ) || (c.step_fits_fresh(1, 0) && c.num_segment + 2 <= usize::MAX
                / crate::session_cycle::SEGMENT_LIMIT)
    }

    /// A machine over `mem` that starts at `entry`, with a fresh cycle accountant and the host
    /// environment `env` as name and value byte strings.
    pub fn new(mem: Memory, entry: u32, env: Vec<(Vec<u8>, Vec<u8>)>) -> (r: Self)
        requires
            mem.wf(),
        ensures
            r.wf(),
            r.hart_state.pc == entry,
            forall|i: int| 0 <= i < 32 ==> r.hart_state.registers[i] == 0,
            r.env == env,
            r.counter().num_segment == 0,
            r.counter().cur_segment_cycle == 0,
            r.mem.map == mem.map,
            r.mem.hw_watchpoints == mem.hw_watchpoints,
            r.stdin.data@.len() == 0,
            r.stdout.data@.len() == 0,
            r.stderr.data@.len() == 0,
            r.journal.data@.len() == 0,
            r.args@.len() == 0,
    {
        let mut mem = mem;
        let mut hart_state = HartState::new();
        hart_state.pc = entry;
        mem.with_session_cycle_callback(SessionCycleCount::new());
        Simulator {
            mem,
            hart_state,
            env,
            stdin: Channel::new(),
            stdout: Channel::new(),
            stderr: Channel::new(),
            journal: Channel::new(),
            args: Vec::new(),
        }
    }

    /// The session's prover cycles so far.
    pub fn session_cycle_count(&self) -> (r: usize)
        requires
            self.wf(),
        ensures
            r == self.session_cycle(),
    {
        match &self.mem.session_cycle_callback {
            Some(c) => c.get_session_cycle(),
            None => 0,
        }
    }

    /// Feeds `data` to the guest's input channel; only standard input takes input.
    pub fn write(&mut self, read_fd: u32, data: &[u8]) -> (r: Result<(), VmError>)
        requires
            old(self).wf(),
        ensures
            final(self).wf(),
            read_fd == STDIN ==> r.is_ok() && final(self).stdin.data@ == old(self).stdin.data@
                + data@ && final(self).stdin.pos == old(self).stdin.pos,
            read_fd != STDIN ==> r == Err::<(), VmError>(VmError::BadReadFd(read_fd)) && *final(self) == *old(self),
    {
        if read_fd == STDIN {
            self.stdin.append(data);
            Ok(())
        } else {
            Err(VmError::BadReadFd(read_fd))
        }
    }

    /// Takes exactly `len` unread bytes of output channel `write_fd` into `dst`.
    pub fn read(&mut self, write_fd: u32, len: usize, dst: &mut [u8]) -> (r: Result<(), VmError>)
        requires
            old(self).wf(),
            len <= old(dst)@.len(),
        ensures
            final(self).wf(),
            !(write_fd == STDOUT || write_fd == STDERR || write_fd == JOURNAL) ==> r == Err::<
                (),
                VmError,
            >(VmError::BadWriteFd(write_fd)),
            (write_fd == STDOUT || write_fd == STDERR || write_fd == JOURNAL) ==> {
                let ch = if write_fd == STDOUT {
                    old(self).stdout
                } else if write_fd == STDERR {
                    old(self).stderr
                } else {
                    old(self).journal
                };
                let ch2 = if write_fd == STDOUT {
                    final(self).stdout
                } else if write_fd == STDERR {
                    final(self).stderr
                } else {
                    final(self).journal
                };
                &&& (ch.remaining().len() < len) <==> r == Err::<(), VmError>(
                    VmError::NotEnoughOutput,
                )
                &&& r.is_ok() ==> final(dst)@.take(len as int) == ch.remaining().take(len as int)
                    && ch2.pos == ch.pos + len && ch2.data == ch.data
            },
    {
        if write_fd == STDOUT {
            read_channel(&mut self.stdout, len, dst)
        } else if write_fd == STDERR {
            read_channel(&mut self.stderr, len, dst)
        } else if write_fd == JOURNAL {
            read_channel(&mut self.journal, len, dst)
        } else {
            Err(VmError::BadWriteFd(write_fd))
        }
    }

    /// Appends all unread bytes of output channel `write_fd` to `dst`.
    pub fn read_to_end(&mut self, write_fd: u32, dst: &mut Vec<u8>) -> (r: Result<(), VmError>)
        requires
            old(self).wf(),
        ensures
            final(self).wf(),
            !(write_fd == STDOUT || write_fd == STDERR || write_fd == JOURNAL) ==> r == Err::<
                (),
                VmError,
            >(VmError::BadWriteFd(write_fd)),
            write_fd == STDOUT ==> r.is_ok() && final(dst)@ == old(dst)@ + old(self).stdout.remaining(),
            write_fd == STDERR ==> r.is_ok() && final(dst)@ == old(dst)@ + old(self).stderr.remaining(),
            write_fd == JOURNAL ==> r.is_ok() && final(dst)@ == old(dst)@ + old(self).journal.remaining(),
    {
        if write_fd == STDOUT {
            drain_channel(&mut self.stdout, dst);
            Ok(())
        } else if write_fd == STDERR {
            drain_channel(&mut self.stderr, dst);
            Ok(())
        } else if write_fd == JOURNAL {
            drain_channel(&mut self.journal, dst);
            Ok(())
        } else {
            Err(VmError::BadWriteFd(write_fd))
        }
    }

    /// Appends `args` to the guest's argument list.
    pub fn args(&mut self, args: Vec<Vec<u8>>)
        ensures
            final(self).args@ == old(self).args@ + args@,
            final(self).mem == old(self).mem,
            final(self).hart_state == old(self).hart_state,
            final(self).stdin == old(self).stdin,
            final(self).stdout == old(self).stdout,
            final(self).stderr == old(self).stderr,
            final(self).journal == old(self).journal,
    {
        let mut args = args;
        self.args.append(&mut args);
    }
}

/// Takes exactly `len` unread bytes of `ch` into `dst`.
fn read_channel(ch: &mut Channel, len: usize, dst: &mut [u8]) -> (r: Result<(), VmError>)
    requires
        old(ch).wf(),
        len <= old(dst)@.len(),
    ensures
        final(ch).wf(),
        (old(ch).remaining().len() < len) <==> r == Err::<(), VmError>(VmError::NotEnoughOutput),
        r.is_err() ==> *final(ch) == *old(ch),
        r.is_ok() ==> final(dst)@.take(len as int) == old(ch).remaining().take(len as int)
            && final(ch).pos == old(ch).pos + len && final(ch).data == old(ch).data,
{
    if ch.data.len() - ch.pos < len {
        return Err(VmError::NotEnoughOutput);
    }
    let mut i: usize = 0;
    while i < len
        invariant
            i <= len,
            len <= dst@.len(),
            ch.pos + len <= ch.data.len(),
            *ch == *old(ch),
            forall|j: int| 0 <= j < i ==> dst@[j] == ch.data@[ch.pos + j],
        decreases len - i,
    {
        dst[i] = ch.data[ch.pos + i];
        i += 1;
    }
    ch.pos = ch.pos + len;
    assert(dst@.take(len as int) =~= old(ch).remaining().take(len as int));
    Ok(())
}

/// Appends the unread bytes of `ch` to `dst` and marks them read.
fn drain_channel(ch: &mut Channel, dst: &mut Vec<u8>)
    requires
        old(ch).wf(),
    ensures
        final(ch).wf(),
        final(ch).data == old(ch).data,
        final(ch).pos == old(ch).data.len(),
        final(dst)@ == old(dst)@ + old(ch).remaining(),
{
    let mut i: usize = ch.pos;
    while i < ch.data.len()
        invariant
            old(ch).pos <= i <= ch.data.len(),
            *ch == *old(ch),
            dst@ == old(dst)@ + ch.data@.subrange(ch.pos as int, i as int),
        decreases ch.data.len() - i,
    {
        dst.push(ch.data[i]);
        proof {
            assert(ch.data@.subrange(ch.pos as int, i + 1) == ch.data@.subrange(
                ch.pos as int,
                i as int,
            ).push(ch.data@[i as int]));
        }
        i += 1;
    }
    ch.pos = ch.data.len();
}

/// What rrs_lib's executor does with the instruction at `pc`, given the registers and the
/// guest's pages: whether it ran without an exception, then the registers, PC and pages after it.
pub uninterp spec fn rv32_step(regs: Seq<u32>, pc: u32, pages: Map<u32, Seq<u32>>) -> (
    bool,
    Seq<u32>,
    u32,
    Map<u32, Seq<u32>>,
);

/// Relies on rrs_lib's InstructionExecutor::step: it runs the one RV32IM instruction at `pc`;
/// what it does depends on the registers, the PC and what memory holds, and it reaches memory
/// only through the `rrs_lib::Memory` methods of `Memory`, whose verified bodies keep what
/// `Memory::evolves` states. `false` where it raised an exception. `addi x0, x0, 0` (0x13)
/// writes no register (x0 is ignored), moves the PC on by 4, and its one memory access is the
/// guest read of the word at `pc` that fetches it.
#[verifier::external_body]
fn execute_instruction(mem: &mut Memory, hart: &mut HartState) -> (r: bool)
    ensures
        ({
            let res = rv32_step(old(hart).registers@, old(hart).pc, old(mem).pages());
            &&& r == res.0
            &&& final(hart).registers@ == res.1
            &&& final(hart).pc == res.2
            &&& final(mem).pages() == res.3
        }),
        old(mem).wf() ==> old(mem).evolves(final(mem)),
        in_window(old(hart).pc) && old(hart).pc % 4 == 0 && old(mem).word(old(hart).pc) == 0x13 ==> {
            &&& r
            &&& final(hart).registers == old(hart).registers
            &&& final(hart).pc == old(hart).pc + 4
            &&& final(mem).same_contents(old(mem))
            &&& final(mem).watch_trigger == latch(
                old(mem).hw_watchpoints@,
                old(mem).watch_trigger,
                old(hart).pc,
                4,
                false,
            )
            &&& match old(mem).session_cycle_callback {
                Some(c) => final(mem).session_cycle_callback.is_some() && read_recorded(
                    c,
                    final(mem).session_cycle_callback.unwrap(),
                    page_of(old(hart).pc),
                ),
                None => final(mem).session_cycle_callback.is_none(),
            }
        },
{
    let mut state = rrs_lib::HartState::new();
    state.registers = hart.registers;
    state.pc = hart.pc;
    let mut exec = rrs_lib::instruction_executor::InstructionExecutor {
        mem,
        hart_state: &mut state,
    };
    let ok = exec.step().is_ok();
    hart.registers = state.registers;
    hart.pc = state.pc;
    ok
}

/// The extra cycles that the ECALL selected by `t0` costs: 2 plus `a1` rounded up to four
/// for SOFTWARE, 73 per block for SHA, 9 for BIGINT, none for HALT and INPUT.
pub open spec fn ecall_extra(s: &Simulator) -> int {
    let t0 = s.hart_state.registers[REG_T0 as int];
    if t0 == ECALL_SOFTWARE {
        2 + align_up_4(s.hart_state.registers[REG_A1 as int] as int)
    } else if t0 == ECALL_SHA {
        73 * s.hart_state.registers[REG_A4 as int]
    } else if t0 == ECALL_BIGINT {
        9
    } else {
        0
    }
}

/// The exit code that a HALT with `a0` gives, if its halt type is known.
pub open spec fn halt_exit(a0: u32) -> Option<ExitCode> {
    if a0 & 0xff == HALT_TERMINATE {
        Some(ExitCode::Halted((a0 >> 8) & 0xff))
    } else if a0 & 0xff == HALT_PAUSE {
        Some(ExitCode::Paused((a0 >> 8) & 0xff))
    } else {
        None
    }
}

impl Simulator {
    /// What one step guarantees, from `old` to `new` with result `r`.
    /// - A fetch outside the window, or an unpriced instruction, fails; a failed step books
    ///   nothing, a successful one books at least its opcode cost.
    /// - A HALT returns its exit code, leaves the hart as it was, and books one cycle plus the
    ///   paging of the fetch.
    /// - Any other instruction does what the executor does with it, and fails for an exception
    ///   exactly when the executor raises one.
    /// - The trigger is cleared first: a fetch that a read watchpoint overlaps is reported
    ///   (unless the step halts), and an ECALL whose fetch hits none reports no watchpoint.
    pub open spec fn step_spec(old: &Simulator, new: &Simulator, r: Result<Option<ExitCode>, VmError>) -> bool {
        let pc = old.hart_state.pc;
        let insn = old.mem.word(pc);
        let fetch_hit = latch(old.mem.hw_watchpoints@, None, pc, 4, false);
        let exec = rv32_step(old.hart_state.registers@, pc, old.mem.pages());
        &&& new.wf()
        &&& r.is_ok() ==> new.session_cycle() > old.session_cycle()
        &&& r.is_err() ==> new.session_cycle() == old.session_cycle()
        &&& !in_window(pc) ==> r == Err::<Option<ExitCode>, VmError>(VmError::FetchFault(pc))
        &&& in_window(pc) && opcode_cycle(insn) is None ==> r == Err::<Option<ExitCode>, VmError>(
            VmError::IllegalInstruction(insn),
        )
        &&& old.halts_here() && old.books_halt() ==> r.is_ok()
        &&& old.halts_here() && r.is_ok() ==> {
            &&& r == Ok::<Option<ExitCode>, VmError>(halt_exit(old.hart_state.registers[REG_A0 as int]))
            &&& new.hart_state == old.hart_state
            &&& forall|c: SessionCycleCount| #[trigger]
                read_recorded(old.counter(), c, page_of(pc)) ==> c.booked(&new.counter(), 1, 0)
        }
        &&& in_window(pc) && is_ecall(insn) && r.is_ok() ==> forall|c: SessionCycleCount| #[trigger]
            read_recorded(old.counter(), c, page_of(pc)) ==> c.booked(&new.counter(), 1, ecall_extra(old))
        &&& in_window(pc) && pc % 4 == 0 && insn == 0x13 ==> {
            &&& (forall|c: SessionCycleCount| #[trigger]
                read_recorded(old.counter(), c, page_of(pc)) ==> c.accepts(1, 0)) ==> r.is_ok()
            &&& r.is_ok() ==> {
                &&& new.hart_state.registers == old.hart_state.registers
                &&& new.hart_state.pc == pc + 4
                &&& new.mem.same_contents(&old.mem)
                &&& r == Ok::<Option<ExitCode>, VmError>(
                    match fetch_hit {
                        Some(h) => Some(ExitCode::HwWatchPoint(h.0, h.1)),
                        None => None,
                    },
                )
                &&& forall|c: SessionCycleCount| #[trigger]
                    read_recorded(old.counter(), c, page_of(pc)) ==> c.booked(&new.counter(), 1, 0)
            }
        }
        &&& in_window(pc) && opcode_cycle(insn) is Some && !is_ecall(insn) ==> {
            &&& (r == Err::<Option<ExitCode>, VmError>(VmError::ExecutionFault(pc))) <==> !exec.0
            &&& exec.0 && r.is_err() ==> (r == Err::<Option<ExitCode>, VmError>(
                VmError::SegmentOverflow,
            ) || r == Err::<Option<ExitCode>, VmError>(VmError::CycleCountOverflow))
            &&& r.is_ok() ==> new.hart_state.registers@ == exec.1 && new.hart_state.pc == exec.2
                && new.mem.pages() == exec.3
        }
        &&& in_window(pc) && fetch_hit.is_some() && r.is_ok() ==> (r == Ok::<Option<ExitCode>, VmError>(
            Some(ExitCode::HwWatchPoint(fetch_hit.unwrap().0, fetch_hit.unwrap().1)),
        ) || r matches Ok(Some(ExitCode::Halted(_))) || r matches Ok(Some(ExitCode::Paused(_))))
        &&& in_window(pc) && is_ecall(insn) && fetch_hit.is_none() ==> !(r matches Ok(
            Some(ExitCode::HwWatchPoint(_, _)),
        ))
        &&& r == Ok::<Option<ExitCode>, VmError>(None) ==> new.mem.watch_trigger.is_none() && forall|a: u32|
            !in_window(a) ==> #[trigger] new.mem.word(a) == old.mem.word(a)
        &&& match r {
            Ok(Some(ExitCode::HwWatchPoint(k, a))) => new.mem.watch_trigger == Some((k, a)),
            _ => true,
        }
    }

    /// Runs one instruction: clears the watch trigger, fetches at the PC (a guest read),
    /// prices the instruction, runs it (an ECALL through `ecall`), books its cycles, and reports
    /// a latched watchpoint where the instruction itself did not stop.
    pub fn step(&mut self) -> (r: Result<Option<ExitCode>, VmError>)
        requires
            old(self).wf(),
        ensures
            Simulator::step_spec(old(self), final(self), r),
    {
        self.mem.watch_trigger = None;
        let pc = self.hart_state.pc;
        let insn = match self.mem.read_mem_with_privileges(pc, AccessSize::Word, false) {
            Some(w) => w,
            None => {
                return Err(VmError::FetchFault(pc));
            },
        };
        let ghost fetched = self.mem.session_cycle_callback.unwrap();
        proof {
            if old(self).halts_here() {
                assert(read_recorded(old(self).counter(), fetched, page_of(pc)));
            }
            assert(self.mem.watch_trigger == latch(old(self).mem.hw_watchpoints@, None, pc, 4, false));
            if insn == 0x13 {
                assert(insn & 0x7f == 0x13 && (insn & 0x7000) >> 12 == 0 && (insn & 0xfe00_0000) >> 25
                    == 0) by (bit_vector)
                    requires
                        insn == 0x13,
                ;
            }
        }
        let opcode_cycle = match get_opcode_cycle(insn) {
            Ok(c) => c,
            Err(e) => {
                return Err(e);
            },
        };
        let opcode = insn & 0x7f;
        let rs2 = (insn & 0x01f0_0000) >> 20;
        let funct3 = (insn & 0x7000) >> 12;
        let funct7 = (insn & 0xfe00_0000) >> 25;
        let mut exit: Option<ExitCode> = None;
        let mut extra_cycle: usize = 0;
        if opcode == 0b1110011 && funct3 == 0 && (rs2 == 0 || rs2 == 1) && funct7 == 0 {
            let res = match self.ecall() {
                Ok(res) => res,
                Err(e) => {
                    return Err(e);
                },
            };
            self.hart_state.pc = res.0;
            exit = res.1;
            extra_cycle = res.2;
        } else {
            let ghost fetched_mem = self.mem;
            proof {
                assert(insn == 0 ==> insn & 0x7f == 0) by (bit_vector);
                assert(insn != 0);
                crate::memory::lemma_unallocated_zero(old(self).mem, pc);
                assert(self.mem.map@.dom() =~= old(self).mem.map@.dom());
                crate::memory::lemma_pages_same(self.mem, old(self).mem);
            }
            if !execute_instruction(&mut self.mem, &mut self.hart_state) {
                return Err(VmError::ExecutionFault(pc));
            }
            proof {
                if insn == 0x13 && pc % 4 == 0 {
                    assert(fetched_mem.word(pc) == 0x13);
                    assert(self.mem.same_contents(&old(self).mem)) by {
                        assert forall|p: u32| #[trigger] self.mem.page(p) == old(self).mem.page(p) by {
                            assert(self.mem.page(p) == fetched_mem.page(p));
                            assert(fetched_mem.page(p) == old(self).mem.page(p));
                        }
                    }
                }
            }
        }
        let ghost pre = self.mem.session_cycle_callback.unwrap();
        let ghost before_booking = self.mem;
        proof {
            if is_ecall(insn) || (insn == 0x13 && pc % 4 == 0) {
                let pg = page_of(pc);
                assert(fetched.cur_step_read@.contains(pg)) by {
                    let o = old(self).counter().cur_step_read@;
                    if !o.contains(pg) {
                        assert(fetched.cur_step_read@[o.len() as int] == pg);
                    }
                }
                if !is_ecall(insn) {
                    assert(read_recorded(fetched, pre, pg));
                }
                assert(pre.cur_step_read@ == fetched.cur_step_read@);
                assert forall|c: SessionCycleCount| #[trigger]
                    read_recorded(old(self).counter(), c, page_of(pc)) implies c.cur_step_read@
                    == pre.cur_step_read@ && c.cur_step_write@ == pre.cur_step_write@
                    && c.cur_segment_resident@ == pre.cur_segment_resident@
                    && c.cur_segment_dirty@ == pre.cur_segment_dirty@ && c.num_segment
                    == pre.num_segment && c.cur_segment_cycle == pre.cur_segment_cycle by {}
            }
        }
        match &mut self.mem.session_cycle_callback {
            Some(c) => match c.callback_step(opcode_cycle, extra_cycle) {
                Ok(()) => {},
                Err(e) => {
                    proof {
                        if insn == 0x13 && pc % 4 == 0 {
                            lemma_booked_views(fetched, pre, pre, 1, 0);
                        }
                    }
                    return Err(e);
                },
            },
            None => {},
        }
        proof {
            if is_ecall(insn) || (insn == 0x13 && pc % 4 == 0) {
                assert forall|c: SessionCycleCount| #[trigger]
                    read_recorded(old(self).counter(), c, page_of(pc)) implies c.booked(
                    &self.counter(),
                    1,
                    extra_cycle as int,
                ) by {
                    lemma_booked_views(c, pre, self.counter(), 1, extra_cycle as int);
                }
            }
        }
        proof {
            if is_ecall(insn) {
                assert(extra_cycle as int == ecall_extra(old(self)));
            }
            if insn == 0x13 && pc % 4 == 0 {
                assert(self.mem.watch_trigger == latch(old(self).mem.hw_watchpoints@, None, pc, 4, false));
                assert(self.hart_state.registers == old(self).hart_state.registers);
                assert(self.hart_state.pc == pc + 4);
                assert(exit.is_none());
                assert(self.mem.map == before_booking.map);
                assert forall|p: u32| #[trigger] self.mem.page(p) == old(self).mem.page(p) by {
                    assert(self.mem.page(p) == before_booking.page(p));
                    assert(before_booking.page(p) == old(self).mem.page(p));
                }
            }
            if (is_ecall(insn) || (insn == 0x13 && pc % 4 == 0)) {
                assert(forall|c: SessionCycleCount| #[trigger]
                    read_recorded(old(self).counter(), c, page_of(pc)) ==> c.booked(&self.counter(), 1, extra_cycle as int));
            }
            assert(self.session_cycle() > old(self).session_cycle());
        }
        if exit.is_none() && self.mem.watch_trigger.is_some() {
            let (kind, addr) = self.mem.watch_trigger.unwrap();
            return Ok(Some(ExitCode::HwWatchPoint(kind, addr)));
        }
        proof {
            self.lemma_window_zero(old(self).mem);
        }
        Ok(exit)
    }

    /// Outside the guest window both memories read zero, so alike.
    proof fn lemma_window_zero(&self, before: Memory)
        requires
            self.mem.wf(),
            before.wf(),
        ensures
            forall|a: u32| !in_window(a) ==> #[trigger] self.mem.word(a) == before.word(a),
    {
        assert forall|a: u32| !in_window(a) implies #[trigger] self.mem.word(a) == before.word(a) by {
            crate::memory::lemma_outside_window_untouched(self.mem, a);
            crate::memory::lemma_outside_window_untouched(before, a);
        }
    }

    /// Runs the environment call selected by `t0`; returns the next PC, the exit code, and the
    /// extra cycles that the call costs.
    pub fn ecall(&mut self) -> (r: Result<(u32, Option<ExitCode>, usize), VmError>)
        requires
            old(self).wf(),
        ensures
            final(self).mem.watch_trigger == old(self).mem.watch_trigger,
            final(self).mem.session_cycle_callback == old(self).mem.session_cycle_callback,
            old(self).kept(final(self)),
            final(self).session_cycle() == old(self).session_cycle(),
            r.is_ok() ==> !(r.unwrap().1 matches Some(ExitCode::HwWatchPoint(_, _))),
            r.is_ok() ==> r.unwrap().2 as int == ecall_extra(old(self)),
            old(self).hart_state.registers[REG_T0 as int] == ECALL_HALT ==> r == old(
                self,
            ).halt_result() && *final(self) == *old(self),
            old(self).hart_state.registers[REG_T0 as int] == ECALL_INPUT ==> r == Ok::<
                (u32, Option<ExitCode>, usize),
                VmError,
            >((old(self).hart_state.pc.wrapping_add(4), None, 0)),
            old(self).hart_state.registers[REG_T0 as int] > ECALL_BIGINT ==> r == Err::<
                (u32, Option<ExitCode>, usize),
                VmError,
            >(VmError::UnknownEcall(old(self).hart_state.registers[REG_T0 as int])),
    {
        let t0 = self.hart_state.registers[REG_T0];
        if t0 == ECALL_HALT {
            self.ecall_halt()
        } else if t0 == ECALL_INPUT {
            self.ecall_input()
        } else if t0 == ECALL_SOFTWARE {
            self.ecall_software()
        } else if t0 == ECALL_SHA {
            self.ecall_sha()
        } else if t0 == ECALL_BIGINT {
            self.ecall_bigint()
        } else {
            Err(VmError::UnknownEcall(t0))
        }
    }

    /// What a HALT returns for the current `a0`.
    pub open spec fn halt_result(&self) -> Result<(u32, Option<ExitCode>, usize), VmError> {
        let a0 = self.hart_state.registers[REG_A0 as int];
        match halt_exit(a0) {
            Some(e) => Ok((self.hart_state.pc, Some(e), 0)),
            None => Err(VmError::IllegalHaltType(a0 & 0xff)),
        }
    }

    /// HALT: `a0`'s low byte says terminate or pause, its next byte is the guest's code.
    /// The PC stays on the ECALL, so the stop is idempotent.
    pub fn ecall_halt(&mut self) -> (r: Result<(u32, Option<ExitCode>, usize), VmError>)
        ensures
            r == old(self).halt_result(),
            *final(self) == *old(self),
    {
        let tot_reg = self.hart_state.registers[REG_A0];
        let halt_type = tot_reg & 0xff;
        let user_exit = (tot_reg >> 8) & 0xff;
        if halt_type == HALT_TERMINATE {
            Ok((self.hart_state.pc, Some(ExitCode::Halted(user_exit)), 0))
        } else if halt_type == HALT_PAUSE {
            Ok((self.hart_state.pc, Some(ExitCode::Paused(user_exit)), 0))
        } else {
            Err(VmError::IllegalHaltType(halt_type))
        }
    }

    /// INPUT: nothing to do but move past the ECALL.
    pub fn ecall_input(&mut self) -> (r: Result<(u32, Option<ExitCode>, usize), VmError>)
        ensures
            r == Ok::<(u32, Option<ExitCode>, usize), VmError>(
                (old(self).hart_state.pc.wrapping_add(4), None, 0),
            ),
            *final(self) == *old(self),
    {
        Ok((self.hart_state.pc.wrapping_add(4), None, 0))
    }
}

/// Whether the `len` bytes from `ptr` all lie in the guest window.
pub open spec fn range_in_window(ptr: u32, len: int) -> bool {
    len <= 0 || (0x400 <= ptr && ptr + len <= 0x0C00_0000)
}

impl Simulator {
    /// Reads `len` bytes from `ptr` for the host, one byte at a time, without guest-visible
    /// side effects.
    pub fn read_guest_bytes(&mut self, ptr: u32, len: u32) -> (r: Result<Vec<u8>, VmError>)
        requires
            old(self).wf(),
        ensures
            final(self).mem.watch_trigger == old(self).mem.watch_trigger,
            final(self).mem.session_cycle_callback == old(self).mem.session_cycle_callback,
            old(self).kept(final(self)),
            final(self).mem.same_contents(&old(self).mem),
            final(self).hart_state == old(self).hart_state,
            final(self).env == old(self).env,
            final(self).args == old(self).args,
            final(self).stdin == old(self).stdin,
            final(self).stdout == old(self).stdout,
            final(self).stderr == old(self).stderr,
            final(self).journal == old(self).journal,
            r.is_ok() <==> range_in_window(ptr, len as int),
            r.is_err() ==> r == Err::<Vec<u8>, VmError>(VmError::GuestRead(ptr)),
            r.is_ok() ==> r.unwrap()@.len() == len && forall|i: int|
                0 <= i < len ==> #[trigger] r.unwrap()@[i] == old(self).mem.byte((ptr + i) as u32),
    {
        let mut out: Vec<u8> = Vec::new();
        let mut i: u32 = 0;
        while i < len
            invariant
                i <= len,
                self.mem.watch_trigger == old(self).mem.watch_trigger,
                self.mem.session_cycle_callback == old(self).mem.session_cycle_callback,
                old(self).kept(self),
                self.mem.same_contents(&old(self).mem),
                self.hart_state == old(self).hart_state,
                self.env == old(self).env,
                self.args == old(self).args,
                self.stdin == old(self).stdin,
                self.stdout == old(self).stdout,
                self.stderr == old(self).stderr,
                self.journal == old(self).journal,
                range_in_window(ptr, i as int),
                out@.len() == i,
                forall|j: int| 0 <= j < i ==> #[trigger] out@[j] == old(self).mem.byte((ptr + j) as u32),
            decreases len - i,
        {
            if ptr as u64 + i as u64 >= 0x1_0000_0000 {
                return Err(VmError::GuestRead(ptr));
            }
            let addr = ptr + i;
            match self.mem.read_mem_with_privileges(addr, AccessSize::Byte, true) {
                Some(b) => {
                    proof {
                        let w = old(self).mem.word(addr);
                        let sh = crate::memory::byte_shift(addr);
                        assert(b == (w >> sh) & 0xff);
                        assert((w >> sh) & 0xff <= 0xff) by (bit_vector);
                    }
                    out.push(b as u8);
                },
                None => {
                    return Err(VmError::GuestRead(ptr));
                },
            }
            i += 1;
        }
        Ok(out)
    }

    /// Writes `data` from `ptr` for the host, one byte at a time, without guest-visible side
    /// effects.
    pub fn write_guest_bytes(&mut self, ptr: u32, data: &[u8]) -> (r: Result<(), VmError>)
        requires
            old(self).wf(),
        ensures
            final(self).mem.watch_trigger == old(self).mem.watch_trigger,
            final(self).mem.session_cycle_callback == old(self).mem.session_cycle_callback,
            old(self).kept(final(self)),
            final(self).hart_state == old(self).hart_state,
            final(self).env == old(self).env,
            final(self).args == old(self).args,
            final(self).stdin == old(self).stdin,
            final(self).stdout == old(self).stdout,
            final(self).stderr == old(self).stderr,
            final(self).journal == old(self).journal,
            r.is_ok() <==> range_in_window(ptr, data@.len() as int),
            r.is_err() ==> r == Err::<(), VmError>(VmError::GuestWrite(ptr)),
            r.is_ok() ==> forall|a: u32| #[trigger] final(self).mem.byte(a) == if ptr <= a < ptr
                + data@.len() {
                data@[a - ptr] as u32
            } else {
                old(self).mem.byte(a)
            },
    {
        let mut i: usize = 0;
        while i < data.len()
            invariant
                i <= data.len(),
                self.mem.watch_trigger == old(self).mem.watch_trigger,
                self.mem.session_cycle_callback == old(self).mem.session_cycle_callback,
                old(self).kept(self),
                self.hart_state == old(self).hart_state,
                self.env == old(self).env,
                self.args == old(self).args,
                self.stdin == old(self).stdin,
                self.stdout == old(self).stdout,
                self.stderr == old(self).stderr,
                self.journal == old(self).journal,
                range_in_window(ptr, i as int),
                forall|a: u32| #[trigger] self.mem.byte(a) == if ptr <= a < ptr + i {
                    data@[a - ptr] as u32
                } else {
                    old(self).mem.byte(a)
                },
            decreases data.len() - i,
        {
            if ptr as u64 + i as u64 >= 0x1_0000_0000 {
                return Err(VmError::GuestWrite(ptr));
            }
            let addr = ptr + i as u32;
            if !self.mem.write_mem_with_privileges(addr, AccessSize::Byte, data[i] as u32, true) {
                return Err(VmError::GuestWrite(ptr));
            }
            proof {
                let d = data@[i as int] as u32;
                assert(d & 0xff == d) by (bit_vector)
                    requires
                        d <= 0xff,
                ;
            }
            i += 1;
        }
        Ok(())
    }
}

/// The zero-terminated name at `ptr` in `m` is `n` bytes long: its bytes and the terminator lie
/// in the guest window.
pub open spec fn name_ends_at(m: Memory, ptr: u32, n: int) -> bool {
    &&& n >= 0
    &&& forall|i: int| 0 <= i < n ==> #[trigger] name_char(m, ptr, i)
    &&& 0x400 <= ptr + n < 0x0C00_0000
    &&& m.byte((ptr + n) as u32) == 0
}

/// Byte `i` of the name at `ptr` lies in the guest window and is no terminator.
pub open spec fn name_char(m: Memory, ptr: u32, i: int) -> bool {
    0x400 <= ptr + i < 0x0C00_0000 && m.byte((ptr + i) as u32) != 0
}

/// The `n` bytes of the name at `ptr`.
pub open spec fn name_bytes(m: Memory, ptr: u32, n: int) -> Seq<u8> {
    Seq::new(n as nat, |i: int| m.byte((ptr + i) as u32) as u8)
}

/// A zero-terminated name has one length.
pub proof fn lemma_name_unique(m: Memory, ptr: u32, n: int, k: int)
    requires
        name_ends_at(m, ptr, n),
        name_ends_at(m, ptr, k),
    ensures
        n == k,
{
    if n < k {
        assert(name_char(m, ptr, n));
    } else if k < n {
        assert(name_char(m, ptr, k));
    }
}

/// `words` rounded up to a multiple of four.
pub open spec fn align_up_4(words: int) -> int {
    (words + 3) / 4 * 4
}

impl Simulator {
    /// SOFTWARE: runs the host call whose zero-terminated name is at `a2`, with a buffer of
    /// `a1` words that is then copied byte by byte to `a0` unless `a0` is zero. `a0` must be
    /// zero or lie in the guest window. Costs `2 + align_up(a1, 4)` cycles.
    pub fn ecall_software(&mut self) -> (r: Result<(u32, Option<ExitCode>, usize), VmError>)
        requires
            old(self).wf(),
        ensures
            final(self).mem.watch_trigger == old(self).mem.watch_trigger,
            final(self).mem.session_cycle_callback == old(self).mem.session_cycle_callback,
            old(self).kept(final(self)),
            final(self).session_cycle() == old(self).session_cycle(),
            final(self).hart_state.pc == old(self).hart_state.pc,
            ({
                let ptr = old(self).hart_state.registers[REG_A0 as int];
                let words = old(self).hart_state.registers[REG_A1 as int];
                &&& !(ptr == 0 || in_window(ptr)) ==> r == Err::<(u32, Option<ExitCode>, usize), VmError>(
                    VmError::InvalidGuestPointer(ptr),
                )
                &&& r.is_ok() ==> r.unwrap() == (
                    old(self).hart_state.pc.wrapping_add(4),
                    None::<ExitCode>,
                    (2 + align_up_4(words as int)) as usize,
                )
                &&& r.is_ok() && ptr != 0 ==> range_in_window(ptr, 4 * words)
            }),
            ({
                let ptr = old(self).hart_state.registers[REG_A0 as int];
                let words = old(self).hart_state.registers[REG_A1 as int];
                let name_ptr = old(self).hart_state.registers[REG_A2 as int];
                let m = old(self).mem;
                let valid = ptr == 0 || in_window(ptr);
                let fits = words <= usize::MAX / 4 - 2;
                &&& !valid ==> *final(self) == *old(self)
                &&& valid && !fits ==> r == Err::<(u32, Option<ExitCode>, usize), VmError>(VmError::BufferTooLarge)
                    && *final(self) == *old(self)
                &&& valid && fits && (forall|n: int| !#[trigger] name_ends_at(m, name_ptr, n)) ==> r == Err::<
                    (u32, Option<ExitCode>, usize),
                    VmError,
                >(VmError::GuestRead(name_ptr))
                &&& forall|n: int|
                    valid && fits && #[trigger] name_ends_at(m, name_ptr, n) ==> {
                        let name = name_bytes(m, name_ptr, n);
                        &&& !crate::syscall::utf8_valid(name) ==> r == Err::<
                            (u32, Option<ExitCode>, usize),
                            VmError,
                        >(VmError::InvalidUtf8)
                        &&& r.is_ok() ==> crate::syscall::utf8_valid(name)
                        &&& crate::syscall::utf8_valid(name) && (ptr == 0 || range_in_window(ptr, 4 * words))
                            && (crate::syscall::host_call(name) == crate::syscall::HostCall::CycleCount
                            || crate::syscall::host_call(name) == crate::syscall::HostCall::Verify
                            || crate::syscall::host_call(name) == crate::syscall::HostCall::ArgC) ==> r.is_ok()
                        &&& r.is_ok() && ptr != 0 && (crate::syscall::host_call(name)
                            == crate::syscall::HostCall::CycleCount || crate::syscall::host_call(name)
                            == crate::syscall::HostCall::Verify || crate::syscall::host_call(name)
                            == crate::syscall::HostCall::ArgC) ==> forall|i: int|
                            0 <= i < 4 * words ==> #[trigger] final(self).mem.byte((ptr + i) as u32) == 0
                    }
                &&& r.is_ok() ==> exists|n: int| #[trigger] name_ends_at(m, name_ptr, n)
            }),
    {
        let to_guest_ptr = self.hart_state.registers[REG_A0];
        if !(to_guest_ptr == 0 || (crate::memory::GUEST_MIN_MEM <= to_guest_ptr && to_guest_ptr
            < crate::memory::GUEST_MAX_MEM)) {
            return Err(VmError::InvalidGuestPointer(to_guest_ptr));
        }
        let to_guest_words = self.hart_state.registers[REG_A1];
        let name_ptr = self.hart_state.registers[REG_A2];
        if to_guest_words as u64 > (usize::MAX / 4) as u64 - 2 {
            return Err(VmError::BufferTooLarge);
        }
        let chunks: usize = (to_guest_words as usize + 3) / 4 * 4;
        let mut name: Vec<u8> = Vec::new();
        let mut addr = name_ptr;
        let ghost m = old(self).mem;
        loop
            invariant
                old(self).kept(self),
                self.mem.same_contents(&m),
                addr == name_ptr + name@.len(),
                name@ == name_bytes(m, name_ptr, name@.len() as int),
                forall|i: int| 0 <= i < name@.len() ==> #[trigger] name_char(m, name_ptr, i),
                to_guest_words <= usize::MAX / 4 - 2,
                m == old(self).mem,
                name_ptr == old(self).hart_state.registers[REG_A2 as int],
                to_guest_words == old(self).hart_state.registers[REG_A1 as int],
                self.session_cycle() == old(self).session_cycle(),
                self.hart_state == old(self).hart_state,
                to_guest_ptr == old(self).hart_state.registers[REG_A0 as int],
                to_guest_ptr == 0 || in_window(to_guest_ptr),
                self.mem.session_cycle_callback == old(self).mem.session_cycle_callback,
                self.mem.watch_trigger == old(self).mem.watch_trigger,
            ensures
                name_ends_at(m, name_ptr, name@.len() as int),
                name@ == name_bytes(m, name_ptr, name@.len() as int),
                old(self).kept(self),
                self.mem.same_contents(&m),
                self.session_cycle() == old(self).session_cycle(),
                self.hart_state == old(self).hart_state,
                self.mem.session_cycle_callback == old(self).mem.session_cycle_callback,
                self.mem.watch_trigger == old(self).mem.watch_trigger,
            decreases 0x1_0000_0000 - addr as int,
        {
            let ghost before = self.mem;
            let b = match self.mem.read_mem_with_privileges(addr, AccessSize::Byte, true) {
                Some(b) => b,
                None => {
                    proof {
                        assert(!crate::memory::in_window(addr));
                        assert forall|n: int| !#[trigger] name_ends_at(m, name_ptr, n) by {
                            let l = name@.len() as int;
                            if n > l && name_ends_at(m, name_ptr, n) {
                                assert(name_char(m, name_ptr, l));
                            }
                            if n < l && name_ends_at(m, name_ptr, n) {
                                assert(name_char(m, name_ptr, n));
                            }
                        }
                    }
                    return Err(VmError::GuestRead(name_ptr));
                },
            };
            proof {
                assert(before.page(crate::memory::page_of(addr)) == m.page(crate::memory::page_of(addr)));
                assert(b == m.byte(addr));
                let w = m.word(addr);
                let sh = crate::memory::byte_shift(addr);
                assert((w >> sh) & 0xff <= 0xff) by (bit_vector);
            }
            proof {
                assert(crate::memory::in_window(addr));
                assert((name_ptr + name@.len()) as u32 == addr);
            }
            if b == 0 {
                proof {
                    let l = name@.len() as int;
                    assert(m.byte((name_ptr + l) as u32) == 0);
                    assert(0x400 <= name_ptr + l < 0x0C00_0000);
                    assert(name_ends_at(m, name_ptr, l));
                }
                break;
            }
            let ghost prev = name@;
            name.push(b as u8);
            proof {
                assert(name@ =~= name_bytes(m, name_ptr, name@.len() as int));
                assert forall|i: int| 0 <= i < name@.len() implies #[trigger] name_char(m, name_ptr, i) by {
                    if i == prev.len() {
                        assert((name_ptr + i) as u32 == addr);
                    }
                }
            }
            addr = addr + 1;
        }
        let ghost n0 = name@.len() as int;
        proof {
            assert forall|n: int| #[trigger] name_ends_at(m, name_ptr, n) implies n == n0 by {
                lemma_name_unique(m, name_ptr, n, n0);
            }
        }
        if utf8_text(name.as_slice()).is_none() {
            return Err(VmError::InvalidUtf8);
        }
        let mut to_guest: Vec<u8> = vec![0u8; 4 * to_guest_words as usize];
        assert(forall|i: int| 0 <= i < to_guest@.len() ==> to_guest@[i] == 0u8);
        let exit = match handle_syscall(name.as_slice(), &mut to_guest, self) {
            Ok(e) => e,
            Err(e) => {
                return Err(e);
            },
        };
        if exit.is_some() {
            return Ok((self.hart_state.pc, None, 1 + chunks + 1));
        }
        if to_guest_ptr != 0 {
            match self.write_guest_bytes(to_guest_ptr, to_guest.as_slice()) {
                Ok(()) => {},
                Err(e) => {
                    return Err(e);
                },
            }
            proof {
                let hc = crate::syscall::host_call(name@);
                if hc == crate::syscall::HostCall::CycleCount || hc == crate::syscall::HostCall::Verify
                    || hc == crate::syscall::HostCall::ArgC {
                    assert forall|i: int| 0 <= i < 4 * to_guest_words implies #[trigger] self.mem.byte(
                        (to_guest_ptr + i) as u32,
                    ) == 0 by {
                        let a = (to_guest_ptr + i) as u32;
                        assert(a - to_guest_ptr == i);
                        assert(to_guest@[i] == 0u8);
                    }
                }
            }
        }
        Ok((self.hart_state.pc.wrapping_add(4), None, 1 + chunks + 1))
    }
}

/// Where a headless run stops after a step's `outcome`: at a halt, a pause or an error;
/// watchpoint stops are passed over.
pub open spec fn headless_stop(outcome: Result<Option<ExitCode>, VmError>) -> Option<Result<ExitCode, VmError>> {
    match outcome {
        Err(e) => Some(Err(e)),
        Ok(Some(ExitCode::Halted(c))) => Some(Ok(ExitCode::Halted(c))),
        Ok(Some(ExitCode::Paused(c))) => Some(Ok(ExitCode::Paused(c))),
        _ => None,
    }
}

/// `states` and `outcomes` are a headless run: each step meets `Simulator::step_spec`, and none
/// but the last stops it.
pub open spec fn headless_run(states: Seq<Simulator>, outcomes: Seq<Result<Option<ExitCode>, VmError>>) -> bool {
    &&& states.len() == outcomes.len() + 1
    &&& forall|k: int|
        0 <= k < outcomes.len() ==> Simulator::step_spec(&#[trigger] states[k], &states[k + 1], outcomes[k])
    &&& forall|k: int| 0 <= k < outcomes.len() - 1 ==> #[trigger] headless_stop(outcomes[k]).is_none()
}

impl Simulator {
    /// Runs at most `budget` steps with no debugger attached, until the guest halts or pauses
    /// or a step fails; `None` where the budget ran out first.
    pub fn run_headless(&mut self, budget: usize) -> (r: Option<Result<ExitCode, VmError>>)
        requires
            old(self).wf(),
        ensures
            final(self).wf(),
            exists|states: Seq<Simulator>, outcomes: Seq<Result<Option<ExitCode>, VmError>>|
                {
                    &&& headless_run(states, outcomes)
                    &&& states[0] == *old(self)
                    &&& states.last() == *final(self)
                    &&& r.is_none() ==> outcomes.len() == budget
                    &&& r.is_some() ==> outcomes.len() >= 1 && r == headless_stop(outcomes.last())
                },
    {
        let ghost states: Seq<Simulator> = seq![*self];
        let ghost outcomes: Seq<Result<Option<ExitCode>, VmError>> = Seq::empty();
        let mut i: usize = 0;
        while i < budget
            invariant
                self.wf(),
                i <= budget,
                outcomes.len() == i,
                headless_run(states, outcomes),
                states[0] == *old(self),
                states.last() == *self,
                i > 0 ==> headless_stop(outcomes[i - 1]).is_none(),
            decreases budget - i,
        {
            let ghost before = *self;
            let outcome = self.step();
            let stop = match outcome {
                Err(e) => Some(Err(e)),
                Ok(Some(ExitCode::Halted(c))) => Some(Ok(ExitCode::Halted(c))),
                Ok(Some(ExitCode::Paused(c))) => Some(Ok(ExitCode::Paused(c))),
                _ => None,
            };
            proof {
                let s2 = states.push(*self);
                let o2 = outcomes.push(outcome);
                assert forall|k: int| 0 <= k < o2.len() implies Simulator::step_spec(
                    &#[trigger] s2[k],
                    &s2[k + 1],
                    o2[k],
                ) by {
                    if k < outcomes.len() {
                        assert(s2[k] == states[k] && s2[k + 1] == states[k + 1] && o2[k] == outcomes[k]);
                    } else {
                        assert(s2[k] == before);
                    }
                }
                assert forall|k: int| 0 <= k < o2.len() - 1 implies #[trigger] headless_stop(o2[k]).is_none() by {
                    assert(o2[k] == outcomes[k]);
                }
                assert(stop == headless_stop(outcome));
                states = s2;
                outcomes = o2;
            }
            if stop.is_some() {
                proof {
                    assert(headless_run(states, outcomes));
                    assert(states.last() == *self);
                    assert(outcomes.last() == outcome);
                }
                return stop;
            }
            i += 1;
        }
        proof {
            assert(headless_run(states, outcomes));
            assert(states.last() == *self);
        }
        None
    }
}

} // verus!
