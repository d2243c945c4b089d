use zkvm_sim::error::VmError;
use zkvm_sim::loader::{load_elf, LoadError};
use zkvm_sim::memory::{AccessSize, Memory, WatchKind};
use zkvm_sim::session_cycle::{get_opcode_cycle, SessionCycleCount, CONST_CYCLE, SEGMENT_LIMIT};
use zkvm_sim::simulator::{ExitCode, Simulator, REG_A0, REG_A1, REG_A2, REG_A3, REG_A4, REG_T0};

const NOP: u32 = 0x0000_0013;
const ECALL: u32 = 0x0000_0073;

fn machine(program: &[u32]) -> Simulator {
    let mut mem = Memory::new();
    for (i, w) in program.iter().enumerate() {
        assert!(mem.write_mem_with_privileges(0x400 + 4 * i as u32, AccessSize::Word, *w, true));
    }
    Simulator::new(mem, 0x400, Vec::new())
}

fn counter(sim: &Simulator) -> &SessionCycleCount {
    sim.mem.session_cycle_callback.as_ref().unwrap()
}

fn put_bytes(sim: &mut Simulator, addr: u32, bytes: &[u8]) {
    for (i, b) in bytes.iter().enumerate() {
        assert!(sim.mem.write_mem_with_privileges(addr + i as u32, AccessSize::Byte, *b as u32, true));
    }
}

fn get_bytes(sim: &mut Simulator, addr: u32, n: u32) -> Vec<u8> {
    (0..n)
        .map(|i| sim.mem.read_mem_with_privileges(addr + i, AccessSize::Byte, true).unwrap() as u8)
        .collect()
}

fn elf_with_code(entry: u32, code: &[u32], memsz: u32) -> Vec<u8> {
    let mut f: Vec<u8> = Vec::new();
    f.extend_from_slice(&[0x7f, b'E', b'L', b'F', 1, 1, 1, 0, 0, 0, 0, 0, 0, 0, 0, 0]);
    f.extend_from_slice(&2u16.to_le_bytes());
    f.extend_from_slice(&243u16.to_le_bytes());
    f.extend_from_slice(&1u32.to_le_bytes());
    f.extend_from_slice(&entry.to_le_bytes());
    f.extend_from_slice(&52u32.to_le_bytes());
    f.extend_from_slice(&0u32.to_le_bytes());
    f.extend_from_slice(&0u32.to_le_bytes());
    f.extend_from_slice(&52u16.to_le_bytes());
    f.extend_from_slice(&32u16.to_le_bytes());
    f.extend_from_slice(&1u16.to_le_bytes());
    f.extend_from_slice(&40u16.to_le_bytes());
    f.extend_from_slice(&0u16.to_le_bytes());
    f.extend_from_slice(&0u16.to_le_bytes());
    let filesz = 4 * code.len() as u32;
    for v in [1u32, 84, entry, entry, filesz, memsz, 5, 4] {
        f.extend_from_slice(&v.to_le_bytes());
    }
    for w in code {
        f.extend_from_slice(&w.to_le_bytes());
    }
    f
}

#[test]
fn elf_nop_then_halt() {
    let elf = elf_with_code(0x400, &[NOP, ECALL], 8 + 1024);
    let mut mem = Memory::new();
    let entry = load_elf(&mut mem, &elf).unwrap();
    assert_eq!(entry, 0x400);
    let mut sim = Simulator::new(mem, entry, Vec::new());
    sim.hart_state.registers[REG_A0] = 0x2A00;
    assert_eq!(sim.step(), Ok(None));
    assert_eq!(sim.step(), Ok(Some(ExitCode::Halted(0x2A))));
    assert_eq!(counter(&sim).num_segment, 0);
    // Each instruction costs 1; the first fetch pages in page 1 and its four ancestors up to
    // the root: 4 * 1094 + 754.
    assert_eq!(counter(&sim).cur_segment_cycle, 2 + 4 * 1094 + 754);
}

#[test]
fn load_elf_rejects_garbage_and_bad_entry() {
    let mut mem = Memory::new();
    assert_eq!(load_elf(&mut mem, &[1, 2, 3]), Err(LoadError::Parse));
    let elf = elf_with_code(0x402, &[NOP], 4);
    assert_eq!(load_elf(&mut mem, &elf), Err(LoadError::InvalidEntry));
}

#[test]
fn watchpoint_latches_write_at_store_address() {
    // sh x6, 0(x5); srli x6, x6, 16; sh x6, 2(x5)
    let mut sim = machine(&[0x0062_9023, 0x0103_5313, 0x0062_9123]);
    sim.hart_state.registers[5] = 0x1002;
    sim.hart_state.registers[6] = 0xDEAD_BEEF;
    sim.mem.hw_watchpoints.push((0x1000, 4, WatchKind::Write));
    assert_eq!(sim.step(), Ok(Some(ExitCode::HwWatchPoint(WatchKind::Write, 0x1002))));
    assert_eq!(sim.step(), Ok(None));
    assert_eq!(sim.step(), Ok(None));
    assert_eq!(get_bytes(&mut sim, 0x1000, 8), vec![0, 0, 0xEF, 0xBE, 0xAD, 0xDE, 0, 0]);
}

#[test]
fn watchpoint_read_kind_ignores_writes_and_privileged_access() {
    let mut mem = Memory::new();
    mem.hw_watchpoints.push((0x800, 8, WatchKind::Read));
    assert!(mem.write_mem_with_privileges(0x800, AccessSize::Word, 7, false));
    assert_eq!(mem.watch_trigger, None);
    assert_eq!(mem.read_mem_with_privileges(0x804, AccessSize::Word, true), Some(0));
    assert_eq!(mem.watch_trigger, None);
    assert_eq!(mem.read_mem_with_privileges(0x7FE, AccessSize::HalfWord, false), Some(0));
    assert_eq!(mem.watch_trigger, None);
    assert_eq!(mem.read_mem_with_privileges(0x7FE, AccessSize::Word, false), Some(0));
    assert_eq!(mem.watch_trigger, Some((WatchKind::Read, 0x7FE)));
    assert_eq!(mem.read_mem_with_privileges(0x804, AccessSize::Byte, false), Some(0));
    assert_eq!(mem.watch_trigger, Some((WatchKind::Read, 0x7FE)));
}

const SHA_IV: [u32; 8] = [
    0x6a09e667, 0xbb67ae85, 0x3c6ef372, 0xa54ff53a, 0x510e527f, 0x9b05688c, 0x1f83d9ab, 0x5be0cd19,
];

fn sha_machine(count: u32) -> Simulator {
    let mut sim = machine(&[ECALL]);
    let iv: Vec<u8> = SHA_IV.iter().flat_map(|w| w.to_be_bytes()).collect();
    put_bytes(&mut sim, 0x2000, &iv);
    sim.hart_state.registers[REG_T0] = 3;
    sim.hart_state.registers[REG_A0] = 0x4000;
    sim.hart_state.registers[REG_A1] = 0x2000;
    sim.hart_state.registers[REG_A2] = 0x3000;
    sim.hart_state.registers[REG_A3] = 0x3020;
    sim.hart_state.registers[REG_A4] = count;
    sim
}

#[test]
fn sha_one_zero_block_from_iv() {
    let mut sim = sha_machine(1);
    assert_eq!(sim.step(), Ok(None));
    let expected: [u32; 8] = [
        0xda5698be, 0x17b9b469, 0x62335799, 0x779fbeca, 0x8ce5d491, 0xc0d26243, 0xbafef9ea, 0x1837a9d8,
    ];
    let want: Vec<u8> = expected.iter().flat_map(|w| w.to_be_bytes()).collect();
    assert_eq!(get_bytes(&mut sim, 0x4000, 32), want);
    assert_eq!(sim.hart_state.pc, 0x404);
    // 1 for the instruction, 73 for the block, and the paging of the pages touched.
    assert!(counter(&sim).cur_segment_cycle >= 1 + 73);
}

#[test]
fn sha_chains_like_compress256() {
    let mut sim = sha_machine(2);
    let data: Vec<u8> = (0..160u32).map(|i| (i * 7 + 3) as u8).collect();
    put_bytes(&mut sim, 0x3000, &data);
    assert_eq!(sim.step(), Ok(None));
    let mut state = SHA_IV;
    for k in 0..2u32 {
        let mut block = [0u8; 64];
        block[..32].copy_from_slice(&data[(64 * k) as usize..(64 * k + 32) as usize]);
        block[32..].copy_from_slice(&data[(64 * k + 32) as usize..(64 * k + 64) as usize]);
        sha2::compress256(&mut state, &[block.into()]);
    }
    let want: Vec<u8> = state.iter().flat_map(|w| w.to_be_bytes()).collect();
    assert_eq!(get_bytes(&mut sim, 0x4000, 32), want);
}

fn bigint_machine(x: [u8; 32], y: [u8; 32], n: [u8; 32], op: u32) -> Simulator {
    let mut sim = machine(&[ECALL]);
    put_bytes(&mut sim, 0x2000, &x);
    put_bytes(&mut sim, 0x2100, &y);
    put_bytes(&mut sim, 0x2200, &n);
    sim.hart_state.registers[REG_T0] = 4;
    sim.hart_state.registers[REG_A0] = 0x3000;
    sim.hart_state.registers[REG_A1] = op;
    sim.hart_state.registers[REG_A2] = 0x2000;
    sim.hart_state.registers[REG_A3] = 0x2100;
    sim.hart_state.registers[REG_A4] = 0x2200;
    sim
}

fn small(v: u64) -> [u8; 32] {
    let mut b = [0u8; 32];
    b[..8].copy_from_slice(&v.to_le_bytes());
    b
}

#[test]
fn bigint_overflow_with_zero_modulus_is_fatal() {
    let mut x = [0u8; 32];
    x[31] = 0x80;
    let mut sim = bigint_machine(x, small(2), [0u8; 32], 0);
    assert_eq!(sim.step(), Err(VmError::BigIntOverflow));
}

#[test]
fn bigint_plain_product_with_zero_modulus() {
    let mut sim = bigint_machine(small(0xFFFF_FFFF), small(0x1_0000_0001), [0u8; 32], 0);
    assert_eq!(sim.step(), Ok(None));
    let mut want = [0u8; 32];
    want[..16].copy_from_slice(&(0xFFFF_FFFFu128 * 0x1_0000_0001u128).to_le_bytes());
    assert_eq!(get_bytes(&mut sim, 0x3000, 32), want.to_vec());
}

#[test]
fn bigint_product_modulo_n() {
    let mut sim = bigint_machine(small(123_456_789), small(987_654_321), small(1_000_000_007), 0);
    assert_eq!(sim.step(), Ok(None));
    let want = (123_456_789u128 * 987_654_321u128) % 1_000_000_007u128;
    assert_eq!(get_bytes(&mut sim, 0x3000, 32), small(want as u64).to_vec());
}

#[test]
fn bigint_rejects_nonzero_op() {
    let mut sim = bigint_machine(small(1), small(1), small(0), 1);
    assert_eq!(sim.step(), Err(VmError::BigIntOp(1)));
}

#[test]
fn halt_is_idempotent_and_pause_keeps_pc() {
    let mut sim = machine(&[ECALL]);
    sim.hart_state.registers[REG_A0] = 0x0501;
    assert_eq!(sim.step(), Ok(Some(ExitCode::Paused(5))));
    assert_eq!(sim.hart_state.pc, 0x400);
    assert_eq!(sim.step(), Ok(Some(ExitCode::Paused(5))));
    assert_eq!(sim.hart_state.pc, 0x400);
}

#[test]
fn halt_with_unknown_type_fails() {
    let mut sim = machine(&[ECALL]);
    sim.hart_state.registers[REG_A0] = 0x0002;
    assert_eq!(sim.step(), Err(VmError::IllegalHaltType(2)));
}

#[test]
fn input_ecall_advances_pc() {
    let mut sim = machine(&[ECALL, ECALL]);
    sim.hart_state.registers[REG_T0] = 1;
    assert_eq!(sim.step(), Ok(None));
    assert_eq!(sim.hart_state.pc, 0x404);
}

#[test]
fn unknown_ecall_fails() {
    let mut sim = machine(&[ECALL]);
    sim.hart_state.registers[REG_T0] = 9;
    assert_eq!(sim.step(), Err(VmError::UnknownEcall(9)));
}

#[test]
fn illegal_instruction_and_fetch_fault() {
    let mut sim = machine(&[0xFFFF_FFFF]);
    assert_eq!(sim.step(), Err(VmError::IllegalInstruction(0xFFFF_FFFF)));
    let mut sim = machine(&[NOP]);
    sim.hart_state.pc = 0x0C00_0000;
    assert_eq!(sim.step(), Err(VmError::FetchFault(0x0C00_0000)));
}

#[test]
fn session_cycle_never_decreases() {
    let mut sim = machine(&[NOP, NOP, NOP, NOP, ECALL]);
    let mut last = sim.session_cycle_count();
    assert_eq!(last, CONST_CYCLE);
    for _ in 0..4 {
        assert_eq!(sim.step(), Ok(None));
        let now = sim.session_cycle_count();
        assert!(now >= last);
        last = now;
    }
}

#[test]
fn resident_pages_come_from_reads() {
    let mut sim = machine(&[NOP]);
    assert!(counter(&sim).cur_segment_resident.is_empty());
    assert_eq!(sim.step(), Ok(None));
    let c = counter(&sim);
    assert!(c.cur_segment_resident.contains(&1));
    assert!(c.cur_segment_resident.contains(&219862));
    assert_eq!(c.cur_segment_resident.len(), 5);
    assert!(c.cur_segment_dirty.is_empty());
    assert!(c.cur_step_read.is_empty());
}

#[test]
fn store_dirties_its_page_chain() {
    // sw x6, 0(x5)
    let mut sim = machine(&[0x0062_A023]);
    sim.hart_state.registers[5] = 0x2000;
    sim.hart_state.registers[6] = 9;
    assert_eq!(sim.step(), Ok(None));
    let c = counter(&sim);
    assert!(c.cur_segment_dirty.contains(&8));
    assert!(c.cur_segment_dirty.contains(&219862));
    assert_eq!(sim.mem.read_mem_with_privileges(0x2000, AccessSize::Word, true), Some(9));
}

#[test]
fn segment_rolls_over_when_full() {
    let mut c = SessionCycleCount::new();
    c.cur_segment_cycle = SEGMENT_LIMIT - CONST_CYCLE - 1;
    c.callback_read_mem(1);
    assert_eq!(c.callback_step(1, 0), Ok(()));
    assert_eq!(c.num_segment, 1);
    assert_eq!(c.cur_segment_cycle, 1 + 4 * 1094 + 754);
    assert_eq!(c.get_session_cycle(), SEGMENT_LIMIT + CONST_CYCLE + 1 + 4 * 1094 + 754);
}

#[test]
fn step_too_large_for_any_segment_is_an_error() {
    let mut c = SessionCycleCount::new();
    assert_eq!(c.callback_step(1, SEGMENT_LIMIT), Err(VmError::SegmentOverflow));
    assert_eq!(c.num_segment, 0);
    assert_eq!(c.cur_segment_cycle, 0);
}

#[test]
fn opcode_cycle_table() {
    assert_eq!(get_opcode_cycle(NOP), Ok(1));
    // XORI, SLLI, SRLI
    assert_eq!(get_opcode_cycle(0x0000_4013), Ok(1));
    assert_eq!(get_opcode_cycle(0x0000_1013), Ok(2));
    assert_eq!(get_opcode_cycle(0x0000_5013), Ok(2));
    // MUL, DIV, AND, SLL, SRA, SUB
    assert_eq!(get_opcode_cycle(0x0200_0033), Ok(2));
    assert_eq!(get_opcode_cycle(0x0200_4033), Ok(2));
    assert_eq!(get_opcode_cycle(0x0000_7033), Ok(1));
    assert_eq!(get_opcode_cycle(0x0000_1033), Ok(2));
    assert_eq!(get_opcode_cycle(0x4000_5033), Ok(2));
    assert_eq!(get_opcode_cycle(0x4000_0033), Ok(1));
    assert_eq!(get_opcode_cycle(0x4000_1033), Err(VmError::IllegalInstruction(0x4000_1033)));
    assert_eq!(get_opcode_cycle(0), Err(VmError::IllegalInstruction(0)));
}

#[test]
fn memory_byte_round_trip_and_window() {
    let mut mem = Memory::new();
    assert!(mem.write_mem_with_privileges(0x1235, AccessSize::Byte, 0x1AB, false));
    assert_eq!(mem.read_mem_with_privileges(0x1235, AccessSize::Byte, false), Some(0xAB));
    assert_eq!(mem.read_mem_with_privileges(0x1234, AccessSize::Word, false), Some(0xAB00));
    assert!(mem.write_mem_with_privileges(0x1236, AccessSize::HalfWord, 0xBEEF, false));
    assert_eq!(mem.read_mem_with_privileges(0x1236, AccessSize::HalfWord, false), Some(0xBEEF));
    assert!(!mem.write_mem_with_privileges(0x3FF, AccessSize::Byte, 1, false));
    assert!(!mem.write_mem_with_privileges(0x0C00_0000, AccessSize::Byte, 1, false));
    assert_eq!(mem.read_mem_with_privileges(0x0C00_0000, AccessSize::Byte, false), None);
    assert_eq!(mem.read_mem_with_privileges(0, AccessSize::Word, true), None);
}

fn software_machine(name: &str, to_guest_ptr: u32, words: u32) -> Simulator {
    let mut sim = machine(&[ECALL]);
    let mut bytes = name.as_bytes().to_vec();
    bytes.push(0);
    put_bytes(&mut sim, 0x5000, &bytes);
    sim.hart_state.registers[REG_T0] = 2;
    sim.hart_state.registers[REG_A0] = to_guest_ptr;
    sim.hart_state.registers[REG_A1] = words;
    sim.hart_state.registers[REG_A2] = 0x5000;
    sim
}

const NR: &str = "risc0_zkvm_platform::syscall::nr::";

#[test]
fn software_write_appends_to_stdout() {
    let mut sim = software_machine(&format!("{NR}SYS_WRITE"), 0, 0);
    put_bytes(&mut sim, 0x6000, b"hello");
    sim.hart_state.registers[REG_A3] = 1;
    sim.hart_state.registers[REG_A4] = 0x6000;
    sim.hart_state.registers[15] = 5;
    assert_eq!(sim.step(), Ok(None));
    assert_eq!(sim.hart_state.pc, 0x404);
    let mut out = Vec::new();
    sim.read_to_end(1, &mut out).unwrap();
    assert_eq!(out, b"hello".to_vec());
}

#[test]
fn software_write_to_bad_fd_fails() {
    let mut sim = software_machine(&format!("{NR}SYS_WRITE"), 0, 0);
    sim.hart_state.registers[REG_A3] = 7;
    sim.hart_state.registers[REG_A4] = 0x6000;
    sim.hart_state.registers[15] = 1;
    assert_eq!(sim.step(), Err(VmError::BadWriteFd(7)));
}

#[test]
fn software_getenv_copies_value() {
    let mut sim = software_machine(&format!("{NR}SYS_GETENV"), 0x7000, 1);
    sim.env.push((b"KEY".to_vec(), b"value!".to_vec()));
    put_bytes(&mut sim, 0x6000, b"KEY");
    sim.hart_state.registers[REG_A3] = 0x6000;
    sim.hart_state.registers[REG_A4] = 3;
    assert_eq!(sim.step(), Ok(None));
    assert_eq!(sim.hart_state.registers[REG_A0], 6);
    assert_eq!(sim.hart_state.registers[REG_A1], 0);
    assert_eq!(get_bytes(&mut sim, 0x7000, 4), b"valu".to_vec());
}

#[test]
fn software_getenv_missing_gives_all_ones() {
    let mut sim = software_machine(&format!("{NR}SYS_GETENV"), 0, 0);
    put_bytes(&mut sim, 0x6000, b"NOPE");
    sim.hart_state.registers[REG_A3] = 0x6000;
    sim.hart_state.registers[REG_A4] = 4;
    assert_eq!(sim.step(), Ok(None));
    assert_eq!(sim.hart_state.registers[REG_A0], u32::MAX);
}

#[test]
fn software_panic_carries_message() {
    let mut sim = software_machine(&format!("{NR}SYS_PANIC"), 0, 0);
    put_bytes(&mut sim, 0x6000, b"boom");
    sim.hart_state.registers[REG_A3] = 0x6000;
    sim.hart_state.registers[REG_A4] = 4;
    assert_eq!(sim.step(), Err(VmError::GuestPanicked("boom".to_string())));
}

#[test]
fn software_panic_with_bad_utf8() {
    let mut sim = software_machine(&format!("{NR}SYS_PANIC"), 0, 0);
    put_bytes(&mut sim, 0x6000, &[0xff, 0xfe]);
    sim.hart_state.registers[REG_A3] = 0x6000;
    sim.hart_state.registers[REG_A4] = 2;
    assert_eq!(sim.step(), Err(VmError::InvalidUtf8));
}

#[test]
fn software_random_fills_buffer() {
    let mut sim = software_machine(&format!("{NR}SYS_RANDOM"), 0x7000, 16);
    assert_eq!(sim.step(), Ok(None));
    let bytes = get_bytes(&mut sim, 0x7000, 64);
    assert!(bytes.iter().any(|b| *b != 0));
    assert_eq!(sim.hart_state.registers[REG_A0], 0);
}

#[test]
fn software_read_fills_words_and_tail() {
    let mut sim = software_machine(&format!("{NR}SYS_READ"), 0x7000, 1);
    sim.write(0, b"abcdef").unwrap();
    sim.hart_state.registers[REG_A3] = 0;
    sim.hart_state.registers[REG_A4] = 6;
    assert_eq!(sim.step(), Ok(None));
    assert_eq!(sim.hart_state.registers[REG_A0], 6);
    assert_eq!(sim.hart_state.registers[REG_A1], u32::from_le_bytes([b'e', b'f', 0, 0]));
    assert_eq!(get_bytes(&mut sim, 0x7000, 4), b"abcd".to_vec());
}

#[test]
fn software_cycle_count_and_argc() {
    let mut sim = software_machine(&format!("{NR}SYS_ARGC"), 0, 0);
    sim.args(vec![b"a".to_vec(), b"bc".to_vec()]);
    assert_eq!(sim.step(), Ok(None));
    assert_eq!(sim.hart_state.registers[REG_A0], 2);
    let mut sim = software_machine(&format!("{NR}SYS_CYCLE_COUNT"), 0, 0);
    let before = sim.session_cycle_count() as u32;
    assert_eq!(sim.step(), Ok(None));
    assert_eq!(sim.hart_state.registers[REG_A0], before);
}

#[test]
fn software_rejects_bad_pointer() {
    let mut sim = software_machine(&format!("{NR}SYS_VERIFY"), 0x10, 0);
    assert_eq!(sim.step(), Err(VmError::InvalidGuestPointer(0x10)));
}

#[test]
fn channels_reject_bad_descriptors() {
    let mut sim = machine(&[NOP]);
    assert_eq!(sim.write(1, b"x"), Err(VmError::BadReadFd(1)));
    let mut dst = [0u8; 2];
    assert_eq!(sim.read(0, 2, &mut dst), Err(VmError::BadWriteFd(0)));
    assert_eq!(sim.read(1, 2, &mut dst), Err(VmError::NotEnoughOutput));
}

#[test]
fn sha_input_outside_window_fails() {
    let mut sim = sha_machine(1);
    sim.hart_state.registers[REG_A1] = 0x10;
    assert_eq!(sim.step(), Err(VmError::GuestRead(0x10)));
}

#[test]
fn loader_zero_fills_past_file_size() {
    let elf = elf_with_code(0x800, &[0x1122_3344], 16);
    let mut mem = Memory::new();
    assert!(mem.write_mem_with_privileges(0x804, AccessSize::Word, 0xFFFF_FFFF, true));
    assert_eq!(load_elf(&mut mem, &elf), Ok(0x800));
    assert_eq!(mem.read_mem_with_privileges(0x800, AccessSize::Word, true), Some(0x1122_3344));
    assert_eq!(mem.read_mem_with_privileges(0x804, AccessSize::Word, true), Some(0));
    assert_eq!(mem.read_mem_with_privileges(0x80C, AccessSize::Word, true), Some(0));
}

#[test]
fn fetch_hitting_read_watchpoint_is_reported() {
    let mut sim = machine(&[NOP, NOP]);
    sim.mem.hw_watchpoints.push((0x404, 4, WatchKind::Read));
    assert_eq!(sim.step(), Ok(None));
    assert_eq!(sim.step(), Ok(Some(ExitCode::HwWatchPoint(WatchKind::Read, 0x404))));
}

#[test]
fn stale_trigger_is_cleared_by_next_step() {
    let mut sim = machine(&[NOP]);
    sim.mem.watch_trigger = Some((WatchKind::Write, 0x900));
    assert_eq!(sim.step(), Ok(None));
    assert_eq!(sim.mem.watch_trigger, None);
}

#[test]
fn headless_run_stops_at_halt() {
    let mut sim = machine(&[NOP, NOP, NOP, ECALL]);
    sim.hart_state.registers[REG_A0] = 0x0700;
    assert_eq!(sim.run_headless(2), None);
    assert_eq!(sim.hart_state.pc, 0x408);
    assert_eq!(sim.run_headless(100), Some(Ok(ExitCode::Halted(7))));
    assert_eq!(sim.hart_state.pc, 0x40C);
}

#[test]
fn headless_run_reports_errors() {
    let mut sim = machine(&[0xFFFF_FFFF]);
    assert_eq!(sim.run_headless(10), Some(Err(VmError::IllegalInstruction(0xFFFF_FFFF))));
}

#[test]
fn loader_rejects_truncated_segment() {
    let mut elf = elf_with_code(0x800, &[0x1122_3344, 0x5566_7788], 8);
    elf.truncate(elf.len() - 2);
    let mut mem = Memory::new();
    assert_eq!(load_elf(&mut mem, &elf), Err(LoadError::InvalidOffset));
}
