use vstd::prelude::*;
use crypto_bigint::{CheckedMul, Encoding, NonZero, U256, U512};
use crate::error::VmError;
use crate::memory::{AccessSize, Memory};
use crate::simulator::{Simulator, REG_A0, REG_A1, REG_A2, REG_A3, REG_A4, range_in_window};

verus! {

/// One SHA-256 compression of `state` with the 64-byte `block`.
pub uninterp spec fn sha256_compress(state: Seq<u32>, block: Seq<u8>) -> Seq<u32>;

/// Relies on sha2::compress256: it compresses the one given block into the state, and the new
/// state depends on the old state and the block alone.
#[verifier::external_body]
fn compress_block(state: &mut [u32; 8], block: &[u8; 64])
    ensures
        final(state)@ == sha256_compress(old(state)@, block@),
{
    sha2::compress256(state, &[*sha2::digest::generic_array::GenericArray::from_slice(block)]);
}

/// The number that the little-endian bytes `b` stand for.
pub open spec fn le_nat(b: Seq<u8>) -> nat
    decreases b.len(),
{
    if b.len() == 0 {
        0
    } else {
        b[0] as nat + 256 * le_nat(b.drop_first())
    }
}

/// 2 to the 256th.
pub open spec fn two_pow_256() -> nat {
    vstd::arithmetic::power2::pow2(256)
}

/// Relies on crypto_bigint's U256::checked_mul (with from_le_bytes and to_le_bytes, which
/// convert): the product, where it fits in 256 bits.
#[verifier::external_body]
fn checked_mul_256(x: &[u8; 32], y: &[u8; 32]) -> (r: Option<[u8; 32]>)
    ensures
        match r {
            Some(z) => le_nat(x@) * le_nat(y@) < two_pow_256() && le_nat(z@) == le_nat(x@)
                * le_nat(y@),
            None => le_nat(x@) * le_nat(y@) >= two_pow_256(),
        },
{
    let p = U256::from_le_bytes(*x).checked_mul(&U256::from_le_bytes(*y));
    Option::<U256>::from(p).map(|z| z.to_le_bytes())
}

/// Relies on crypto_bigint's U256::mul_wide, concat and U512::rem (with from_le_bytes,
/// to_le_bytes, resize and NonZero::from_uint, which convert; from_uint panics on zero):
/// the 512-bit product reduced modulo `n`.
#[verifier::external_body]
fn mul_mod_256(x: &[u8; 32], y: &[u8; 32], n: &[u8; 32]) -> (r: [u8; 32])
    requires
        le_nat(n@) != 0,
    ensures
        le_nat(r@) == (le_nat(x@) * le_nat(y@)) % le_nat(n@),
{
    let (lo, hi) = U256::from_le_bytes(*x).mul_wide(&U256::from_le_bytes(*y));
    let w: U512 = hi.concat(&lo);
    let m = NonZero::<U512>::from_uint(U256::from_le_bytes(*n).resize());
    let z: U256 = w.rem(&m).resize();
    z.to_le_bytes()
}

pub proof fn lemma_le_nat_zero(b: Seq<u8>)
    ensures
        (le_nat(b) == 0) <==> (forall|i: int| 0 <= i < b.len() ==> b[i] == 0),
    decreases b.len(),
{
    if b.len() > 0 {
        lemma_le_nat_zero(b.drop_first());
        if le_nat(b) == 0 {
            assert forall|i: int| 0 <= i < b.len() implies b[i] == 0 by {
                if i > 0 {
                    assert(b.drop_first()[i - 1] == b[i]);
                }
            }
        }
        if forall|i: int| 0 <= i < b.len() ==> b[i] == 0 {
            assert forall|i: int| 0 <= i < b.drop_first().len() implies b.drop_first()[i] == 0 by {
                assert(b[i + 1] == 0);
            }
        }
    }
}

/// Byte `j` of the words of `m` from `ptr`, taken in little-endian order.
pub open spec fn word_byte(m: Memory, ptr: int, j: int) -> u8 {
    ((m.word((ptr + 4 * (j / 4)) as u32) >> (8 * (j % 4)) as u32) & 0xff) as u8
}

/// The 32 bytes of the eight words of `m` from `ptr`.
pub open spec fn words_bytes(m: Memory, ptr: int) -> Seq<u8> {
    Seq::new(32, |j: int| word_byte(m, ptr, j))
}

/// Block `k` of a SHA run: eight words from `b1` and eight from `b2`, each 64 bytes on per block.
pub open spec fn sha_block(m: Memory, b1: u32, b2: u32, k: int) -> Seq<u8> {
    words_bytes(m, b1 + 64 * k) + words_bytes(m, b2 + 64 * k)
}

/// The state after `k` blocks.
pub open spec fn sha_chain(m: Memory, state: Seq<u32>, b1: u32, b2: u32, k: nat) -> Seq<u32>
    decreases k,
{
    if k == 0 {
        state
    } else {
        sha256_compress(sha_chain(m, state, b1, b2, (k - 1) as nat), sha_block(m, b1, b2, k - 1))
    }
}

/// Whether the eight words at `p + off` lie in the guest window.
pub open spec fn words_readable_at(p: u32, off: int) -> bool {
    0x400 <= p + off && p + off + 28 < 0x0C00_0000
}

/// The eight big-endian words of the 32 bytes `b`.
pub open spec fn be_words(b: Seq<u8>) -> Seq<u32> {
    Seq::new(
        8,
        |i: int|
            ((b[4 * i] as u32) << 24) | ((b[4 * i + 1] as u32) << 16) | ((b[4 * i + 2] as u32) << 8)
                | (b[4 * i + 3] as u32),
    )
}

/// The 32 big-endian bytes of the eight words `w`.
pub open spec fn be_bytes(w: Seq<u32>) -> Seq<u8> {
    Seq::new(32, |j: int| ((w[j / 4] >> (24 - 8 * (j % 4)) as u32) & 0xff) as u8)
}

/// The `n` bytes of `m` from `ptr`.
pub open spec fn mem_bytes(m: Memory, ptr: u32, n: nat) -> Seq<u8> {
    Seq::new(n, |i: int| m.byte((ptr + i) as u32) as u8)
}

impl Simulator {
    /// Reads the word at `ptr + off` for the host, without guest-visible side effects.
    fn read_guest_word(&mut self, ptr: u32, off: u32) -> (r: Result<u32, VmError>)
        requires
            old(self).wf(),
        ensures
            final(self).mem.watch_trigger == old(self).mem.watch_trigger,
            final(self).mem.session_cycle_callback == old(self).mem.session_cycle_callback,
            old(self).kept(final(self)),
            final(self).mem.same_contents(&old(self).mem),
            final(self).hart_state == old(self).hart_state,
            final(self).stdin == old(self).stdin,
            final(self).stdout == old(self).stdout,
            final(self).stderr == old(self).stderr,
            final(self).journal == old(self).journal,
            final(self).env == old(self).env,
            final(self).args == old(self).args,
            r.is_ok() <==> 0x400 <= ptr + off < 0x0C00_0000,
            r.is_err() ==> r == Err::<u32, VmError>(VmError::GuestRead(ptr)),
            r.is_ok() ==> r.unwrap() == old(self).mem.word((ptr + off) as u32),
    {
        if ptr as u64 + off as u64 >= 0x1_0000_0000 {
            return Err(VmError::GuestRead(ptr));
        }
        match self.mem.read_mem_with_privileges(ptr + off, AccessSize::Word, true) {
            Some(w) => Ok(w),
            None => Err(VmError::GuestRead(ptr)),
        }
    }

    /// Reads the eight words from `ptr + off` into `dst` from `at`, as little-endian bytes.
    fn read_guest_words(&mut self, ptr: u32, off: u32, dst: &mut [u8], at: usize) -> (r: Result<
        (),
        VmError,
    >)
        requires
            old(self).wf(),
            at + 32 <= old(dst)@.len(),
        ensures
            final(self).mem.watch_trigger == old(self).mem.watch_trigger,
            final(self).mem.session_cycle_callback == old(self).mem.session_cycle_callback,
            old(self).kept(final(self)),
            final(self).mem.same_contents(&old(self).mem),
            final(self).hart_state == old(self).hart_state,
            final(self).stdin == old(self).stdin,
            final(self).stdout == old(self).stdout,
            final(self).stderr == old(self).stderr,
            final(self).journal == old(self).journal,
            final(self).env == old(self).env,
            final(self).args == old(self).args,
            final(dst)@.len() == old(dst)@.len(),
            r.is_ok() <==> 0x400 <= ptr + off && ptr + off + 28 < 0x0C00_0000,
            r.is_err() ==> r == Err::<(), VmError>(VmError::GuestRead(ptr)),
            r.is_ok() ==> forall|j: int|
                0 <= j < 32 ==> #[trigger] final(dst)@[at + j] == word_byte(
                    old(self).mem,
                    ptr + off,
                    j,
                ),
            forall|j: int|
                0 <= j < old(dst)@.len() && !(at <= j < at + 32) ==> #[trigger] final(dst)@[j]
                    == old(dst)@[j],
    {
        let dlen = dst.len();
        let mut i: u32 = 0;
        while i < 8
            invariant
                i <= 8,
                dlen == dst@.len(),
                self.mem.watch_trigger == old(self).mem.watch_trigger,
                self.mem.session_cycle_callback == old(self).mem.session_cycle_callback,
                old(self).kept(self),
                self.mem.same_contents(&old(self).mem),
                self.hart_state == old(self).hart_state,
                self.stdin == old(self).stdin,
                self.stdout == old(self).stdout,
                self.stderr == old(self).stderr,
                self.journal == old(self).journal,
                self.env == old(self).env,
                self.args == old(self).args,
                at + 32 <= dst@.len(),
                dst@.len() == old(dst)@.len(),
                i > 0 ==> 0x400 <= ptr + off && ptr + off + 4 * (i - 1) < 0x0C00_0000,
                forall|j: int| 0 <= j < 4 * i ==> #[trigger] dst@[at + j] == word_byte(old(self).mem, ptr + off, j),
                forall|j: int|
                    0 <= j < dst@.len() && !(at <= j < at + 4 * i) ==> #[trigger] dst@[j] == old(dst)@[j],
            decreases 8 - i,
        {
            if off as u64 + 4 * i as u64 >= 0x1_0000_0000 {
                return Err(VmError::GuestRead(ptr));
            }
            let w = match self.read_guest_word(ptr, off + 4 * i) {
                Ok(w) => w,
                Err(e) => {
                    return Err(e);
                },
            };
            let mut k: u32 = 0;
            while k < 4
                invariant
                    k <= 4,
                    i < 8,
                    dlen == dst@.len(),
                    4 * i + k <= 32,
                    at + 32 <= dst@.len(),
                    dst@.len() == old(dst)@.len(),
                    w == old(self).mem.word((ptr + off + 4 * i) as u32),
                    forall|j: int| 0 <= j < 4 * i + k ==> #[trigger] dst@[at + j] == word_byte(old(self).mem, ptr + off, j),
                    forall|j: int|
                        0 <= j < dst@.len() && !(at <= j < at + 4 * i + k) ==> #[trigger] dst@[j] == old(dst)@[j],
                decreases 4 - k,
            {
                assert(4 * i + k < 32);
                let idx = at + (4 * i + k) as usize;
                dst[idx] = ((w >> (8 * k)) & 0xff) as u8;
                proof {
                    let j = (4 * i + k) as int;
                    assert(j / 4 == i as int && j % 4 == k as int);
                }
                k += 1;
            }
            i += 1;
        }
        Ok(())
    }

    /// SHA: `count` SHA-256 compressions from the big-endian state at `a1`, each over eight
    /// words from `a2` and eight from `a3` (both moving on 64 bytes per block); the final state
    /// goes big-endian to `a0`. Costs 73 cycles per block.
    pub fn ecall_sha(&mut self) -> (r: Result<(u32, Option<crate::simulator::ExitCode>, usize), VmError>)
        requires
            old(self).wf(),
        ensures
            final(self).mem.watch_trigger == old(self).mem.watch_trigger,
            final(self).mem.session_cycle_callback == old(self).mem.session_cycle_callback,
            old(self).kept(final(self)),
            final(self).session_cycle() == old(self).session_cycle(),
            final(self).hart_state == old(self).hart_state,
            ({
                let out = old(self).hart_state.registers[REG_A0 as int];
                let inp = old(self).hart_state.registers[REG_A1 as int];
                let b1 = old(self).hart_state.registers[REG_A2 as int];
                let b2 = old(self).hart_state.registers[REG_A3 as int];
                let count = old(self).hart_state.registers[REG_A4 as int];
                let init = be_words(mem_bytes(old(self).mem, inp, 32));
                let result = be_bytes(sha_chain(old(self).mem, init, b1, b2, count as nat));
                &&& !range_in_window(inp, 32) ==> r == Err::<
                    (u32, Option<crate::simulator::ExitCode>, usize),
                    VmError,
                >(VmError::GuestRead(inp))
                &&& range_in_window(inp, 32) && range_in_window(out, 32) && 73 * count <= usize::MAX
                    && (forall|k: int|
                    0 <= k < count ==> #[trigger] words_readable_at(b1, 64 * k) && words_readable_at(
                        b2,
                        64 * k,
                    )) ==> r.is_ok()
                &&& r.is_ok() ==> {
                    &&& 73 * count <= usize::MAX
                    &&& r.unwrap() == (
                        old(self).hart_state.pc.wrapping_add(4),
                        None::<crate::simulator::ExitCode>,
                        (73 * count) as usize,
                    )
                    &&& forall|i: int| 0 <= i < 32 ==> #[trigger] final(self).mem.byte((out + i) as u32)
                        == result[i] as u32
                }
            }),
    {
        let out_state_ptr = self.hart_state.registers[REG_A0];
        let in_state_ptr = self.hart_state.registers[REG_A1];
        let block1_ptr = self.hart_state.registers[REG_A2];
        let block2_ptr = self.hart_state.registers[REG_A3];
        let count = self.hart_state.registers[REG_A4];
        let extra: u64 = 73 * count as u64;
        let ghost m0 = self.mem;
        let in_state = match self.read_guest_bytes(in_state_ptr, 32) {
            Ok(b) => b,
            Err(e) => {
                return Err(e);
            },
        };
        assert(range_in_window(in_state_ptr, 32));
        let mut state: [u32; 8] = [0u32; 8];
        let mut i: usize = 0;
        while i < 8
            invariant
                i <= 8,
                in_state@.len() == 32,
                forall|j: int| 0 <= j < i ==> state[j] == be_words(in_state@)[j],
            decreases 8 - i,
        {
            state[i] = ((in_state[4 * i] as u32) << 24) | ((in_state[4 * i + 1] as u32) << 16) | ((
            in_state[4 * i + 2] as u32) << 8) | (in_state[4 * i + 3] as u32);
            i += 1;
        }
        proof {
            assert(in_state@ =~= mem_bytes(m0, in_state_ptr, 32));
            assert(state@ =~= be_words(mem_bytes(m0, in_state_ptr, 32)));
        }
        let ghost init = state@;
        let ghost owed = range_in_window(in_state_ptr, 32) && range_in_window(out_state_ptr, 32) && 73
            * count <= usize::MAX && (forall|k: int|
            0 <= k < count ==> #[trigger] words_readable_at(block1_ptr, 64 * k) && words_readable_at(
                block2_ptr,
                64 * k,
            ));
        let mut k: u32 = 0;
        while k < count
            invariant
                k <= count,
                self.mem.session_cycle_callback == old(self).mem.session_cycle_callback,
                self.mem.watch_trigger == old(self).mem.watch_trigger,
                old(self).kept(self),
                self.mem.same_contents(&m0),
                self.hart_state == old(self).hart_state,
                self.stdin == old(self).stdin,
                self.stdout == old(self).stdout,
                self.stderr == old(self).stderr,
                self.journal == old(self).journal,
                self.env == old(self).env,
                self.args == old(self).args,
                range_in_window(in_state_ptr, 32),
                old(self).hart_state.registers[REG_A1 as int] == in_state_ptr,
                old(self).hart_state.registers[REG_A0 as int] == out_state_ptr,
                old(self).hart_state.registers[REG_A4 as int] == count,
                owed == (range_in_window(in_state_ptr, 32) && range_in_window(out_state_ptr, 32) && 73
                    * count <= usize::MAX && (forall|t: int|
                    0 <= t < count ==> #[trigger] words_readable_at(block1_ptr, 64 * t)
                        && words_readable_at(block2_ptr, 64 * t))),
                owed ==> range_in_window(out_state_ptr, 32) && 73 * count <= usize::MAX,
                owed ==> forall|t: int|
                    0 <= t < count ==> #[trigger] words_readable_at(block1_ptr, 64 * t)
                        && words_readable_at(block2_ptr, 64 * t),
                self.hart_state.registers[REG_A2 as int] == block1_ptr,
                self.hart_state.registers[REG_A3 as int] == block2_ptr,
                state@ == sha_chain(m0, init, block1_ptr, block2_ptr, k as nat),
            decreases count - k,
        {
            proof {
                if owed {
                    assert(words_readable_at(block1_ptr, 64 * k as int));
                    assert(words_readable_at(block2_ptr, 64 * k as int));
                }
            }
            if 64 * k as u64 >= 0x1_0000_0000 {
                return Err(VmError::GuestRead(block1_ptr));
            }
            let mut block: [u8; 64] = [0u8; 64];
            let ghost before1 = self.mem;
            match self.read_guest_words(block1_ptr, 64 * k, &mut block, 0) {
                Ok(()) => {},
                Err(e) => {
                    return Err(e);
                },
            }
            let ghost mid = self.mem;
            match self.read_guest_words(block2_ptr, 64 * k, &mut block, 32) {
                Ok(()) => {},
                Err(e) => {
                    return Err(e);
                },
            }
            proof {
                assert forall|j: int| 0 <= j < 32 implies #[trigger] word_byte(mid, block2_ptr + 64 * k, j)
                    == word_byte(m0, block2_ptr + 64 * k, j) by {
                    let a = (block2_ptr + 64 * k + 4 * (j / 4)) as u32;
                    assert(mid.page(crate::memory::page_of(a)) == m0.page(crate::memory::page_of(a)));
                }
                assert forall|j: int| 0 <= j < 32 implies #[trigger] word_byte(before1, block1_ptr + 64 * k, j)
                    == word_byte(m0, block1_ptr + 64 * k, j) by {
                    let a = (block1_ptr + 64 * k + 4 * (j / 4)) as u32;
                    assert(before1.page(crate::memory::page_of(a)) == m0.page(crate::memory::page_of(a)));
                }
                assert forall|j: int| 0 <= j < 32 implies #[trigger] block@[j] == sha_block(m0, block1_ptr, block2_ptr, k as int)[j] by {
                    assert(block@[0 + j] == word_byte(before1, block1_ptr + 64 * k, j));
                }
                assert forall|j: int| 32 <= j < 64 implies #[trigger] block@[j] == sha_block(m0, block1_ptr, block2_ptr, k as int)[j] by {
                    assert(block@[32 + (j - 32)] == word_byte(mid, block2_ptr + 64 * k, j - 32));
                }
                assert(block@ =~= sha_block(m0, block1_ptr, block2_ptr, k as int));
            }
            compress_block(&mut state, &block);
            k += 1;
        }
        let mut out: [u8; 32] = [0u8; 32];
        let mut j: usize = 0;
        while j < 32
            invariant
                j <= 32,
                forall|t: int| 0 <= t < j ==> out[t] == be_bytes(state@)[t],
            decreases 32 - j,
        {
            out[j] = ((state[j / 4] >> (24 - 8 * (j % 4)) as u32) & 0xff) as u8;
            j += 1;
        }
        if extra > usize::MAX as u64 {
            return Err(VmError::SegmentOverflow);
        }
        match self.write_guest_bytes(out_state_ptr, &out) {
            Ok(()) => {},
            Err(e) => {
                return Err(e);
            },
        }
        proof {
            assert forall|i: int| 0 <= i < 32 implies #[trigger] self.mem.byte((out_state_ptr + i) as u32)
                == be_bytes(state@)[i] as u32 by {
                let a = (out_state_ptr + i) as u32;
                assert(a - out_state_ptr == i);
            }
        }
        Ok((self.hart_state.pc.wrapping_add(4), None, extra as usize))
    }
}

/// Whether the eight words from `p` lie in the guest window.
pub open spec fn words_readable(p: u32) -> bool {
    0x400 <= p && p + 28 < 0x0C00_0000
}

/// The product that BIGINT computes: plain where `n` is zero (and fits), else modulo `n`.
pub open spec fn bigint_result(x: nat, y: nat, n: nat) -> Option<nat> {
    if n == 0 {
        if x * y < two_pow_256() {
            Some(x * y)
        } else {
            None
        }
    } else {
        Some((x * y) % n)
    }
}

impl Simulator {
    /// BIGINT: `z = x * y mod n` over 256-bit little-endian numbers of eight words each at `a2`,
    /// `a3` and `a4`, stored as 32 little-endian bytes at `a0`. The operation selector `a1`
    /// must be zero; with `n` zero the product must fit in 256 bits. Costs 9 cycles.
    pub fn ecall_bigint(&mut self) -> (r: Result<(u32, Option<crate::simulator::ExitCode>, usize), VmError>)
        requires
            old(self).wf(),
        ensures
            final(self).mem.watch_trigger == old(self).mem.watch_trigger,
            old(self).hart_state.registers[REG_A1 as int] != 0 ==> *final(self) == *old(self),
            r.is_err() && r != Err::<(u32, Option<crate::simulator::ExitCode>, usize), VmError>(
                VmError::GuestWrite(old(self).hart_state.registers[REG_A0 as int]),
            ) ==> final(self).mem.same_contents(&old(self).mem),
            final(self).mem.session_cycle_callback == old(self).mem.session_cycle_callback,
            old(self).kept(final(self)),
            final(self).session_cycle() == old(self).session_cycle(),
            final(self).hart_state == old(self).hart_state,
            ({
                let z_ptr = old(self).hart_state.registers[REG_A0 as int];
                let op = old(self).hart_state.registers[REG_A1 as int];
                let x = le_nat(words_bytes(old(self).mem, old(self).hart_state.registers[REG_A2 as int] as int));
                let y = le_nat(words_bytes(old(self).mem, old(self).hart_state.registers[REG_A3 as int] as int));
                let n = le_nat(words_bytes(old(self).mem, old(self).hart_state.registers[REG_A4 as int] as int));
                let readable = words_readable(old(self).hart_state.registers[REG_A2 as int])
                    && words_readable(old(self).hart_state.registers[REG_A3 as int])
                    && words_readable(old(self).hart_state.registers[REG_A4 as int]);
                &&& op != 0 ==> r == Err::<(u32, Option<crate::simulator::ExitCode>, usize), VmError>(
                    VmError::BigIntOp(op),
                )
                &&& r == Err::<(u32, Option<crate::simulator::ExitCode>, usize), VmError>(
                    VmError::BigIntOverflow,
                ) <==> (op == 0 && readable && n == 0 && x * y >= two_pow_256())
                &&& op == 0 && readable && bigint_result(x, y, n).is_some() && range_in_window(z_ptr, 32)
                    ==> r.is_ok()
                &&& r.is_ok() ==> {
                    &&& op == 0
                    &&& r.unwrap() == (
                        old(self).hart_state.pc.wrapping_add(4),
                        None::<crate::simulator::ExitCode>,
                        9usize,
                    )
                    &&& bigint_result(x, y, n) == Some(le_nat(mem_bytes(final(self).mem, z_ptr, 32)))
                }
            }),
    {
        let z_ptr = self.hart_state.registers[REG_A0];
        let op = self.hart_state.registers[REG_A1];
        let x_ptr = self.hart_state.registers[REG_A2];
        let y_ptr = self.hart_state.registers[REG_A3];
        let n_ptr = self.hart_state.registers[REG_A4];
        if op != 0 {
            return Err(VmError::BigIntOp(op));
        }
        let ghost m0 = self.mem;
        let mut x: [u8; 32] = [0u8; 32];
        let mut y: [u8; 32] = [0u8; 32];
        let mut n: [u8; 32] = [0u8; 32];
        match self.read_guest_words(x_ptr, 0, &mut x, 0) {
            Ok(()) => {},
            Err(e) => {
                return Err(e);
            },
        }
        let ghost m1 = self.mem;
        match self.read_guest_words(y_ptr, 0, &mut y, 0) {
            Ok(()) => {},
            Err(e) => {
                return Err(e);
            },
        }
        let ghost m2 = self.mem;
        match self.read_guest_words(n_ptr, 0, &mut n, 0) {
            Ok(()) => {},
            Err(e) => {
                return Err(e);
            },
        }
        proof {
            assert forall|j: int| 0 <= j < 32 implies #[trigger] word_byte(m1, y_ptr as int, j)
                == word_byte(m0, y_ptr as int, j) by {
                let a = (y_ptr + 4 * (j / 4)) as u32;
                assert(m1.page(crate::memory::page_of(a)) == m0.page(crate::memory::page_of(a)));
            }
            assert forall|j: int| 0 <= j < 32 implies #[trigger] word_byte(m2, n_ptr as int, j)
                == word_byte(m0, n_ptr as int, j) by {
                let a = (n_ptr + 4 * (j / 4)) as u32;
                assert(m2.page(crate::memory::page_of(a)) == m0.page(crate::memory::page_of(a)));
            }
            assert forall|j: int| 0 <= j < 32 implies #[trigger] x@[j] == words_bytes(m0, x_ptr as int)[j] by {
                assert(x@[0 + j] == word_byte(m0, x_ptr + 0, j));
            }
            assert forall|j: int| 0 <= j < 32 implies #[trigger] y@[j] == words_bytes(m0, y_ptr as int)[j] by {
                assert(y@[0 + j] == word_byte(m1, y_ptr + 0, j));
            }
            assert forall|j: int| 0 <= j < 32 implies #[trigger] n@[j] == words_bytes(m0, n_ptr as int)[j] by {
                assert(n@[0 + j] == word_byte(m2, n_ptr + 0, j));
            }
            assert(x@ =~= words_bytes(m0, x_ptr as int));
            assert(y@ =~= words_bytes(m0, y_ptr as int));
            assert(n@ =~= words_bytes(m0, n_ptr as int));
        }
        let mut n_is_zero = true;
        let mut i: usize = 0;
        while i < 32
            invariant
                i <= 32,
                n_is_zero == (forall|j: int| 0 <= j < i ==> n@[j] == 0),
            decreases 32 - i,
        {
            if n[i] != 0 {
                n_is_zero = false;
            }
            i += 1;
        }
        proof {
            lemma_le_nat_zero(n@);
        }
        let z: [u8; 32] = if n_is_zero {
            match checked_mul_256(&x, &y) {
                Some(z) => z,
                None => {
                    return Err(VmError::BigIntOverflow);
                },
            }
        } else {
            mul_mod_256(&x, &y, &n)
        };
        match self.write_guest_bytes(z_ptr, &z) {
            Ok(()) => {},
            Err(e) => {
                return Err(e);
            },
        }
        proof {
            assert(mem_bytes(self.mem, z_ptr, 32) =~= z@) by {
                assert forall|i: int| 0 <= i < 32 implies #[trigger] mem_bytes(self.mem, z_ptr, 32)[i] == z@[i] by {
                    let a = (z_ptr + i) as u32;
                    assert(a - z_ptr == i);
                }
            }
        }
        Ok((self.hart_state.pc.wrapping_add(4), None, 9))
    }
}

} // verus!
