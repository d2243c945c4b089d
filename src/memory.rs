use vstd::prelude::*;
use std::collections::BTreeMap;
use crate::session_cycle::SessionCycleCount;

verus! {

broadcast use vstd::std_specs::btree::group_btree_axioms;

/// Lowest address of the guest window.
pub const GUEST_MIN_MEM: u32 = 0x0000_0400;

/// One past the highest address of the guest window.
pub const GUEST_MAX_MEM: u32 = 0x0C00_0000;

/// Whether `addr` lies in the guest window.
pub open spec fn in_window(addr: u32) -> bool {
    GUEST_MIN_MEM <= addr < GUEST_MAX_MEM
}

/// The page that holds `addr`.
pub open spec fn page_of(addr: u32) -> u32 {
    addr >> 10
}

/// The word slot of `addr` within its page.
pub open spec fn slot_of(addr: u32) -> int {
    ((addr & 0x3ff) >> 2) as int
}

#[verifier::external_type_specification]
#[verifier::external_body]
pub struct ExMemAccessSize(rrs_lib::MemAccessSize);

/// What kind of access a watchpoint stops on.
#[derive(Clone, Copy, Debug, PartialEq, Eq, Structural)]
pub enum WatchKind {
    Write,
    Read,
    ReadWrite,
}

/// Width of a memory access.
#[derive(Clone, Copy, Debug, PartialEq, Eq, Structural)]
pub enum AccessSize {
    Byte,
    HalfWord,
    Word,
}

pub open spec fn size_len(size: AccessSize) -> u32 {
    match size {
        AccessSize::Byte => 1,
        AccessSize::HalfWord => 2,
        AccessSize::Word => 4,
    }
}

/// Bit position of the byte at `addr` within its word.
pub open spec fn byte_shift(addr: u32) -> u32 {
    (addr & 3) << 3
}

/// The bits of word `w` that an access of `size` at `addr` reads.
pub open spec fn load_value(w: u32, addr: u32, size: AccessSize) -> u32 {
    match size {
        AccessSize::Byte => (w >> byte_shift(addr)) & 0xff,
        AccessSize::HalfWord => if addr & 2 != 0 {
            (w >> 16) & 0xffff
        } else {
            w & 0xffff
        },
        AccessSize::Word => w,
    }
}

/// Word `w` after an access of `size` at `addr` stored `data` in it.
pub open spec fn store_value(w: u32, addr: u32, size: AccessSize, data: u32) -> u32 {
    match size {
        AccessSize::Byte => (w & !(0xffu32 << byte_shift(addr))) | ((data & 0xff) << byte_shift(
            addr,
        )),
        AccessSize::HalfWord => if addr & 2 != 0 {
            (w & 0x0000_ffff) | ((data & 0xffff) << 16)
        } else {
            (w & 0xffff_0000) | (data & 0xffff)
        },
        AccessSize::Word => data,
    }
}

/// `data` cut to the width of `size`.
pub open spec fn truncate(data: u32, size: AccessSize) -> u32 {
    match size {
        AccessSize::Byte => data & 0xff,
        AccessSize::HalfWord => data & 0xffff,
        AccessSize::Word => data,
    }
}

/// A load of what a store of the same width at the same address put there gives the stored bits.
pub proof fn lemma_store_then_load(w: u32, addr: u32, size: AccessSize, data: u32)
    ensures
        load_value(store_value(w, addr, size, data), addr, size) == truncate(data, size),
{
    match size {
        AccessSize::Byte => {
            let sh = byte_shift(addr);
            assert(sh == 0 || sh == 8 || sh == 16 || sh == 24) by (bit_vector)
                requires
                    sh == (addr & 3) << 3,
            ;
            assert((((w & !(0xffu32 << sh)) | ((data & 0xff) << sh)) >> sh) & 0xff == data & 0xff)
                by (bit_vector)
                requires
                    sh == 0 || sh == 8 || sh == 16 || sh == 24,
            ;
        },
        AccessSize::HalfWord => {
            assert((((w & 0x0000_ffff) | ((data & 0xffff) << 16)) >> 16) & 0xffff == data & 0xffff)
                by (bit_vector);
            assert(((w & 0xffff_0000) | (data & 0xffff)) & 0xffff == data & 0xffff) by (bit_vector);
        },
        AccessSize::Word => {},
    }
}

/// A byte store changes only its own byte of the word.
pub proof fn lemma_byte_store_lanes(w: u32, addr: u32, data: u32, a: u32)
    requires
        a >> 2 == addr >> 2,
    ensures
        load_value(store_value(w, addr, AccessSize::Byte, data), a, AccessSize::Byte) == if a
            == addr {
            data & 0xff
        } else {
            load_value(w, a, AccessSize::Byte)
        },
{
    let sa = byte_shift(a);
    let sd = byte_shift(addr);
    assert(a >> 2 == addr >> 2 && a != addr ==> (a & 3) != (addr & 3)) by (bit_vector);
    assert((a & 3) != (addr & 3) ==> sa != sd) by (bit_vector)
        requires
            sa == (a & 3) << 3,
            sd == (addr & 3) << 3,
    ;
    assert(sa == 0 || sa == 8 || sa == 16 || sa == 24) by (bit_vector)
        requires
            sa == (a & 3) << 3,
    ;
    assert(sd == 0 || sd == 8 || sd == 16 || sd == 24) by (bit_vector)
        requires
            sd == (addr & 3) << 3,
    ;
    if a == addr {
        lemma_store_then_load(w, addr, AccessSize::Byte, data);
    } else {
        assert((((w & !(0xffu32 << sd)) | ((data & 0xff) << sd)) >> sa) & 0xff == (w >> sa) & 0xff)
            by (bit_vector)
            requires
                sa != sd,
                sa == 0 || sa == 8 || sa == 16 || sa == 24,
                sd == 0 || sd == 8 || sd == 16 || sd == 24,
        ;
    }
}

/// Two addresses share a word exactly when they share page and slot.
pub proof fn lemma_same_word(a: u32, b: u32)
    ensures
        (page_of(a) == page_of(b) && slot_of(a) == slot_of(b)) <==> (a >> 2 == b >> 2),
{
    assert(((a >> 10 == b >> 10) && ((a & 0x3ff) >> 2 == (b & 0x3ff) >> 2)) <==> (a >> 2 == b
        >> 2)) by (bit_vector);
}

/// Whether watchpoint `w` stops an access of `len` bytes at `addr`.
pub open spec fn watch_hits(w: (u32, u32, WatchKind), addr: u32, len: u32, is_write: bool) -> bool {
    &&& (is_write ==> w.2 != WatchKind::Read)
    &&& (!is_write ==> w.2 != WatchKind::Write)
    &&& addr < w.0 + w.1
    &&& w.0 < addr + len
}

/// The kind of the first watchpoint of `wps` that stops the access.
pub open spec fn first_hit(wps: Seq<(u32, u32, WatchKind)>, addr: u32, len: u32, is_write: bool) -> Option<
    WatchKind,
>
    decreases wps.len(),
{
    if wps.len() == 0 {
        None
    } else if watch_hits(wps[0], addr, len, is_write) {
        Some(wps[0].2)
    } else {
        first_hit(wps.drop_first(), addr, len, is_write)
    }
}

/// The latched trigger after an access: an earlier one stays, else the first hit is taken.
pub open spec fn latch(
    wps: Seq<(u32, u32, WatchKind)>,
    trigger: Option<(WatchKind, u32)>,
    addr: u32,
    len: u32,
    is_write: bool,
) -> Option<(WatchKind, u32)> {
    if trigger.is_some() {
        trigger
    } else {
        match first_hit(wps, addr, len, is_write) {
            Some(k) => Some((k, addr)),
            None => None,
        }
    }
}

/// Where a watchpoint of `wps` stops an access, some watchpoint no later than it is the first hit.
pub proof fn lemma_first_hit_found(wps: Seq<(u32, u32, WatchKind)>, addr: u32, len: u32, is_write: bool, i: int)
    requires
        0 <= i < wps.len(),
        watch_hits(wps[i], addr, len, is_write),
    ensures
        exists|j: int|
            0 <= j <= i && watch_hits(wps[j], addr, len, is_write) && first_hit(wps, addr, len, is_write)
                == Some(wps[j].2),
    decreases wps.len(),
{
    if !watch_hits(wps[0], addr, len, is_write) {
        lemma_first_hit_found(wps.drop_first(), addr, len, is_write, i - 1);
        let j = choose|j: int|
            0 <= j <= i - 1 && watch_hits(wps.drop_first()[j], addr, len, is_write) && first_hit(
                wps.drop_first(),
                addr,
                len,
                is_write,
            ) == Some(wps.drop_first()[j].2);
        assert(wps[j + 1] == wps.drop_first()[j]);
    } else {
        assert(first_hit(wps, addr, len, is_write) == Some(wps[0].2));
    }
}

/// Within a step, the first guest access that a compatible watchpoint overlaps latches the
/// trigger, with that access's address, and once latched no later access changes it.
pub proof fn lemma_watch_latch(
    wps: Seq<(u32, u32, WatchKind)>,
    trigger: Option<(WatchKind, u32)>,
    addr: u32,
    len: u32,
    is_write: bool,
    i: int,
)
    requires
        0 <= i < wps.len(),
        watch_hits(wps[i], addr, len, is_write),
    ensures
        trigger.is_some() ==> latch(wps, trigger, addr, len, is_write) == trigger,
        trigger.is_none() ==> exists|j: int|
            0 <= j <= i && watch_hits(wps[j], addr, len, is_write) && latch(
                wps,
                trigger,
                addr,
                len,
                is_write,
            ) == Some((wps[j].2, addr)),
{
    lemma_first_hit_found(wps, addr, len, is_write, i);
}

/// `new` is `old` after a read of page `page` was recorded.
pub open spec fn read_recorded(old: SessionCycleCount, new: SessionCycleCount, page: u32) -> bool {
    &&& new.cur_step_read@ == if old.cur_step_read@.contains(page) {
        old.cur_step_read@
    } else {
        old.cur_step_read@.push(page)
    }
    &&& new.cur_step_write == old.cur_step_write
    &&& new.num_segment == old.num_segment
    &&& new.cur_segment_cycle == old.cur_segment_cycle
    &&& new.cur_segment_resident@ == old.cur_segment_resident@
    &&& new.cur_segment_dirty@ == old.cur_segment_dirty@
}

/// `new` is `old` after a write of page `page` was recorded.
pub open spec fn write_recorded(old: SessionCycleCount, new: SessionCycleCount, page: u32) -> bool {
    &&& new.cur_step_write@ == if old.cur_step_write@.contains(page) {
        old.cur_step_write@
    } else {
        old.cur_step_write@.push(page)
    }
    &&& new.cur_step_read == old.cur_step_read
    &&& new.num_segment == old.num_segment
    &&& new.cur_segment_cycle == old.cur_segment_cycle
    &&& new.cur_segment_resident@ == old.cur_segment_resident@
    &&& new.cur_segment_dirty@ == old.cur_segment_dirty@
}

/// Paged guest memory with watchpoints and the session's cycle accountant.
pub struct Memory {
    pub map: BTreeMap<u32, [u32; 256]>,
    pub hw_watchpoints: Vec<(u32, u32, WatchKind)>,
    pub watch_trigger: Option<(WatchKind, u32)>,
    pub session_cycle_callback: Option<SessionCycleCount>,
}

impl Memory {
    /// Only pages of the guest window are ever allocated, and the accountant is well formed.
    pub open spec fn wf(&self) -> bool {
        &&& forall|p: u32| #[trigger]
            self.map@.contains_key(p) ==> 1 <= p <= 0x2FFFF
        &&& match self.session_cycle_callback {
            Some(c) => c.wf(),
            None => true,
        }
    }

    /// What guest accesses keep: well-formedness, the watchpoints, a latched trigger, and the
    /// cycles already booked.
    pub open spec fn evolves(&self, new: &Memory) -> bool {
        &&& new.wf()
        &&& new.hw_watchpoints == self.hw_watchpoints
        &&& self.watch_trigger.is_some() ==> new.watch_trigger == self.watch_trigger
        &&& new.session_cycle_callback.is_some() == self.session_cycle_callback.is_some()
        &&& self.session_cycle_callback.is_some() ==> {
            &&& new.session_cycle_callback.unwrap().num_segment
                == self.session_cycle_callback.unwrap().num_segment
            &&& new.session_cycle_callback.unwrap().cur_segment_cycle
                == self.session_cycle_callback.unwrap().cur_segment_cycle
        }
    }

    /// The words of page `p`; a page not yet allocated reads as zeros.
    pub open spec fn page(&self, p: u32) -> Seq<u32> {
        if self.map@.contains_key(p) {
            self.map@[p]@
        } else {
            Seq::new(256, |i: int| 0u32)
        }
    }

    /// The allocated pages and their words.
    pub open spec fn pages(&self) -> Map<u32, Seq<u32>> {
        self.map@.map_values(|a: [u32; 256]| a@)
    }

    /// The word that holds `addr`.
    pub open spec fn word(&self, addr: u32) -> u32 {
        self.page(page_of(addr))[slot_of(addr)]
    }

    /// The byte at `addr`.
    pub open spec fn byte(&self, addr: u32) -> u32 {
        load_value(self.word(addr), addr, AccessSize::Byte)
    }

    /// Whether every page reads the same in `self` and `other`.
    pub open spec fn same_contents(&self, other: &Memory) -> bool {
        forall|p: u32| #[trigger] self.page(p) == other.page(p)
    }

    pub fn new() -> (r: Self)
        ensures
            r.wf(),
            r.map@.is_empty(),
            r.hw_watchpoints@.len() == 0,
            r.watch_trigger.is_none(),
            r.session_cycle_callback.is_none(),
    {
        Memory {
            map: BTreeMap::new(),
            hw_watchpoints: Vec::new(),
            watch_trigger: None,
            session_cycle_callback: None,
        }
    }

    /// Hands the memory the accountant that its guest accesses are booked to.
    pub fn with_session_cycle_callback(&mut self, callback: SessionCycleCount)
        ensures
            final(self).session_cycle_callback == Some(callback),
            final(self).map == old(self).map,
            final(self).hw_watchpoints == old(self).hw_watchpoints,
            final(self).watch_trigger == old(self).watch_trigger,
            old(self).wf() && callback.wf() ==> final(self).wf(),
    {
        self.session_cycle_callback = Some(callback);
    }

    /// Latches the first watchpoint that an access of `len` bytes at `addr` hits,
    /// unless a trigger is latched already.
    fn check_watchpoints(&mut self, addr: u32, len: u32, is_write: bool)
        ensures
            final(self).watch_trigger == latch(
                old(self).hw_watchpoints@,
                old(self).watch_trigger,
                addr,
                len,
                is_write,
            ),
            final(self).map == old(self).map,
            final(self).hw_watchpoints == old(self).hw_watchpoints,
            final(self).session_cycle_callback == old(self).session_cycle_callback,
    {
        if self.watch_trigger.is_some() {
            return;
        }
        let mut i: usize = 0;
        assert(self.hw_watchpoints@.subrange(0, self.hw_watchpoints@.len() as int)
            =~= self.hw_watchpoints@);
        while i < self.hw_watchpoints.len()
            invariant
                i <= self.hw_watchpoints.len(),
                self.watch_trigger.is_none(),
                *self == *old(self),
                first_hit(self.hw_watchpoints@, addr, len, is_write) == first_hit(
                    self.hw_watchpoints@.subrange(i as int, self.hw_watchpoints@.len() as int),
                    addr,
                    len,
                    is_write,
                ),
            decreases self.hw_watchpoints.len() - i,
        {
            let entry = self.hw_watchpoints[i];
            let ghost rest = self.hw_watchpoints@.subrange(i as int, self.hw_watchpoints@.len() as int);
            proof {
                assert(rest[0] == entry);
                assert(rest.drop_first() =~= self.hw_watchpoints@.subrange(
                    i + 1,
                    self.hw_watchpoints@.len() as int,
                ));
            }
            let kind_ok = if is_write {
                entry.2 != WatchKind::Read
            } else {
                entry.2 != WatchKind::Write
            };
            if kind_ok && (addr as u64) < entry.0 as u64 + entry.1 as u64 && (entry.0 as u64) < addr
                as u64 + len as u64 {
                self.watch_trigger = Some((entry.2, addr));
                return;
            }
            i += 1;
        }
        proof {
            assert(self.hw_watchpoints@.subrange(
                i as int,
                self.hw_watchpoints@.len() as int,
            ).len() == 0);
        }
    }

    /// Reads `size` bits at `addr`; `None` outside the guest window. The page is allocated
    /// if it was not. Unless `privileged`, the read is booked to the accountant and checked
    /// against the watchpoints.
    pub fn read_mem_with_privileges(&mut self, addr: u32, size: AccessSize, privileged: bool) -> (r:
        Option<u32>)
        ensures
            old(self).wf() ==> final(self).wf(),
            old(self).wf() ==> old(self).evolves(final(self)),
            !in_window(addr) ==> r.is_none() && *final(self) == *old(self),
            in_window(addr) ==> {
                &&& r == Some(load_value(old(self).word(addr), addr, size))
                &&& final(self).same_contents(old(self))
                &&& final(self).map@.dom() == old(self).map@.dom().insert(page_of(addr))
                &&& final(self).hw_watchpoints == old(self).hw_watchpoints
                &&& final(self).watch_trigger == if privileged {
                    old(self).watch_trigger
                } else {
                    latch(
                        old(self).hw_watchpoints@,
                        old(self).watch_trigger,
                        addr,
                        size_len(size),
                        false,
                    )
                }
                &&& match old(self).session_cycle_callback {
                    Some(c) => {
                        &&& final(self).session_cycle_callback.is_some()
                        &&& privileged ==> final(self).session_cycle_callback == Some(c)
                        &&& !privileged ==> read_recorded(
                            c,
                            final(self).session_cycle_callback.unwrap(),
                            page_of(addr),
                        )
                    },
                    None => final(self).session_cycle_callback.is_none(),
                }
            },
    {
        if addr < GUEST_MIN_MEM || addr >= GUEST_MAX_MEM {
            return None;
        }
        let page_idx = addr >> 10;
        let slot = ((addr & 0x3ff) >> 2) as usize;
        proof {
            assert((addr & 0x3ff) >> 2 < 256) by (bit_vector);
            assert(0x400 <= addr < 0x0C00_0000 ==> 1 <= addr >> 10 <= 0x2FFFF) by (bit_vector);
        }
        self.allocate_page(page_idx);
        let ghost allocated = *self;
        if !privileged {
            match &mut self.session_cycle_callback {
                Some(c) => c.callback_read_mem(page_idx),
                None => {},
            }
            self.check_watchpoints(addr, size_len_exec(size), false);
        }
        let word = self.map.get(&page_idx).unwrap()[slot];
        proof {
            assert((addr & 3) << 3 < 32) by (bit_vector);
            assert(self.map == allocated.map);
            assert(forall|p: u32| #[trigger] self.page(p) == allocated.page(p));
            assert(self.page(page_idx) == old(self).page(page_idx));
            assert(self.page(page_idx)[slot as int] == word);
            assert(word == old(self).word(addr));
        }
        match size {
            AccessSize::Byte => Some((word >> ((addr & 3) << 3)) & 0xff),
            AccessSize::HalfWord => if addr & 2 != 0 {
                Some((word >> 16) & 0xffff)
            } else {
                Some(word & 0xffff)
            },
            AccessSize::Word => Some(word),
        }
    }

    /// Writes the low `size` bits of `store_data` at `addr`; `false` outside the guest
    /// window. Bytes and half-words update their part of the word that holds them.
    /// Unless `privileged`, the write is booked to the accountant and checked against the
    /// watchpoints.
    pub fn write_mem_with_privileges(
        &mut self,
        addr: u32,
        size: AccessSize,
        store_data: u32,
        privileged: bool,
    ) -> (r: bool)
        ensures
            old(self).wf() ==> final(self).wf(),
            old(self).wf() ==> old(self).evolves(final(self)),
            r == in_window(addr),
            !in_window(addr) ==> *final(self) == *old(self),
            in_window(addr) ==> {
                &&& forall|p: u32| p != page_of(addr) ==> #[trigger] final(self).page(p) == old(
                    self,
                ).page(p)
                &&& final(self).page(page_of(addr)) == old(self).page(page_of(addr)).update(
                    slot_of(addr),
                    store_value(old(self).word(addr), addr, size, store_data),
                )
                &&& load_value(final(self).word(addr), addr, size) == truncate(store_data, size)
                &&& size == AccessSize::Byte ==> forall|a: u32| #[trigger] final(self).byte(a) == if a
                    == addr {
                    store_data & 0xff
                } else {
                    old(self).byte(a)
                }
                &&& final(self).map@.dom() == old(self).map@.dom().insert(page_of(addr))
                &&& final(self).hw_watchpoints == old(self).hw_watchpoints
                &&& final(self).watch_trigger == if privileged {
                    old(self).watch_trigger
                } else {
                    latch(
                        old(self).hw_watchpoints@,
                        old(self).watch_trigger,
                        addr,
                        size_len(size),
                        true,
                    )
                }
                &&& match old(self).session_cycle_callback {
                    Some(c) => {
                        &&& final(self).session_cycle_callback.is_some()
                        &&& privileged ==> final(self).session_cycle_callback == Some(c)
                        &&& !privileged ==> write_recorded(
                            c,
                            final(self).session_cycle_callback.unwrap(),
                            page_of(addr),
                        )
                    },
                    None => final(self).session_cycle_callback.is_none(),
                }
            },
    {
        if addr < GUEST_MIN_MEM || addr >= GUEST_MAX_MEM {
            return false;
        }
        let page_idx = addr >> 10;
        let slot = ((addr & 0x3ff) >> 2) as usize;
        proof {
            assert((addr & 0x3ff) >> 2 < 256) by (bit_vector);
            assert(0x400 <= addr < 0x0C00_0000 ==> 1 <= addr >> 10 <= 0x2FFFF) by (bit_vector);
        }
        self.allocate_page(page_idx);
        let ghost allocated = *self;
        if !privileged {
            match &mut self.session_cycle_callback {
                Some(c) => c.callback_write_mem(page_idx),
                None => {},
            }
            self.check_watchpoints(addr, size_len_exec(size), true);
        }
        let mut page: [u32; 256] = *self.map.get(&page_idx).unwrap();
        let word = page[slot];
        let ghost before = page@;
        proof {
            assert((addr & 3) << 3 < 32) by (bit_vector);
            assert(self.map == allocated.map);
            assert(forall|p: u32| #[trigger] self.page(p) == allocated.page(p));
            assert(before == self.page(page_idx));
            assert(allocated.page(page_idx) == old(self).page(page_idx));
        }
        let new_word = match size {
            AccessSize::Byte => {
                let sh = (addr & 3) << 3;
                (word & !(0xffu32 << sh)) | ((store_data & 0xff) << sh)
            },
            AccessSize::HalfWord => if addr & 2 != 0 {
                (word & 0x0000_ffff) | ((store_data & 0xffff) << 16)
            } else {
                (word & 0xffff_0000) | (store_data & 0xffff)
            },
            AccessSize::Word => store_data,
        };
        page[slot] = new_word;
        assert(page@ =~= before.update(slot as int, new_word));
        let ghost mid = *self;
        self.map.insert(page_idx, page);
        proof {
            assert forall|p: u32| p != page_of(addr) implies #[trigger] self.page(p) == old(self).page(p) by {
                assert(self.page(p) == mid.page(p));
                assert(mid.page(p) == allocated.page(p));
            }
        }
        proof {
            lemma_store_then_load(word, addr, size, store_data);
            if size == AccessSize::Byte {
                assert forall|a: u32| #[trigger] self.byte(a) == if a == addr {
                    store_data & 0xff
                } else {
                    old(self).byte(a)
                } by {
                    lemma_same_word(a, addr);
                    assert(self.page(page_idx) == old(self).page(page_idx).update(slot as int, new_word));
                    if a >> 2 == addr >> 2 {
                        lemma_byte_store_lanes(word, addr, store_data, a);
                        assert(page_of(a) == page_idx && slot_of(a) == slot as int);
                        assert(old(self).word(a) == word);
                        assert(self.word(a) == new_word);
                    } else if page_of(a) != page_of(addr) {
                        assert(self.page(page_of(a)) == old(self).page(page_of(a)));
                        assert(self.word(a) == old(self).word(a));
                    } else {
                        assert(slot_of(a) != slot as int);
                        assert((a & 0x3ff) >> 2 < 256) by (bit_vector);
                        assert(page_of(a) == page_idx);
                        assert(self.page(page_idx)[slot_of(a)] == old(self).page(page_idx)[slot_of(a)]);
                        assert(self.word(a) == old(self).word(a));
                    }
                }
            }
            assert(self.page(page_idx) =~= old(self).page(page_idx).update(slot as int, new_word));
        }
        true
    }

    /// Allocates page `page_idx`, cleared to zero, if it is not yet.
    fn allocate_page(&mut self, page_idx: u32)
        requires
            1 <= page_idx <= 0x2FFFF,
        ensures
            final(self).map@.contains_key(page_idx),
            final(self).map@.dom() == old(self).map@.dom().insert(page_idx),
            final(self).same_contents(old(self)),
            final(self).hw_watchpoints == old(self).hw_watchpoints,
            final(self).watch_trigger == old(self).watch_trigger,
            final(self).session_cycle_callback == old(self).session_cycle_callback,
            old(self).wf() ==> final(self).wf(),
    {
        proof {
            if old(self).wf() {
                assert forall|p: u32| #[trigger]
                    self.map@.dom().insert(page_idx).contains(p) implies 1 <= p <= 0x2FFFF by {
                    if p != page_idx {
                        assert(old(self).map@.contains_key(p));
                    }
                }
            }
        }
        if !self.map.contains_key(&page_idx) {
            let zeros: [u32; 256] = [0u32; 256];
            assert(zeros@ =~= Seq::new(256, |i: int| 0u32));
            self.map.insert(page_idx, zeros);
            proof {
                assert forall|p: u32| #[trigger] self.page(p) == old(self).page(p) by {
                    if p == page_idx {
                        assert(self.page(p) =~= old(self).page(p));
                    }
                }
                assert(self.map@.dom() =~= old(self).map@.dom().insert(page_idx));
            }
        } else {
            assert(self.map@.dom() =~= old(self).map@.dom().insert(page_idx));
        }
    }
}

pub fn size_len_exec(size: AccessSize) -> (r: u32)
    ensures
        r == size_len(size),
{
    match size {
        AccessSize::Byte => 1,
        AccessSize::HalfWord => 2,
        AccessSize::Word => 4,
    }
}

/// Outside the guest window a well-formed memory holds only zeros: no write ever lands there.
pub proof fn lemma_outside_window_untouched(m: Memory, addr: u32)
    requires
        m.wf(),
        !in_window(addr),
    ensures
        m.word(addr) == 0,
        m.byte(addr) == 0,
{
    assert(!(0x400 <= addr < 0x0C00_0000) ==> (addr >> 10 < 1 || addr >> 10 > 0x2FFFF)) by (bit_vector);
    assert(!m.map@.contains_key(page_of(addr)));
    assert((addr & 0x3ff) >> 2 < 256) by (bit_vector);
    let sh = byte_shift(addr);
    assert((0u32 >> sh) & 0xff == 0) by (bit_vector);
    assert(m.word(addr) == 0);
}

/// A word that is not zero lies on an allocated page.
pub proof fn lemma_unallocated_zero(m: Memory, addr: u32)
    ensures
        m.word(addr) != 0 ==> m.map@.contains_key(page_of(addr)),
{
    assert((addr & 0x3ff) >> 2 < 256) by (bit_vector);
}

/// Memories with the same allocated pages that read alike have the same pages.
pub proof fn lemma_pages_same(a: Memory, b: Memory)
    requires
        a.map@.dom() == b.map@.dom(),
        a.same_contents(&b),
    ensures
        a.pages() == b.pages(),
{
    assert forall|p: u32| #[trigger] a.pages().contains_key(p) implies a.pages()[p] == b.pages()[p] by {
        assert(a.page(p) == b.page(p));
    }
    assert(a.pages() =~= b.pages());
}

/// Relies on rrs_lib's MemAccessSize: its three variants are the same three widths.
#[verifier::external_body]
fn from_rrs_size(size: rrs_lib::MemAccessSize) -> AccessSize {
    match size {
        rrs_lib::MemAccessSize::Byte => AccessSize::Byte,
        rrs_lib::MemAccessSize::HalfWord => AccessSize::HalfWord,
        rrs_lib::MemAccessSize::Word => AccessSize::Word,
    }
}

impl rrs_lib::Memory for Memory {
    fn read_mem(&mut self, addr: u32, size: rrs_lib::MemAccessSize) -> Option<u32> {
        self.read_mem_with_privileges(addr, from_rrs_size(size), false)
    }

    fn write_mem(&mut self, addr: u32, size: rrs_lib::MemAccessSize, store_data: u32) -> bool {
        self.write_mem_with_privileges(addr, from_rrs_size(size), store_data, false)
    }
}

} // verus!
