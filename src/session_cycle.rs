use vstd::prelude::*;
use std::collections::HashSet;
use crate::error::VmError;

verus! {

broadcast use vstd::std_specs::hash::group_hash_axioms;

// 1 cycle for the byte init column, 1561 for the byte setup column
// (32 * 1024 / 21, rounded up), 1 for the RAM init column, 27 to load
// (64 + 8 + 8) initial RAM elements, 2 to send a RESET command.
pub const PRE_CYCLE: usize = 1 + 1561 + 1 + 27 + 2;

// 2 cycles for each of the two RESET commands, 1 to end the byte column,
// 1 to end the RAM column.
pub const POST_CYCLE: usize = 2 + 2 + 2;

// 73 cycles for the SHA cycles, 50 for the zero-knowledge work.
pub const OTHER_CONST_CYCLE: usize = 73 + 50;

/// The fixed overhead that every segment carries.
pub const CONST_CYCLE: usize = PRE_CYCLE + POST_CYCLE + OTHER_CONST_CYCLE;

/// The number of cycles that one segment can hold.
pub const SEGMENT_LIMIT: usize = 1048576;

/// The top page of the virtual page tree.
pub const ROOT_PAGE_IDX: u32 = 219862;

/// Cost of paging one ordinary page: 1 + SHA init + (SHA load + SHA main) per block, 16 blocks.
pub const PAGE_CYCLES: usize = 1 + 5 + (16 + 52) * 16;

/// Cost of paging the root page, which holds 22 words, that is 11 blocks.
pub const ROOT_PAGE_CYCLES: usize = 1 + 5 + (16 + 52) * 11;

/// The page that holds the digest of page `idx` in the page tree.
pub open spec fn parent_page(idx: u32) -> u32 {
    ((0x0D00_0000 + idx as int * 32) / 1024) as u32
}

/// Distance to the root, which shrinks along the chain of parents.
pub open spec fn root_distance(idx: u32) -> nat {
    if idx <= ROOT_PAGE_IDX {
        (ROOT_PAGE_IDX - idx) as nat
    } else {
        (idx - ROOT_PAGE_IDX) as nat
    }
}

/// The pages from `idx` up to the root, both included.
pub open spec fn page_chain(idx: u32) -> Set<u32>
    decreases root_distance(idx),
{
    if idx == ROOT_PAGE_IDX {
        set![ROOT_PAGE_IDX]
    } else if root_distance(parent_page(idx)) < root_distance(idx) {
        page_chain(parent_page(idx)).insert(idx)
    } else {
        set![idx]
    }
}

/// Every page of `s` together with all of its ancestors.
pub open spec fn pages_closure(s: Seq<u32>) -> Set<u32>
    decreases s.len(),
{
    if s.len() == 0 {
        Set::empty()
    } else {
        pages_closure(s.drop_last()).union(page_chain(s.last()))
    }
}

/// A set of pages that holds the ancestors of each of its pages.
pub open spec fn upward_closed(s: Set<u32>) -> bool {
    forall|p: u32| #[trigger] s.contains(p) ==> page_chain(p).subset_of(s)
}

/// Cycles to page in the pages of `fresh`.
pub open spec fn paging_cycles(fresh: Set<u32>) -> int {
    PAGE_CYCLES * fresh.len() - if fresh.contains(ROOT_PAGE_IDX) {
        PAGE_CYCLES - ROOT_PAGE_CYCLES
    } else {
        0int
    }
}

pub proof fn lemma_parent_closer(idx: u32)
    requires
        idx != ROOT_PAGE_IDX,
    ensures
        root_distance(parent_page(idx)) < root_distance(idx),
        idx < ROOT_PAGE_IDX ==> parent_page(idx) <= ROOT_PAGE_IDX,
        idx > ROOT_PAGE_IDX ==> parent_page(idx) >= ROOT_PAGE_IDX,
{
    assert((0x0D00_0000 + idx as int * 32) / 1024 == 212992 + idx as int / 32) by (nonlinear_arith);
}

pub proof fn lemma_chain_step(idx: u32)
    requires
        idx != ROOT_PAGE_IDX,
    ensures
        page_chain(idx) == page_chain(parent_page(idx)).insert(idx),
        !page_chain(parent_page(idx)).contains(idx),
{
    lemma_parent_closer(idx);
    lemma_chain_same_side(parent_page(idx), idx);
}

/// Pages of a chain are no farther from the root than its start, on the same side of it.
proof fn lemma_chain_same_side(p: u32, idx: u32)
    requires
        idx != ROOT_PAGE_IDX,
        root_distance(p) < root_distance(idx),
        idx < ROOT_PAGE_IDX ==> p <= ROOT_PAGE_IDX,
        idx > ROOT_PAGE_IDX ==> p >= ROOT_PAGE_IDX,
    ensures
        !page_chain(p).contains(idx),
    decreases root_distance(p),
{
    if p != ROOT_PAGE_IDX {
        lemma_parent_closer(p);
        lemma_chain_same_side(parent_page(p), idx);
    }
}

pub proof fn lemma_chain_basic(idx: u32)
    ensures
        page_chain(idx).contains(idx),
        page_chain(idx).contains(ROOT_PAGE_IDX),
        page_chain(idx).finite(),
        upward_closed(page_chain(idx)),
    decreases root_distance(idx),
{
    if idx != ROOT_PAGE_IDX {
        lemma_parent_closer(idx);
        lemma_chain_basic(parent_page(idx));
        let c = page_chain(idx);
        assert forall|q: u32| #[trigger] c.contains(q) implies page_chain(q).subset_of(c) by {
            if q != idx {
                assert(page_chain(parent_page(idx)).contains(q));
            }
        }
    } else {
        assert(upward_closed(page_chain(idx))) by {
            assert forall|q: u32| #[trigger] page_chain(idx).contains(q) implies page_chain(
                q,
            ).subset_of(page_chain(idx)) by {
                assert(q == ROOT_PAGE_IDX);
            }
        }
    }
}

pub proof fn lemma_closure_basic(s: Seq<u32>)
    ensures
        pages_closure(s).finite(),
        upward_closed(pages_closure(s)),
        forall|i: int| 0 <= i < s.len() ==> pages_closure(s).contains(#[trigger] s[i]),
    decreases s.len(),
{
    if s.len() > 0 {
        lemma_closure_basic(s.drop_last());
        lemma_chain_basic(s.last());
        let c = pages_closure(s);
        assert forall|q: u32| #[trigger] c.contains(q) implies page_chain(q).subset_of(c) by {
            if pages_closure(s.drop_last()).contains(q) {
                assert(page_chain(q).subset_of(pages_closure(s.drop_last())));
            } else {
                assert(page_chain(q).subset_of(page_chain(s.last())));
            }
        }
        assert forall|i: int| 0 <= i < s.len() implies c.contains(#[trigger] s[i]) by {
            if i < s.len() - 1 {
                assert(s.drop_last()[i] == s[i]);
            }
        }
    }
}

/// Cycles to page in the pages listed in `s`.
spec fn seq_paging_cycles(s: Seq<u32>) -> int {
    PAGE_CYCLES * s.len() - if s.contains(ROOT_PAGE_IDX) {
        PAGE_CYCLES - ROOT_PAGE_CYCLES
    } else {
        0int
    }
}

pub proof fn lemma_paging_cycles_nonneg(s: Set<u32>)
    requires
        s.finite(),
    ensures
        paging_cycles(s) >= 0,
{
    if s.contains(ROOT_PAGE_IDX) {
        assert(s.remove(ROOT_PAGE_IDX).len() + 1 == s.len());
        let n = s.len() as int;
        assert(PAGE_CYCLES * n >= PAGE_CYCLES) by (nonlinear_arith)
            requires
                n >= 1,
                PAGE_CYCLES == 1094,
        ;
    }
}

proof fn lemma_push_cost(prev: Seq<u32>, cur: u32)
    requires
        !prev.contains(cur),
    ensures
        seq_paging_cycles(prev.push(cur)) == seq_paging_cycles(prev) + if cur == ROOT_PAGE_IDX {
            ROOT_PAGE_CYCLES
        } else {
            PAGE_CYCLES
        },
        seq_paging_cycles(prev) <= PAGE_CYCLES * prev.len(),
{
    let next = prev.push(cur);
    assert(next.contains(ROOT_PAGE_IDX) == (prev.contains(ROOT_PAGE_IDX) || cur == ROOT_PAGE_IDX))
        by {
        if cur == ROOT_PAGE_IDX {
            assert(next[prev.len() as int] == cur);
        }
        if prev.contains(ROOT_PAGE_IDX) {
            let k = choose|k: int| 0 <= k < prev.len() && prev[k] == ROOT_PAGE_IDX;
            assert(next[k] == ROOT_PAGE_IDX);
        }
        if next.contains(ROOT_PAGE_IDX) {
            let k = choose|k: int| 0 <= k < next.len() && next[k] == ROOT_PAGE_IDX;
            if k < prev.len() {
                assert(prev[k] == ROOT_PAGE_IDX);
            }
        }
    }
    let n = prev.len() as int;
    assert(PAGE_CYCLES * (n + 1) == PAGE_CYCLES * n + PAGE_CYCLES) by (nonlinear_arith);
    if prev.contains(ROOT_PAGE_IDX) {
        let k = choose|k: int| 0 <= k < prev.len() && prev[k] == ROOT_PAGE_IDX;
        assert(PAGE_CYCLES * n >= PAGE_CYCLES) by (nonlinear_arith)
            requires
                n >= 1,
                PAGE_CYCLES == 1094,
        ;
    }
}

proof fn lemma_union_closed(a: Set<u32>, b: Set<u32>)
    requires
        upward_closed(a),
        upward_closed(b),
    ensures
        upward_closed(a.union(b)),
{
    assert forall|p: u32| #[trigger] a.union(b).contains(p) implies page_chain(p).subset_of(
        a.union(b),
    ) by {
        if a.contains(p) {
            assert(page_chain(p).subset_of(a));
        } else {
            assert(page_chain(p).subset_of(b));
        }
    }
}

/// Adds each page of `pages` to `set`.
fn insert_all(set: &mut HashSet<u32>, pages: &Vec<u32>)
    ensures
        final(set)@ == old(set)@.union(pages@.to_set()),
{
    let mut j: usize = 0;
    while j < pages.len()
        invariant
            j <= pages.len(),
            set@ == old(set)@.union(pages@.take(j as int).to_set()),
        decreases pages.len() - j,
    {
        let ghost prev = set@;
        set.insert(pages[j]);
        proof {
            assert(pages@.take(j + 1) == pages@.take(j as int).push(pages@[j as int]));
            pages@.take(j as int).lemma_push_to_set_commute(pages@[j as int]);
            assert(set@ =~= old(set)@.union(pages@.take(j + 1).to_set()));
        }
        j += 1;
    }
    proof {
        assert(pages@.take(pages.len() as int) == pages@);
    }
}

/// Whether `v` holds `x`.
fn vec_has(v: &Vec<u32>, x: u32) -> (r: bool)
    ensures
        r == v@.contains(x),
{
    let mut i: usize = 0;
    while i < v.len()
        invariant
            i <= v.len(),
            forall|j: int| 0 <= j < i ==> v@[j] != x,
        decreases v.len() - i,
    {
        if v[i] == x {
            return true;
        }
        i += 1;
    }
    false
}

/// The pages among `pages` and their ancestors that `known` lacks, and the cycles to page them in.
fn page_in(pages: &Vec<u32>, known: &HashSet<u32>) -> (r: (u128, Vec<u32>))
    requires
        upward_closed(known@),
    ensures
        r.1@.no_duplicates(),
        r.1@.to_set() == pages_closure(pages@).difference(known@),
        r.0 == paging_cycles(r.1@.to_set()),
        r.0 <= 1094 * 0xffff_ffff_ffff_ffffu128,
{
    let mut cost: u128 = 0;
    let mut fresh: Vec<u32> = Vec::new();
    assert(fresh@ =~= Seq::<u32>::empty());
    let mut i: usize = 0;
    while i < pages.len()
        invariant
            i <= pages.len(),
            upward_closed(known@),
            fresh@.no_duplicates(),
            fresh@.to_set() == pages_closure(pages@.take(i as int)).difference(known@),
            cost == seq_paging_cycles(fresh@),
        decreases pages.len() - i,
    {
        let start = pages[i];
        let ghost before = pages_closure(pages@.take(i as int));
        proof {
            lemma_closure_basic(pages@.take(i as int));
            lemma_chain_basic(start);
            assert(pages@.take(i + 1).drop_last() == pages@.take(i as int));
        }
        let mut cur = start;
        loop
            invariant_except_break
                page_chain(start).contains(cur),
                fresh@.to_set() == before.union(page_chain(start).difference(page_chain(cur))).difference(
                    known@,
                ),
            invariant
                upward_closed(known@),
                upward_closed(before),
                upward_closed(page_chain(start)),
                fresh@.no_duplicates(),
                cost == seq_paging_cycles(fresh@),
            ensures
                fresh@.no_duplicates(),
                fresh@.to_set() == before.union(page_chain(start)).difference(known@),
                cost == seq_paging_cycles(fresh@),
            decreases root_distance(cur),
        {
            proof {
                lemma_chain_basic(cur);
            }
            if known.contains(&cur) || vec_has(&fresh, cur) {
                proof {
                    if known@.contains(cur) {
                        assert(page_chain(cur).subset_of(known@));
                    } else {
                        assert(fresh@.to_set().contains(cur));
                        assert(before.contains(cur));
                        assert(page_chain(cur).subset_of(before));
                    }
                    assert(fresh@.to_set() =~= before.union(page_chain(start)).difference(known@));
                }
                break;
            }
            proof {
                assert(!fresh@.to_set().contains(cur));
            }
            let ghost prev = fresh@;
            fresh.push(cur);
            proof {
                lemma_push_cost(prev, cur);
                assert(prev.len() < fresh.len() <= usize::MAX);
                assert(usize::MAX <= 0xffff_ffff_ffff_ffff);
                let n = prev.len() as int;
                assert(PAGE_CYCLES * n + PAGE_CYCLES <= 1094 * 0xffff_ffff_ffff_ffffu128) by (nonlinear_arith)
                    requires
                        n + 1 <= 0xffff_ffff_ffff_ffffu128,
                        PAGE_CYCLES == 1094,
                ;
                prev.lemma_push_to_set_commute(cur);
            }
            if cur == ROOT_PAGE_IDX {
                cost = cost + ROOT_PAGE_CYCLES as u128;
                proof {
                    assert(page_chain(cur) == set![ROOT_PAGE_IDX]);
                    assert(fresh@.to_set() =~= before.union(page_chain(start)).difference(known@));
                }
                break;
            }
            cost = cost + PAGE_CYCLES as u128;
            proof {
                lemma_chain_step(cur);
                lemma_parent_closer(cur);
                lemma_chain_basic(parent_page(cur));
                assert(page_chain(start).contains(parent_page(cur)));
                assert(fresh@.to_set() =~= before.union(
                    page_chain(start).difference(page_chain(parent_page(cur))),
                ).difference(known@));
            }
            cur = ((0x0D00_0000u64 + cur as u64 * 32) / 1024) as u32;
        }
        i += 1;
    }
    proof {
        assert(pages@.take(pages.len() as int) == pages@);
        fresh@.unique_seq_to_set();
        assert(cost <= PAGE_CYCLES * fresh.len());
        assert(PAGE_CYCLES * fresh.len() <= 1094 * 0xffff_ffff_ffff_ffffu128) by (nonlinear_arith)
            requires
                fresh.len() <= 0xffff_ffff_ffff_ffffu128,
                PAGE_CYCLES == 1094,
        ;
    }
    (cost, fresh)
}

/// Prover cycles of a session, and the pages that its current segment holds.
pub struct SessionCycleCount {
    pub num_segment: usize,
    pub cur_segment_cycle: usize,
    pub cur_segment_resident: HashSet<u32>,
    pub cur_segment_dirty: HashSet<u32>,
    pub cur_step_read: Vec<u32>,
    pub cur_step_write: Vec<u32>,
}

impl SessionCycleCount {
    pub open spec fn wf(&self) -> bool {
        &&& CONST_CYCLE + self.cur_segment_cycle <= SEGMENT_LIMIT
        &&& self.num_segment + 1 <= usize::MAX / SEGMENT_LIMIT
        &&& upward_closed(self.cur_segment_resident@)
        &&& upward_closed(self.cur_segment_dirty@)
        &&& self.cur_step_read@.no_duplicates()
        &&& self.cur_step_write@.no_duplicates()
    }

    /// Total cycles of the session so far.
    pub open spec fn session_cycle(&self) -> int {
        self.num_segment * SEGMENT_LIMIT + CONST_CYCLE + self.cur_segment_cycle
    }

    /// Cycles of the current step against the given resident and dirty pages.
    pub open spec fn step_cycles(
        &self,
        opcode_cycle: int,
        extra_cycle: int,
        resident: Set<u32>,
        dirty: Set<u32>,
    ) -> int {
        opcode_cycle + extra_cycle + paging_cycles(
            pages_closure(self.cur_step_read@).difference(resident),
        ) + paging_cycles(pages_closure(self.cur_step_write@).difference(dirty))
    }

    /// `new` is this counter after the current step, of the given base and extra cost, was
    /// booked: into the current segment where it fits, else into a fresh segment; the step's
    /// pages are cleared.
    pub open spec fn booked(&self, new: &SessionCycleCount, opcode_cycle: int, extra_cycle: int) -> bool {
        &&& new.cur_step_read@.len() == 0
        &&& new.cur_step_write@.len() == 0
        &&& new.session_cycle() >= self.session_cycle()
        &&& opcode_cycle >= 1 ==> new.session_cycle() > self.session_cycle()
        &&& if self.step_fits(opcode_cycle, extra_cycle) {
            &&& new.num_segment == self.num_segment
            &&& new.cur_segment_cycle == self.cur_segment_cycle + self.step_cycles(
                opcode_cycle,
                extra_cycle,
                self.cur_segment_resident@,
                self.cur_segment_dirty@,
            )
            &&& new.cur_segment_resident@ == self.cur_segment_resident@.union(
                pages_closure(self.cur_step_read@),
            )
            &&& new.cur_segment_dirty@ == self.cur_segment_dirty@.union(
                pages_closure(self.cur_step_write@),
            )
        } else {
            &&& new.num_segment == self.num_segment + 1
            &&& new.cur_segment_cycle == self.step_cycles(
                opcode_cycle,
                extra_cycle,
                Set::empty(),
                Set::empty(),
            )
            &&& new.cur_segment_resident@ == pages_closure(self.cur_step_read@)
            &&& new.cur_segment_dirty@ == pages_closure(self.cur_step_write@)
        }
    }

    /// Whether the booking of the current step succeeds: it fits now, or in a fresh segment
    /// that the count can still number.
    pub open spec fn accepts(&self, opcode_cycle: int, extra_cycle: int) -> bool {
        self.step_fits(opcode_cycle, extra_cycle) || (self.step_fits_fresh(opcode_cycle, extra_cycle)
            && self.num_segment + 2 <= usize::MAX / SEGMENT_LIMIT)
    }

    /// Whether the current step fits in what is left of the current segment.
    pub open spec fn step_fits(&self, opcode_cycle: int, extra_cycle: int) -> bool {
        CONST_CYCLE + self.cur_segment_cycle + self.step_cycles(
            opcode_cycle,
            extra_cycle,
            self.cur_segment_resident@,
            self.cur_segment_dirty@,
        ) <= SEGMENT_LIMIT
    }

    /// Whether the current step fits in a fresh segment.
    pub open spec fn step_fits_fresh(&self, opcode_cycle: int, extra_cycle: int) -> bool {
        CONST_CYCLE + self.step_cycles(opcode_cycle, extra_cycle, Set::empty(), Set::empty())
            <= SEGMENT_LIMIT
    }

    /// A counter at the start of a session.
    pub fn new() -> (r: Self)
        ensures
            r.wf(),
            r.num_segment == 0,
            r.cur_segment_cycle == 0,
            r.cur_segment_resident@.is_empty(),
            r.cur_segment_dirty@.is_empty(),
            r.cur_step_read@.len() == 0,
            r.cur_step_write@.len() == 0,
    {
        SessionCycleCount {
            num_segment: 0,
            cur_segment_cycle: 0,
            cur_segment_resident: HashSet::new(),
            cur_segment_dirty: HashSet::new(),
            cur_step_read: Vec::new(),
            cur_step_write: Vec::new(),
        }
    }

    /// The session's cycles: whole segments, then the overhead and cycles of the current one.
    pub fn get_session_cycle(&self) -> (r: usize)
        requires
            self.wf(),
        ensures
            r == self.session_cycle(),
    {
        proof {
            assert(self.num_segment * SEGMENT_LIMIT + SEGMENT_LIMIT <= usize::MAX) by (nonlinear_arith)
                requires
                    self.num_segment + 1 <= usize::MAX / SEGMENT_LIMIT,
                    SEGMENT_LIMIT == 1048576,
            ;
        }
        self.num_segment * SEGMENT_LIMIT + CONST_CYCLE + self.cur_segment_cycle
    }

    /// Records a read of page `page_idx` by the current step.
    pub fn callback_read_mem(&mut self, page_idx: u32)
        ensures
            old(self).wf() ==> final(self).wf(),
            final(self).cur_step_read@ == if old(self).cur_step_read@.contains(page_idx) {
                old(self).cur_step_read@
            } else {
                old(self).cur_step_read@.push(page_idx)
            },
            final(self).cur_step_write == old(self).cur_step_write,
            final(self).num_segment == old(self).num_segment,
            final(self).cur_segment_cycle == old(self).cur_segment_cycle,
            final(self).cur_segment_resident@ == old(self).cur_segment_resident@,
            final(self).cur_segment_dirty@ == old(self).cur_segment_dirty@,
    {
        if !vec_has(&self.cur_step_read, page_idx) {
            self.cur_step_read.push(page_idx);
        }
    }

    /// Records a write of page `page_idx` by the current step.
    pub fn callback_write_mem(&mut self, page_idx: u32)
        ensures
            old(self).wf() ==> final(self).wf(),
            final(self).cur_step_write@ == if old(self).cur_step_write@.contains(page_idx) {
                old(self).cur_step_write@
            } else {
                old(self).cur_step_write@.push(page_idx)
            },
            final(self).cur_step_read == old(self).cur_step_read,
            final(self).num_segment == old(self).num_segment,
            final(self).cur_segment_cycle == old(self).cur_segment_cycle,
            final(self).cur_segment_resident@ == old(self).cur_segment_resident@,
            final(self).cur_segment_dirty@ == old(self).cur_segment_dirty@,
    {
        if !vec_has(&self.cur_step_write, page_idx) {
            self.cur_step_write.push(page_idx);
        }
    }
}

impl SessionCycleCount {
    /// Books `new_step_cycle` into the current segment where it fits; else closes the segment
    /// and opens an empty one, and returns `true` so that the step is priced again against it.
    fn update_cur_segment_total_cycle(&mut self, new_step_cycle: usize) -> (r: bool)
        requires
            old(self).wf(),
            CONST_CYCLE + old(self).cur_segment_cycle + new_step_cycle > SEGMENT_LIMIT ==> old(
                self,
            ).num_segment + 2 <= usize::MAX / SEGMENT_LIMIT,
        ensures
            final(self).wf(),
            r == (CONST_CYCLE + old(self).cur_segment_cycle + new_step_cycle > SEGMENT_LIMIT),
            r ==> {
                &&& final(self).num_segment == old(self).num_segment + 1
                &&& final(self).cur_segment_cycle == 0
                &&& final(self).cur_segment_resident@.is_empty()
                &&& final(self).cur_segment_dirty@.is_empty()
            },
            !r ==> {
                &&& final(self).num_segment == old(self).num_segment
                &&& final(self).cur_segment_cycle == old(self).cur_segment_cycle + new_step_cycle
                &&& final(self).cur_segment_resident@ == old(self).cur_segment_resident@
                &&& final(self).cur_segment_dirty@ == old(self).cur_segment_dirty@
            },
            final(self).cur_step_read == old(self).cur_step_read,
            final(self).cur_step_write == old(self).cur_step_write,
    {
        if new_step_cycle > SEGMENT_LIMIT - CONST_CYCLE - self.cur_segment_cycle {
            self.num_segment = self.num_segment + 1;
            self.cur_segment_cycle = 0;
            self.cur_segment_resident.clear();
            self.cur_segment_dirty.clear();
            proof {
                assert(self.cur_segment_resident@ =~= Set::<u32>::empty());
                assert(self.cur_segment_dirty@ =~= Set::<u32>::empty());
            }
            true
        } else {
            self.cur_segment_cycle = self.cur_segment_cycle + new_step_cycle;
            false
        }
    }
}

impl SessionCycleCount {
    /// Prices the step that just ran and books it: into the current segment where it fits,
    /// else into a new segment, whose resident and dirty pages it starts afresh.
    /// A step that no segment can hold, or a count past `usize`, is an error and books nothing.
    pub fn callback_step(&mut self, opcode_cycle: usize, extra_cycle: usize) -> (r: Result<
        (),
        VmError,
    >)
        requires
            old(self).wf(),
        ensures
            final(self).wf(),
            match r {
                Ok(()) => old(self).booked(final(self), opcode_cycle as int, extra_cycle as int),
                Err(e) => {
                    &&& *final(self) == *old(self)
                    &&& !old(self).step_fits(opcode_cycle as int, extra_cycle as int)
                    &&& e == if !old(self).step_fits_fresh(opcode_cycle as int, extra_cycle as int) {
                        VmError::SegmentOverflow
                    } else {
                        VmError::CycleCountOverflow
                    }
                    &&& e == VmError::CycleCountOverflow ==> old(self).num_segment + 2 > usize::MAX
                        / SEGMENT_LIMIT
                },
            },
            r.is_ok() <==> (old(self).step_fits(opcode_cycle as int, extra_cycle as int) || (old(
                self,
            ).step_fits_fresh(opcode_cycle as int, extra_cycle as int) && old(self).num_segment + 2
                <= usize::MAX / SEGMENT_LIMIT)),
    {
        let (read_cost, new_read) = page_in(&self.cur_step_read, &self.cur_segment_resident);
        let (write_cost, new_write) = page_in(&self.cur_step_write, &self.cur_segment_dirty);
        let total: u128 = opcode_cycle as u128 + extra_cycle as u128 + read_cost + write_cost;
        proof {
            lemma_closure_basic(self.cur_step_read@);
            lemma_closure_basic(self.cur_step_write@);
            lemma_paging_cycles_nonneg(new_read@.to_set());
            lemma_paging_cycles_nonneg(new_write@.to_set());
        }
        if (CONST_CYCLE + self.cur_segment_cycle) as u128 + total <= SEGMENT_LIMIT as u128 {
            let redo = self.update_cur_segment_total_cycle(total as usize);
            assert(!redo);
            insert_all(&mut self.cur_segment_resident, &new_read);
            insert_all(&mut self.cur_segment_dirty, &new_write);
            proof {
                assert(self.cur_segment_resident@ =~= old(self).cur_segment_resident@.union(
                    pages_closure(old(self).cur_step_read@),
                ));
                assert(self.cur_segment_dirty@ =~= old(self).cur_segment_dirty@.union(
                    pages_closure(old(self).cur_step_write@),
                ));
                lemma_union_closed(
                    old(self).cur_segment_resident@,
                    pages_closure(old(self).cur_step_read@),
                );
                lemma_union_closed(
                    old(self).cur_segment_dirty@,
                    pages_closure(old(self).cur_step_write@),
                );
            }
        } else {
            let empty: HashSet<u32> = HashSet::new();
            let (fresh_read_cost, fresh_read) = page_in(&self.cur_step_read, &empty);
            let (fresh_write_cost, fresh_write) = page_in(&self.cur_step_write, &empty);
            let fresh_total: u128 = opcode_cycle as u128 + extra_cycle as u128 + fresh_read_cost
                + fresh_write_cost;
            proof {
                assert(empty@ == Set::<u32>::empty());
                lemma_paging_cycles_nonneg(fresh_read@.to_set());
                lemma_paging_cycles_nonneg(fresh_write@.to_set());
            }
            if CONST_CYCLE as u128 + fresh_total > SEGMENT_LIMIT as u128 {
                return Err(VmError::SegmentOverflow);
            }
            if self.num_segment + 1 >= usize::MAX / SEGMENT_LIMIT {
                return Err(VmError::CycleCountOverflow);
            }
            let first = if total > SEGMENT_LIMIT as u128 {
                SEGMENT_LIMIT
            } else {
                total as usize
            };
            let redo = self.update_cur_segment_total_cycle(first);
            assert(redo);
            let redo = self.update_cur_segment_total_cycle(fresh_total as usize);
            assert(!redo);
            insert_all(&mut self.cur_segment_resident, &fresh_read);
            insert_all(&mut self.cur_segment_dirty, &fresh_write);
            proof {
                assert(self.cur_segment_resident@ =~= pages_closure(old(self).cur_step_read@));
                assert(self.cur_segment_dirty@ =~= pages_closure(old(self).cur_step_write@));
                let n0 = old(self).num_segment as int;
                let n1 = self.num_segment as int;
                assert(n1 * SEGMENT_LIMIT == n0 * SEGMENT_LIMIT + SEGMENT_LIMIT) by (nonlinear_arith)
                    requires
                        n1 == n0 + 1,
                ;
            }
        }
        self.cur_step_read = Vec::new();
        self.cur_step_write = Vec::new();
        proof {
            assert(self.cur_step_read@.no_duplicates());
            assert(self.cur_step_write@.no_duplicates());
        }
        Ok(())
    }
}

/// The base cost of instruction `insn`, or `None` where the word is no priced RV32IM instruction.
/// Multiplies, divides and shifts (OP and OP-IMM) cost 2; simple ALU operations and every other
/// opcode cost 1.
pub open spec fn opcode_cycle(insn: u32) -> Option<nat> {
    let opcode = insn & 0x7f;
    let funct3 = (insn & 0x7000) >> 12;
    let funct7 = (insn & 0xfe00_0000) >> 25;
    if opcode == 0b0000011 || opcode == 0b0010111 || opcode == 0b0100011 || opcode == 0b0110111
        || opcode == 0b1100011 || opcode == 0b1100111 || opcode == 0b1101111 || opcode
        == 0b1110011 {
        Some(1)
    } else if opcode == 0b0010011 {
        if funct3 == 1 || funct3 == 5 {
            Some(2)
        } else {
            Some(1)
        }
    } else if opcode == 0b0110011 {
        if funct7 == 0x01 {
            Some(2)
        } else if funct7 == 0x00 {
            if funct3 == 1 || funct3 == 5 {
                Some(2)
            } else {
                Some(1)
            }
        } else if funct7 == 0x20 && funct3 == 0 {
            Some(1)
        } else if funct7 == 0x20 && funct3 == 5 {
            Some(2)
        } else {
            None
        }
    } else {
        None
    }
}

/// The base cost of instruction `insn` in prover cycles.
pub fn get_opcode_cycle(insn: u32) -> (r: Result<usize, VmError>)
    ensures
        match opcode_cycle(insn) {
            Some(c) => r == Ok::<usize, VmError>(c as usize),
            None => r == Err::<usize, VmError>(VmError::IllegalInstruction(insn)),
        },
        r.is_ok() ==> 1 <= r.unwrap() <= 2,
{
    let opcode = insn & 0x7f;
    let funct3 = (insn & 0x7000) >> 12;
    let funct7 = (insn & 0xfe00_0000) >> 25;
    proof {
        assert(funct3 <= 7) by (bit_vector)
            requires
                funct3 == (insn & 0x7000) >> 12,
        ;
    }
    match opcode {
        0b0000011 | 0b0010111 | 0b0100011 | 0b0110111 | 0b1100011 | 0b1100111 | 0b1101111
        | 0b1110011 => Ok(1),
        0b0010011 => match funct3 {
            0x1 | 0x5 => Ok(2),
            _ => Ok(1),
        },
        0b0110011 => match (funct3, funct7) {
            (0x1, 0x00) | (0x5, 0x00) | (0x5, 0x20) => Ok(2),
            (0x0, 0x00) | (0x2, 0x00) | (0x3, 0x00) | (0x4, 0x00) | (0x6, 0x00) | (0x7, 0x00)
            | (0x0, 0x20) => Ok(1),
            (_, 0x01) => Ok(2),
            _ => Err(VmError::IllegalInstruction(insn)),
        },
        _ => Err(VmError::IllegalInstruction(insn)),
    }
}

/// Counters that agree on what they hold book a step alike.
pub proof fn lemma_booked_views(a: SessionCycleCount, b: SessionCycleCount, new: SessionCycleCount, opc: int, extra: int)
    requires
        a.cur_step_read@ == b.cur_step_read@,
        a.cur_step_write@ == b.cur_step_write@,
        a.cur_segment_resident@ == b.cur_segment_resident@,
        a.cur_segment_dirty@ == b.cur_segment_dirty@,
        a.num_segment == b.num_segment,
        a.cur_segment_cycle == b.cur_segment_cycle,
    ensures
        a.booked(&new, opc, extra) == b.booked(&new, opc, extra),
        a.accepts(opc, extra) == b.accepts(opc, extra),
{
}

} // verus!
