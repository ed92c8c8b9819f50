//! Virtual memory mapper: a four-level radix-tree page table. The root table
//! is caller-owned; intermediate tables live in pages obtained from the
//! physical allocator.

use vstd::prelude::*;

use crate::err::MemError;
use crate::page::{
    PageAllocator, PAGE_SIZE, count_taken, first_fit, run_free, walk_end,
    lemma_count_taken_drop, lemma_count_taken_mono, lemma_count_taken_single,
    lemma_first_fit_fits, lemma_walk_end_ge,
};
use crate::pte::{
    pte_branch, pte_flags, pte_leaf, pte_ppn, pte_valid,
    pte_clear, pte_flags_of, pte_is_leaf, pte_is_valid, pte_ppn_of, pte_ptr, pte_set_ptr, pte_with_flags,
    pte_with_ppn, PTE_RWX, PTE_RWXUG, PTE_VALID, PPN_VALUE_MASK,
};

verus! {

/// A 64-bit virtual address: a 12-bit page offset followed by four 9-bit
/// level indices.
#[derive(Clone, Copy, Debug, PartialEq, Eq, Structural)]
pub struct VirtualAddress {
    pub bits: u64,
}

/// The 9-bit level index `l` of a virtual address.
pub open spec fn spec_vpn(bits: u64, l: int) -> usize {
    ((bits >> (12 + 9 * l) as u64) & 0x1ff) as usize
}

impl VirtualAddress {
    pub fn new(bits: u64) -> (r: VirtualAddress)
        ensures
            r.bits == bits,
    {
        VirtualAddress { bits }
    }

    /// The four level indices, innermost first: `r[3]` selects the root-table
    /// slot, `r[0]` the final leaf slot.
    pub fn vpn(&self) -> (r: [usize; 4])
        ensures
            forall|l: int| 0 <= l < 4 ==> r[l] == spec_vpn(self.bits, l),
            forall|l: int| 0 <= l < 4 ==> r[l] < 512,
    {
        let b = self.bits;
        proof {
            assert((b >> 12) & 0x1ff < 512 && (b >> 21) & 0x1ff < 512 && (b >> 30) & 0x1ff < 512
                && (b >> 39) & 0x1ff < 512) by (bit_vector);
        }
        [
            ((b >> 12) & 0x1ff) as usize,
            ((b >> 21) & 0x1ff) as usize,
            ((b >> 30) & 0x1ff) as usize,
            ((b >> 39) & 0x1ff) as usize,
        ]
    }
}

/// A 64-bit physical address: a 12-bit page offset followed by a 44-bit
/// page number.
#[derive(Clone, Copy, Debug, PartialEq, Eq, Structural)]
pub struct PhysicalAddress {
    pub bits: u64,
}

/// The 44-bit page number of a physical address.
pub open spec fn spec_pa_ppn(bits: u64) -> u64 {
    (bits >> 12) & crate::pte::PPN_VALUE_MASK
}

impl PhysicalAddress {
    pub fn new(bits: u64) -> (r: PhysicalAddress)
        ensures
            r.bits == bits,
    {
        PhysicalAddress { bits }
    }

    /// The physical page number: the address without its in-page offset.
    pub fn ppn(&self) -> (r: u64)
        ensures
            r == spec_pa_ppn(self.bits),
    {
        (self.bits >> 12) & crate::pte::PPN_VALUE_MASK
    }
}

/// One page's worth of page table entries. The root table of an address
/// space is caller-owned and of this type; intermediate tables live inside
/// allocator pages.
pub struct Table {
    entries: Vec<u64>,
}

impl View for Table {
    type V = Seq<u64>;

    closed spec fn view(&self) -> Seq<u64> {
        self.entries@
    }
}

impl Table {
    /// A table always holds exactly 512 entries.
    pub open spec fn wf(self) -> bool {
        self@.len() == 512
    }

    /// A fresh, zero-filled table.
    pub fn new() -> (r: Table)
        ensures
            r.wf(),
            forall|i: int| 0 <= i < 512 ==> r@[i] == 0,
    {
        let mut entries: Vec<u64> = Vec::new();
        let mut i: usize = 0;
        while i < 512
            invariant
                i <= 512,
                entries@.len() == i,
                forall|j: int| 0 <= j < i ==> entries@[j] == 0,
            decreases 512 - i,
        {
            entries.push(0u64);
            i = i + 1;
        }
        Table { entries }
    }

    /// Read entry `i`.
    pub fn get(&self, i: usize) -> (r: u64)
        requires
            self.wf(),
            i < 512,
        ensures
            r == self@[i as int],
    {
        self.entries[i]
    }

    /// Overwrite entry `i`.
    pub fn set(&mut self, i: usize, v: u64)
        requires
            old(self).wf(),
            i < 512,
        ensures
            final(self).wf(),
            final(self)@ == old(self)@.update(i as int, v),
    {
        self.entries[i] = v;
    }
}

/// Entry `i` of the table stored in allocator page `t`.
pub open spec fn entry_at(pa: PageAllocator, t: int, i: int) -> u64 {
    pa.mem()[t * 512 + i]
}

/// The allocator page index a branch entry points at.
pub open spec fn child_index(pa: PageAllocator, e: u64) -> int {
    ((pte_ppn(e) << 12) - pa.alloc_start()) / 4096
}

/// The branch target is a usable table page: at or above the allocatable
/// area, exactly on a page boundary of it, in range, and currently allocated.
pub open spec fn child_ok(pa: PageAllocator, e: u64) -> bool {
    let addr = (pte_ppn(e) << 12) as int;
    &&& pa.alloc_start() <= addr
    &&& addr == pa.page_addr(child_index(pa, e))
    &&& child_index(pa, e) < pa.num_pages()
    &&& pa.descs()[child_index(pa, e)].taken
}

/// Well-formedness of a level-1 table page `t1` under a level-2 ancestor `t2`:
/// every branch entry points at a usable page distinct from both.
pub open spec fn l1_wf(pa: PageAllocator, t1: int, t2: int) -> bool {
    forall|i: int| 0 <= i < 512 && pte_branch(#[trigger] entry_at(pa, t1, i)) ==> {
        &&& child_ok(pa, entry_at(pa, t1, i))
        &&& child_index(pa, entry_at(pa, t1, i)) != t1
        &&& child_index(pa, entry_at(pa, t1, i)) != t2
    }
}

/// Well-formedness of a level-2 table page `t2`: every branch entry points at
/// a usable page distinct from `t2` whose own table is well formed.
pub open spec fn l2_wf(pa: PageAllocator, t2: int) -> bool {
    forall|i: int| 0 <= i < 512 && pte_branch(#[trigger] entry_at(pa, t2, i)) ==> {
        &&& child_ok(pa, entry_at(pa, t2, i))
        &&& child_index(pa, entry_at(pa, t2, i)) != t2
        &&& l1_wf(pa, child_index(pa, entry_at(pa, t2, i)), t2)
    }
}

/// Well-formedness of a page table: every branch entry of the root points at
/// a usable, well-formed level-2 table page.
pub open spec fn pt_wf(root: Seq<u64>, pa: PageAllocator) -> bool {
    &&& root.len() == 512
    &&& forall|i: int| 0 <= i < 512 && pte_branch(#[trigger] root[i]) ==> {
        &&& child_ok(pa, root[i])
        &&& l2_wf(pa, child_index(pa, root[i]))
    }
}

/// A zero-filled root table holds no branches, so it is trivially well
/// formed over any allocator state: a fresh table may be handed to `map`.
pub proof fn lemma_empty_pt_wf(root: Seq<u64>, pa: PageAllocator)
    requires
        root.len() == 512,
        forall|i: int| 0 <= i < 512 ==> root[i] == 0,
    ensures
        pt_wf(root, pa),
{
    assert(!(0u64 & 0x01 == 0x01)) by (bit_vector);
}

/// The translation a page table currently holds for `va`: the page number and
/// flags of the leaf entry reached by walking branches from the root, if the
/// walk reaches a valid entry at the last level.
pub open spec fn spec_lookup(root: Seq<u64>, pa: PageAllocator, va: u64) -> Option<(u64, u8)> {
    let e3 = root[spec_vpn(va, 3) as int];
    if !(pte_branch(e3) && child_ok(pa, e3)) {
        None
    } else {
        let e2 = entry_at(pa, child_index(pa, e3), spec_vpn(va, 2) as int);
        if !(pte_branch(e2) && child_ok(pa, e2)) {
            None
        } else {
            let e1 = entry_at(pa, child_index(pa, e2), spec_vpn(va, 1) as int);
            if !(pte_branch(e1) && child_ok(pa, e1)) {
                None
            } else {
                let e0 = entry_at(pa, child_index(pa, e1), spec_vpn(va, 0) as int);
                if pte_valid(e0) {
                    Some((pte_ppn(e0), pte_flags(e0)))
                } else {
                    None
                }
            }
        }
    }
}

/// How many levels of the walk for `va` do not exist yet: the number of
/// intermediate table pages a mapping request would have to allocate.
pub open spec fn levels_missing(root: Seq<u64>, pa: PageAllocator, va: u64) -> int {
    let e3 = root[spec_vpn(va, 3) as int];
    if !pte_valid(e3) {
        3
    } else {
        let e2 = entry_at(pa, child_index(pa, e3), spec_vpn(va, 2) as int);
        if !pte_valid(e2) {
            2
        } else {
            let e1 = entry_at(pa, child_index(pa, e2), spec_vpn(va, 1) as int);
            if !pte_valid(e1) {
                1
            } else {
                0
            }
        }
    }
}

/// The level-2 table page `va`'s existing path runs through, if the root
/// entry for `va` is valid.
pub open spec fn path_l2(root: Seq<u64>, pa: PageAllocator, va: u64) -> Option<int> {
    let e3 = root[spec_vpn(va, 3) as int];
    if pte_valid(e3) {
        Some(child_index(pa, e3))
    } else {
        None
    }
}

/// The level-1 table page `va`'s existing path runs through.
pub open spec fn path_l1(root: Seq<u64>, pa: PageAllocator, va: u64) -> Option<int> {
    match path_l2(root, pa, va) {
        Some(t2) => {
            let e2 = entry_at(pa, t2, spec_vpn(va, 2) as int);
            if pte_valid(e2) {
                Some(child_index(pa, e2))
            } else {
                None
            }
        },
        None => None,
    }
}

/// The level-0 table page `va`'s existing path runs through.
pub open spec fn path_l0(root: Seq<u64>, pa: PageAllocator, va: u64) -> Option<int> {
    match path_l1(root, pa, va) {
        Some(t1) => {
            let e1 = entry_at(pa, t1, spec_vpn(va, 1) as int);
            if pte_valid(e1) {
                Some(child_index(pa, e1))
            } else {
                None
            }
        },
        None => None,
    }
}

/// Whether `(p, j)` is one of the table slots `va`'s existing path runs
/// through: the only slots of live pages that mapping `va` may write.
pub open spec fn on_path(root: Seq<u64>, pa: PageAllocator, va: u64, p: int, j: int) -> bool {
    ||| path_l2(root, pa, va) == Some(p) && j == spec_vpn(va, 2) as int
    ||| path_l1(root, pa, va) == Some(p) && j == spec_vpn(va, 1) as int
    ||| path_l0(root, pa, va) == Some(p) && j == spec_vpn(va, 0) as int
}

/// The number of branch entries of a root table at or after slot `i`.
pub open spec fn count_branches(root: Seq<u64>, i: int) -> int
    decreases 512 - i,
{
    if i < 0 || i >= 512 {
        0
    } else {
        (if pte_branch(root[i]) {
            1int
        } else {
            0int
        }) + count_branches(root, i + 1)
    }
}

/// Whether the walk for `va` runs into a leaf entry before the final level:
/// mapping through such a path would shadow an existing mapping.
pub open spec fn path_conflict(root: Seq<u64>, pa: PageAllocator, va: u64) -> bool {
    let e3 = root[spec_vpn(va, 3) as int];
    if !pte_valid(e3) {
        false
    } else if pte_leaf(e3) {
        true
    } else {
        let e2 = entry_at(pa, child_index(pa, e3), spec_vpn(va, 2) as int);
        if !pte_valid(e2) {
            false
        } else if pte_leaf(e2) {
            true
        } else {
            let e1 = entry_at(pa, child_index(pa, e2), spec_vpn(va, 1) as int);
            pte_valid(e1) && pte_leaf(e1)
        }
    }
}

/// The flags a mapping request must carry: at least one of read, write,
/// execute, and nothing outside read/write/execute/user/global.
pub open spec fn map_flags_ok(f: u8) -> bool {
    f & PTE_RWX != 0 && f & !PTE_RWXUG == 0
}

proof fn lemma_mul_div_4096(t: int)
    ensures
        (4096 * t) / 4096 == t,
{
    assert((4096 * t) / 4096 == t) by (nonlinear_arith);
}

proof fn lemma_word_disjoint(a: int, i: int, b: int, j: int)
    requires
        a != b,
        0 <= i < 512,
        0 <= j < 512,
    ensures
        a * 512 + i != b * 512 + j,
{
    assert(a * 512 + i != b * 512 + j) by (nonlinear_arith)
        requires a != b && 0 <= i < 512 && 0 <= j < 512;
}

proof fn lemma_out_of_page(a: int, i: int, s: int)
    requires
        a != s,
        0 <= i < 512,
    ensures
        !(s * 512 <= a * 512 + i < (s + 1) * 512),
{
    assert(!(s * 512 <= a * 512 + i < (s + 1) * 512)) by (nonlinear_arith)
        requires a != s && 0 <= i < 512;
}

/// Decode a branch target: the allocator page index it refers to, or none if
/// it lies outside the allocatable area or on a free page.
fn child_of(pa: &PageAllocator, e: u64) -> (r: Option<usize>)
    requires
        pa.wf(),
    ensures
        r is Some <==> child_ok(*pa, e),
        r is Some ==> r->Some_0 == child_index(*pa, e),
{
    let addr = pte_ptr(e);
    let start64 = pa.start_address() as u64;
    if addr < start64 {
        return None;
    }
    let off = addr - start64;
    proof {
        assert(addr % 4096 == 0) by (bit_vector)
            requires addr & 0xfff == 0;
        assert(off % 4096 == 0 && off / 4096 == (addr - start64) as int / 4096) by (nonlinear_arith)
            requires
                off == addr - start64,
                addr % 4096 == 0,
                start64 % 4096 == 0;
    }
    let t64 = off / (PAGE_SIZE as u64);
    if t64 >= pa.page_count() as u64 {
        proof {
            assert(child_index(*pa, e) == t64);
        }
        return None;
    }
    let t = t64 as usize;
    proof {
        assert(child_index(*pa, e) == t64);
        assert(addr == pa.alloc_start() + 4096 * (t64 as int)) by (nonlinear_arith)
            requires
                t64 == off / 4096,
                off % 4096 == 0,
                off == addr - start64,
                start64 == pa.alloc_start();
    }
    if !pa.page_taken(t) {
        return None;
    }
    Some(t)
}

/// Translate `va` through the table rooted at `root`, with intermediate
/// tables read from the allocator's pages: the mapped page number and flags,
/// or none if the walk does not reach a valid final-level entry.
pub fn lookup(root: &Table, pa: &PageAllocator, va: VirtualAddress) -> (r: Option<(u64, u8)>)
    requires
        root.wf(),
        pa.wf(),
    ensures
        r == spec_lookup(root@, *pa, va.bits),
{
    let vpn = va.vpn();
    let e3 = root.get(vpn[3]);
    if !(pte_is_valid(e3) && !pte_is_leaf(e3)) {
        return None;
    }
    let t2 = match child_of(pa, e3) {
        Some(t) => t,
        None => {
            return None;
        },
    };
    let e2 = pa.read_page_word(t2, vpn[2]);
    if !(pte_is_valid(e2) && !pte_is_leaf(e2)) {
        return None;
    }
    let t1 = match child_of(pa, e2) {
        Some(t) => t,
        None => {
            return None;
        },
    };
    let e1 = pa.read_page_word(t1, vpn[1]);
    if !(pte_is_valid(e1) && !pte_is_leaf(e1)) {
        return None;
    }
    let t0 = match child_of(pa, e1) {
        Some(t) => t,
        None => {
            return None;
        },
    };
    let e0 = pa.read_page_word(t0, vpn[0]);
    if pte_is_valid(e0) {
        Some((pte_ppn_of(e0), pte_flags_of(e0)))
    } else {
        None
    }
}

/// Obtain one fresh zero-filled table page from the allocator.
fn fresh_table(pa: &mut PageAllocator) -> (r: Result<(usize, u64), MemError>)
    requires
        old(pa).wf(),
    ensures
        final(pa).wf(),
        final(pa).heap_start() == old(pa).heap_start(),
        final(pa).heap_size() == old(pa).heap_size(),
        final(pa).alloc_start() == old(pa).alloc_start(),
        final(pa).mem().len() == old(pa).mem().len(),
        match r {
            Ok((t, addr)) => {
                &&& t < old(pa).num_pages()
                &&& !old(pa).descs()[t as int].taken
                &&& final(pa).descs().len() == old(pa).descs().len()
                &&& final(pa).descs()[t as int].taken
                &&& forall|j: int| 0 <= j < old(pa).descs().len() && j != t
                    ==> final(pa).descs()[j] == old(pa).descs()[j]
                &&& addr == old(pa).page_addr(t as int)
                &&& addr & 0xfff == 0
                &&& addr < 0x0100_0000_0000_0000u64
                &&& forall|w: int| t * 512 <= w < (t + 1) * 512 ==> final(pa).mem()[w] == 0
                &&& forall|w: int| 0 <= w < old(pa).mem().len() && !(t * 512 <= w < (t + 1) * 512)
                    ==> final(pa).mem()[w] == old(pa).mem()[w]
                &&& count_taken(final(pa).descs(), 0) == count_taken(old(pa).descs(), 0) + 1
            },
            Err(e) => *final(pa) == *old(pa) && e == MemError::OutOfMemory
                && first_fit(old(pa).descs(), 1) is None,
        },
{
    let ghost pa0 = *pa;
    let addr = match pa.zalloc(1) {
        Ok(a) => a,
        Err(e) => {
            return Err(e);
        },
    };
    proof {
        let s = first_fit(pa0.descs(), 1)->Some_0;
        lemma_first_fit_fits(pa0.descs(), 1, 0);
        assert(run_free(pa0.descs(), s, 1) && !pa0.descs()[s].taken);
        assert(addr % 4096 == 0 && 0 <= 4096 * s
            && 4096 * s + 4096 <= 4096 * pa0.num_pages()) by (nonlinear_arith)
            requires
                addr == pa0.alloc_start() + 4096 * s,
                pa0.alloc_start() % 4096 == 0,
                0 <= s < pa0.num_pages();
        let a64 = addr as u64;
        assert(a64 & 0xfff == 0) by (bit_vector)
            requires a64 % 4096 == 0;
    }
    let start = pa.start_address();
    let t = (addr - start) / PAGE_SIZE;
    proof {
        let s = first_fit(pa0.descs(), 1)->Some_0;
        lemma_mul_div_4096(s);
        assert(t == s);
        lemma_count_taken_single(pa0.descs(), pa.descs(), s);
    }
    Ok((t, addr as u64))
}

/// Install a mapping from virtual address `va` to physical address `phys`
/// with the given access flags, allocating zero-filled intermediate table
/// pages for each level of the path that does not yet exist. The flags must
/// request at least one of read, write, execute and nothing beyond
/// read/write/execute/user/global; mapping through an existing leaf is a
/// conflict and changes nothing. On success the table translates `va` to
/// `phys`'s page number with the requested flags plus the valid bit.
#[verifier::rlimit(100)]
pub fn map(root: &mut Table, pa: &mut PageAllocator, va: VirtualAddress, phys: PhysicalAddress, flags: u8) -> (r: Result<(), MemError>)
    requires
        old(root).wf(),
        old(pa).wf(),
        pt_wf(old(root)@, *old(pa)),
    ensures
        final(root).wf(),
        final(pa).wf(),
        final(pa).heap_start() == old(pa).heap_start(),
        final(pa).heap_size() == old(pa).heap_size(),
        final(pa).alloc_start() == old(pa).alloc_start(),
        r == Err::<(), MemError>(MemError::InvalidFlags) <==> !map_flags_ok(flags),
        r == Err::<(), MemError>(MemError::MappingConflict)
            <==> map_flags_ok(flags) && path_conflict(old(root)@, *old(pa), va.bits),
        r == Err::<(), MemError>(MemError::InvalidFlags) || r == Err::<(), MemError>(MemError::MappingConflict)
            ==> final(root)@ == old(root)@ && *final(pa) == *old(pa),
        r == Err::<(), MemError>(MemError::OutOfMemory) ==> ({
            &&& map_flags_ok(flags)
            &&& !path_conflict(old(root)@, *old(pa), va.bits)
            &&& levels_missing(old(root)@, *old(pa), va.bits) > 0
            &&& first_fit(final(pa).descs(), 1) is None
            &&& forall|j: int| 0 <= j < 512 && j != spec_vpn(va.bits, 3)
                ==> final(root)@[j] == old(root)@[j]
        }),
        r is Ok ==> spec_lookup(final(root)@, *final(pa), va.bits)
            == Some((spec_pa_ppn(phys.bits), (flags | PTE_VALID) as u8)),
        r is Ok ==> count_taken(final(pa).descs(), 0)
            == count_taken(old(pa).descs(), 0) + levels_missing(old(root)@, *old(pa), va.bits),
        r is Ok ==> ({
            let i3 = spec_vpn(va.bits, 3) as int;
            let i2 = spec_vpn(va.bits, 2) as int;
            let i1 = spec_vpn(va.bits, 1) as int;
            let i0 = spec_vpn(va.bits, 0) as int;
            let paf = *final(pa);
            let pab = *old(pa);
            let rb = old(root)@;
            let t2f = child_index(paf, final(root)@[i3]);
            let t1f = child_index(paf, entry_at(paf, t2f, i2));
            let t0f = child_index(paf, entry_at(paf, t1f, i1));
            // the root: only va's slot can change, only if it was invalid, and
            // a slot written fresh carries exactly the valid bit
            &&& forall|j: int| 0 <= j < 512 && j != i3 ==> final(root)@[j] == rb[j]
            &&& (pte_valid(rb[i3]) ==> final(root)@[i3] == rb[i3])
            &&& (!pte_valid(rb[i3]) ==> pte_flags(final(root)@[i3]) == PTE_VALID)
            // allocated pages stay allocated with unchanged descriptors: in
            // particular no leaf-referenced frame is freed
            &&& forall|p: int| 0 <= p < pab.num_pages() && (#[trigger] pab.descs()[p]).taken
                ==> paf.descs()[p] == pab.descs()[p]
            // words of live pages change only at va's existing path slots
            &&& forall|p: int, j: int| #![trigger entry_at(paf, p, j)]
                0 <= p < pab.num_pages() && 0 <= j < 512 && pab.descs()[p].taken
                && !on_path(rb, pab, va.bits, p, j)
                ==> entry_at(paf, p, j) == entry_at(pab, p, j)
            // branch entries that already existed on the path keep their value
            &&& (path_l1(rb, pab, va.bits) is Some ==> entry_at(paf, t2f, i2) == entry_at(pab, t2f, i2))
            &&& (path_l0(rb, pab, va.bits) is Some ==> entry_at(paf, t1f, i1) == entry_at(pab, t1f, i1))
            // each missing level gained a branch carrying exactly the valid
            // bit, pointing at a newly allocated, previously free table page
            // whose other entries are zero
            &&& (path_l2(rb, pab, va.bits) is None
                ==> !pab.descs()[t2f].taken && paf.descs()[t2f].taken)
            &&& (path_l1(rb, pab, va.bits) is None
                ==> !pab.descs()[t1f].taken && paf.descs()[t1f].taken)
            &&& (path_l0(rb, pab, va.bits) is None
                ==> !pab.descs()[t0f].taken && paf.descs()[t0f].taken)
            &&& (path_l2(rb, pab, va.bits) is None
                ==> forall|j: int| 0 <= j < 512 && j != i2 ==> entry_at(paf, t2f, j) == 0)
            &&& (path_l1(rb, pab, va.bits) is None ==> pte_flags(entry_at(paf, t2f, i2)) == PTE_VALID
                && (forall|j: int| 0 <= j < 512 && j != i1 ==> entry_at(paf, t1f, j) == 0))
            &&& (path_l0(rb, pab, va.bits) is None ==> pte_flags(entry_at(paf, t1f, i1)) == PTE_VALID
                && (forall|j: int| 0 <= j < 512 && j != i0 ==> entry_at(paf, t0f, j) == 0))
        }),
        r is Ok || r == Err::<(), MemError>(MemError::InvalidFlags)
            || r == Err::<(), MemError>(MemError::MappingConflict)
            || r == Err::<(), MemError>(MemError::OutOfMemory),
{
    if flags & PTE_RWX == 0 {
        return Err(MemError::InvalidFlags);
    }
    if flags & !PTE_RWXUG != 0 {
        return Err(MemError::InvalidFlags);
    }
    let vpn = va.vpn();
    let ppn = phys.ppn();
    let ghost root0 = root@;
    let ghost pa0 = *pa;

    // Level 3: the caller-owned root table.
    let e3 = root.get(vpn[3]);
    let t2: usize;
    let ghost fresh3: bool;
    if !pte_is_valid(e3) {
        let (t, taddr) = match fresh_table(pa) {
            Ok(p) => p,
            Err(e) => {
                return Err(e);
            },
        };
        let n3 = pte_set_ptr(pte_with_flags(e3, PTE_VALID), taddr);
        root.set(vpn[3], n3);
        t2 = t;
        proof {
            fresh3 = true;
            assert(PTE_VALID & 0x01 == 0x01 && PTE_VALID & 0x0e == 0) by (bit_vector);
            lemma_mul_div_4096(t2 as int);
        }
    } else {
        if pte_is_leaf(e3) {
            return Err(MemError::MappingConflict);
        }
        let t = match child_of(pa, e3) {
            Some(t) => t,
            None => {
                proof {
                    assert(child_ok(pa0, root0[vpn[3] as int]));
                }
                return Err(MemError::MappingConflict);
            },
        };
        t2 = t;
        proof {
            fresh3 = false;
        }
    }
    let ghost pa3 = *pa;
    let ghost new3 = root@[vpn[3] as int];
    proof {
        assert(pte_branch(new3));
        assert((pte_ppn(new3) << 12) as int == pa3.page_addr(t2 as int));
        assert(t2 < pa3.num_pages() && pa3.descs()[t2 as int].taken);
        assert(child_index(pa3, new3) == t2) by {
            lemma_mul_div_4096(t2 as int);
        }
        if !fresh3 {
            assert(l2_wf(pa0, t2 as int));
        }
        assert(forall|i: int| 0 <= i < 512 && fresh3 ==> entry_at(pa3, t2 as int, i) == 0);
    }

    // Level 2.
    let e2 = pa.read_page_word(t2, vpn[2]);
    let t1: usize;
    let ghost fresh2: bool;
    if !pte_is_valid(e2) {
        let (t, taddr) = match fresh_table(pa) {
            Ok(p) => p,
            Err(e) => {
                return Err(e);
            },
        };
        let n2 = pte_set_ptr(pte_with_flags(e2, PTE_VALID), taddr);
        pa.write_page_word(t2, vpn[2], n2);
        t1 = t;
        proof {
            fresh2 = true;
            assert(PTE_VALID & 0x01 == 0x01 && PTE_VALID & 0x0e == 0) by (bit_vector);
            lemma_out_of_page(t2 as int, vpn[2] as int, t1 as int);
        }
    } else {
        proof {
            if fresh3 {
                let z = entry_at(pa3, t2 as int, vpn[2] as int);
                assert(z == 0);
                assert(!(0u64 & 0x01 == 0x01)) by (bit_vector);
                assert(false);
            }
        }
        if pte_is_leaf(e2) {
            return Err(MemError::MappingConflict);
        }
        let t = match child_of(pa, e2) {
            Some(t) => t,
            None => {
                proof {
                    assert(child_ok(pa0, entry_at(pa0, t2 as int, vpn[2] as int)));
                }
                return Err(MemError::MappingConflict);
            },
        };
        t1 = t;
        proof {
            fresh2 = false;
        }
    }
    let ghost pa2 = *pa;
    let ghost new2 = entry_at(pa2, t2 as int, vpn[2] as int);
    proof {
        assert(pte_branch(new2));
        assert((pte_ppn(new2) << 12) as int == pa2.page_addr(t1 as int));
        assert(t1 != t2 && t1 < pa2.num_pages() && pa2.descs()[t1 as int].taken && pa2.descs()[t2 as int].taken);
        assert(child_index(pa2, new2) == t1) by {
            lemma_mul_div_4096(t1 as int);
        }
        if !fresh2 {
            assert(l1_wf(pa0, t1 as int, t2 as int));
        }
        assert(forall|i: int| 0 <= i < 512 && fresh2 ==> entry_at(pa2, t1 as int, i) == 0);
        // the root is untouched from here on
        assert(root@[vpn[3] as int] == new3);
    }

    // Level 1.
    let e1 = pa.read_page_word(t1, vpn[1]);
    let t0: usize;
    let ghost fresh1: bool;
    if !pte_is_valid(e1) {
        let (t, taddr) = match fresh_table(pa) {
            Ok(p) => p,
            Err(e) => {
                return Err(e);
            },
        };
        let n1 = pte_set_ptr(pte_with_flags(e1, PTE_VALID), taddr);
        pa.write_page_word(t1, vpn[1], n1);
        t0 = t;
        proof {
            fresh1 = true;
            assert(PTE_VALID & 0x01 == 0x01 && PTE_VALID & 0x0e == 0) by (bit_vector);
            lemma_out_of_page(t2 as int, vpn[2] as int, t0 as int);
            lemma_out_of_page(t1 as int, vpn[1] as int, t0 as int);
            lemma_word_disjoint(t1 as int, vpn[1] as int, t2 as int, vpn[2] as int);
        }
    } else {
        proof {
            if fresh2 {
                let z = entry_at(pa2, t1 as int, vpn[1] as int);
                assert(z == 0);
                assert(!(0u64 & 0x01 == 0x01)) by (bit_vector);
                assert(false);
            }
        }
        if pte_is_leaf(e1) {
            proof {
                assert(!fresh3 && !fresh2);
            }
            return Err(MemError::MappingConflict);
        }
        let t = match child_of(pa, e1) {
            Some(t) => t,
            None => {
                proof {
                    assert(child_ok(pa0, entry_at(pa0, t1 as int, vpn[1] as int)));
                }
                return Err(MemError::MappingConflict);
            },
        };
        t0 = t;
        proof {
            fresh1 = false;
        }
    }
    let ghost pa1 = *pa;
    let ghost new1 = entry_at(pa1, t1 as int, vpn[1] as int);
    proof {
        assert(pte_branch(new1));
        assert((pte_ppn(new1) << 12) as int == pa1.page_addr(t0 as int));
        assert(t0 != t1 && t0 != t2 && t0 < pa1.num_pages());
        assert(pa1.descs()[t0 as int].taken && pa1.descs()[t1 as int].taken && pa1.descs()[t2 as int].taken);
        assert(child_index(pa1, new1) == t0) by {
            lemma_mul_div_4096(t0 as int);
        }
        assert(entry_at(pa1, t2 as int, vpn[2] as int) == new2);
        assert(root@[vpn[3] as int] == new3);
    }

    // Level 0: write the leaf entry.
    let e0 = pa.read_page_word(t0, vpn[0]);
    let leaf = pte_with_ppn(pte_with_flags(e0, flags | PTE_VALID), ppn);
    pa.write_page_word(t0, vpn[0], leaf);
    proof {
        let paf = *pa;
        lemma_word_disjoint(t0 as int, vpn[0] as int, t1 as int, vpn[1] as int);
        lemma_word_disjoint(t0 as int, vpn[0] as int, t2 as int, vpn[2] as int);
        assert(entry_at(paf, t0 as int, vpn[0] as int) == leaf);
        assert(entry_at(paf, t1 as int, vpn[1] as int) == new1);
        assert(entry_at(paf, t2 as int, vpn[2] as int) == new2);
        assert(root@[vpn[3] as int] == new3);
        let f = flags;
        assert((f | 0x01) & 0x01 == 0x01) by (bit_vector);
        assert(pte_valid(leaf));
        assert(pte_ppn(leaf) == ppn & PPN_VALUE_MASK);
        let b = phys.bits;
        assert(((b >> 12) & 0x0000_0FFF_FFFF_FFFFu64) & 0x0000_0FFF_FFFF_FFFFu64
            == (b >> 12) & 0x0000_0FFF_FFFF_FFFFu64) by (bit_vector);
        assert(pte_ppn(leaf) == spec_pa_ppn(phys.bits));
        assert(child_index(paf, new3) == t2 && child_index(paf, new2) == t1
            && child_index(paf, new1) == t0) by {
            lemma_mul_div_4096(t2 as int);
            lemma_mul_div_4096(t1 as int);
            lemma_mul_div_4096(t0 as int);
        }
        assert(child_ok(paf, new3) && child_ok(paf, new2) && child_ok(paf, new1));
        assert(spec_lookup(root@, paf, va.bits)
            == Some((spec_pa_ppn(phys.bits), (flags | PTE_VALID) as u8)));
        // allocation accounting: one fresh table page per missing level
        assert(count_taken(pa3.descs(), 0) == count_taken(pa0.descs(), 0) + (
            if fresh3 {
                1int
            } else {
                0int
            }));
        assert(count_taken(pa2.descs(), 0) == count_taken(pa3.descs(), 0) + (
            if fresh2 {
                1int
            } else {
                0int
            }));
        assert(count_taken(pa1.descs(), 0) == count_taken(pa2.descs(), 0) + (
            if fresh1 {
                1int
            } else {
                0int
            }));
        assert(count_taken(paf.descs(), 0) == count_taken(pa1.descs(), 0));
        assert(root0[spec_vpn(va.bits, 3) as int] == e3);
        if fresh3 {
            assert(fresh2 && fresh1);
            assert(levels_missing(root0, pa0, va.bits) == 3);
        } else {
            assert(pa3 == pa0 && new3 == e3);
            assert(entry_at(pa0, child_index(pa0, e3), spec_vpn(va.bits, 2) as int) == e2);
            if fresh2 {
                assert(fresh1);
                assert(levels_missing(root0, pa0, va.bits) == 2);
            } else {
                assert(pa2 == pa0 && new2 == e2);
                assert(entry_at(pa0, child_index(pa0, e2), spec_vpn(va.bits, 1) as int) == e1);
                if fresh1 {
                    assert(levels_missing(root0, pa0, va.bits) == 1);
                } else {
                    assert(levels_missing(root0, pa0, va.bits) == 0);
                }
            }
        }
        // name the pre-existing path levels
        let i2v = vpn[2] as int;
        let i1v = vpn[1] as int;
        let i0v = vpn[0] as int;
        assert(fresh3 <==> path_l2(root0, pa0, va.bits) is None);
        assert(!fresh3 ==> path_l2(root0, pa0, va.bits) == Some(t2 as int));
        assert(fresh2 <==> path_l1(root0, pa0, va.bits) is None);
        assert(!fresh2 ==> path_l1(root0, pa0, va.bits) == Some(t1 as int));
        assert(fresh1 <==> path_l0(root0, pa0, va.bits) is None);
        assert(!fresh1 ==> path_l0(root0, pa0, va.bits) == Some(t0 as int));
        // descriptors of live pages are untouched
        assert forall|p: int| 0 <= p < pa0.num_pages() && (#[trigger] pa0.descs()[p]).taken
            implies paf.descs()[p] == pa0.descs()[p] by {
            if fresh3 {
                assert(p != t2 as int);
            }
            assert(pa3.descs()[p] == pa0.descs()[p] && pa3.descs()[p].taken);
            if fresh2 {
                assert(p != t1 as int);
            }
            assert(pa2.descs()[p] == pa3.descs()[p] && pa2.descs()[p].taken);
            if fresh1 {
                assert(p != t0 as int);
            }
            assert(pa1.descs()[p] == pa2.descs()[p]);
        }
        // words of live pages change only at the path's slots
        assert forall|p: int, j: int| #![trigger entry_at(paf, p, j)]
            0 <= p < pa0.num_pages() && 0 <= j < 512 && pa0.descs()[p].taken
            && !on_path(root0, pa0, va.bits, p, j)
            implies entry_at(paf, p, j) == entry_at(pa0, p, j) by {
            if fresh3 {
                assert(p != t2 as int);
                lemma_out_of_page(p, j, t2 as int);
            }
            assert(pa3.descs()[p].taken);
            if fresh2 {
                assert(p != t1 as int);
                lemma_out_of_page(p, j, t1 as int);
            }
            assert(pa2.descs()[p].taken);
            if fresh1 {
                assert(p != t0 as int);
                lemma_out_of_page(p, j, t0 as int);
            }
            if p == t2 as int && j == i2v {
                assert(!fresh3 && on_path(root0, pa0, va.bits, p, j));
            }
            if p == t1 as int && j == i1v {
                assert(!fresh2 && on_path(root0, pa0, va.bits, p, j));
            }
            if p == t0 as int && j == i0v {
                assert(!fresh1 && on_path(root0, pa0, va.bits, p, j));
            }
            if p != t2 as int {
                lemma_word_disjoint(p, j, t2 as int, i2v);
            }
            if p != t1 as int {
                lemma_word_disjoint(p, j, t1 as int, i1v);
            }
            if p != t0 as int {
                lemma_word_disjoint(p, j, t0 as int, i0v);
            }
        }
        // a fresh table's entries off the path are still zero
        if fresh3 {
            assert forall|j: int| 0 <= j < 512 && j != i2v
                implies entry_at(paf, t2 as int, j) == 0 by {
                assert(entry_at(pa3, t2 as int, j) == 0);
                if fresh2 {
                    lemma_out_of_page(t2 as int, j, t1 as int);
                }
                if fresh1 {
                    lemma_out_of_page(t2 as int, j, t0 as int);
                }
                lemma_word_disjoint(t2 as int, j, t1 as int, i1v);
                lemma_word_disjoint(t2 as int, j, t0 as int, i0v);
            }
        }
        if fresh2 {
            assert forall|j: int| 0 <= j < 512 && j != i1v
                implies entry_at(paf, t1 as int, j) == 0 by {
                assert(entry_at(pa2, t1 as int, j) == 0);
                if fresh1 {
                    lemma_out_of_page(t1 as int, j, t0 as int);
                }
                lemma_word_disjoint(t1 as int, j, t0 as int, i0v);
            }
        }
        if fresh1 {
            assert forall|j: int| 0 <= j < 512 && j != i0v
                implies entry_at(paf, t0 as int, j) == 0 by {
                lemma_word_disjoint(t0 as int, j, t1 as int, i1v);
            }
        }
    }
    Ok(())
}

/// Tear down a page table: free every intermediate table page reachable from
/// the root through branch entries, three levels deep, clearing each branch
/// entry after its subtree is freed. Leaf entries and the frames they map are
/// untouched — no allocated page is ever marked, written, or freed unless the
/// walk reaches it through a branch — and the caller-owned root table itself
/// is never freed, so it remains usable. A branch target outside the
/// allocatable area, or one whose page is not a live allocation, stops the
/// walk with `InvalidFree`.
pub fn unmap(root: &mut Table, pa: &mut PageAllocator) -> (r: Result<(), MemError>)
    requires
        old(root).wf(),
        old(pa).wf(),
    ensures
        final(root).wf(),
        final(pa).wf(),
        final(pa).heap_start() == old(pa).heap_start(),
        final(pa).heap_size() == old(pa).heap_size(),
        final(pa).alloc_start() == old(pa).alloc_start(),
        final(pa).descs().len() == old(pa).descs().len(),
        final(pa).mem().len() == old(pa).mem().len(),
        // descriptors only ever move towards free: nothing is allocated, and a
        // page that stays allocated keeps its descriptor
        forall|p: int| 0 <= p < old(pa).descs().len()
            ==> final(pa).descs()[p] == old(pa).descs()[p]
                || (!(#[trigger] final(pa).descs()[p]).taken && !final(pa).descs()[p].last),
        count_taken(final(pa).descs(), 0) <= count_taken(old(pa).descs(), 0),
        // memory words are never scribbled: each is unchanged or cleared
        forall|w: int| 0 <= w < old(pa).mem().len()
            ==> #[trigger] final(pa).mem()[w] == old(pa).mem()[w] || final(pa).mem()[w] == 0,
        // a root without branches has nothing to tear down
        (forall|k: int| 0 <= k < 512 ==> !pte_branch(#[trigger] old(root)@[k]))
            ==> r is Ok && *final(pa) == *old(pa) && final(root)@ == old(root)@,
        r is Ok ==> forall|j: int| 0 <= j < 512
            ==> final(root)@[j] == (if pte_branch(old(root)@[j]) { 0u64 } else { old(root)@[j] }),
        r is Ok ==> forall|j: int| 0 <= j < 512 ==> !pte_branch(#[trigger] final(root)@[j]),
        r is Ok ==> pt_wf(final(root)@, *final(pa)),
        // every branch entry of the root costs at least its own table page
        r is Ok ==> count_taken(final(pa).descs(), 0) + count_branches(old(root)@, 0)
            <= count_taken(old(pa).descs(), 0),
        r is Err ==> r->Err_0 == MemError::InvalidFree,
{
    let ghost root0 = old(root)@;
    let ghost d0 = old(pa).descs();
    let mut i: usize = 0;
    while i < 512
        invariant
            root.wf(),
            pa.wf(),
            pa.heap_start() == old(pa).heap_start(),
            pa.heap_size() == old(pa).heap_size(),
            pa.alloc_start() == old(pa).alloc_start(),
            pa.descs().len() == d0.len(),
            pa.mem().len() == old(pa).mem().len(),
            root0 == old(root)@,
            d0 == old(pa).descs(),
            i <= 512,
            forall|j: int| 0 <= j < i
                ==> root@[j] == (if pte_branch(root0[j]) { 0u64 } else { root0[j] }),
            forall|j: int| i <= j < 512 ==> root@[j] == root0[j],
            forall|p: int| 0 <= p < d0.len()
                ==> pa.descs()[p] == d0[p]
                    || (!(#[trigger] pa.descs()[p]).taken && !pa.descs()[p].last),
            forall|w: int| 0 <= w < old(pa).mem().len()
                ==> #[trigger] pa.mem()[w] == old(pa).mem()[w] || pa.mem()[w] == 0,
            count_branches(root0, i as int) <= count_branches(root0, 0),
            count_taken(pa.descs(), 0) + count_branches(root0, 0) - count_branches(root0, i as int)
                <= count_taken(d0, 0),
            (forall|k: int| 0 <= k < 512 ==> !pte_branch(#[trigger] root0[k]))
                ==> *pa == *old(pa) && root@ == root0,
        decreases 512 - i,
    {
        let e = root.get(i);
        if pte_is_valid(e) && !pte_is_leaf(e) {
            proof {
                assert(pte_branch(root0[i as int]));
                assert(count_branches(root0, i as int)
                    == 1 + count_branches(root0, i + 1));
            }
            let child = pte_ptr(e);
            let ghost g1 = *pa;
            match free_subtree(pa, child, 2) {
                Ok(()) => {},
                Err(er) => {
                    proof {
                        assert forall|p: int| 0 <= p < d0.len() implies pa.descs()[p] == d0[p]
                            || (!(#[trigger] pa.descs()[p]).taken && !pa.descs()[p].last) by {
                            assert(g1.descs()[p] == d0[p]
                                || (!(g1.descs()[p]).taken && !(g1.descs()[p]).last));
                        }
                        assert forall|w: int| 0 <= w < old(pa).mem().len()
                            implies #[trigger] pa.mem()[w] == old(pa).mem()[w] || pa.mem()[w] == 0 by {
                            assert(g1.mem()[w] == old(pa).mem()[w] || g1.mem()[w] == 0);
                        }
                    }
                    return Err(er);
                },
            }
            if child > usize::MAX as u64 {
                proof {
                    assert forall|p: int| 0 <= p < d0.len() implies pa.descs()[p] == d0[p]
                        || (!(#[trigger] pa.descs()[p]).taken && !pa.descs()[p].last) by {
                        assert(g1.descs()[p] == d0[p]
                            || (!(g1.descs()[p]).taken && !(g1.descs()[p]).last));
                    }
                    assert forall|w: int| 0 <= w < old(pa).mem().len()
                        implies #[trigger] pa.mem()[w] == old(pa).mem()[w] || pa.mem()[w] == 0 by {
                        assert(g1.mem()[w] == old(pa).mem()[w] || g1.mem()[w] == 0);
                    }
                }
                return Err(MemError::InvalidFree);
            }
            let ghost g2 = *pa;
            let freed = pa.free(child as usize);
            proof {
                let d2 = g2.descs();
                let ii = (child as usize - g2.alloc_start()) / 4096;
                let ee = walk_end(d2, ii);
                assert forall|p: int| 0 <= p < d2.len() && (#[trigger] pa.descs()[p]).taken
                    implies d2[p].taken by {}
                lemma_count_taken_mono(d2, pa.descs(), 0);
                if freed is Ok {
                    lemma_walk_end_ge(d2, ii);
                    assert(d2[ee].taken);
                    assert(!pa.descs()[ee].taken);
                    lemma_count_taken_drop(d2, pa.descs(), 0, ee);
                }
                assert forall|p: int| 0 <= p < d0.len() implies pa.descs()[p] == d0[p]
                    || (!(#[trigger] pa.descs()[p]).taken && !pa.descs()[p].last) by {
                    assert(pa.descs()[p] == g2.descs()[p]
                        || (!(pa.descs()[p]).taken && !(pa.descs()[p]).last));
                    assert(g2.descs()[p] == g1.descs()[p]
                        || (!(g2.descs()[p]).taken && !(g2.descs()[p]).last));
                    assert(g1.descs()[p] == d0[p]
                        || (!(g1.descs()[p]).taken && !(g1.descs()[p]).last));
                }
                assert forall|w: int| 0 <= w < old(pa).mem().len()
                    implies #[trigger] pa.mem()[w] == old(pa).mem()[w] || pa.mem()[w] == 0 by {
                    assert(g2.mem()[w] == g1.mem()[w] || g2.mem()[w] == 0);
                    assert(g1.mem()[w] == old(pa).mem()[w] || g1.mem()[w] == 0);
                }
            }
            match freed {
                Ok(()) => {},
                Err(er) => {
                    return Err(er);
                },
            }
            root.set(i, pte_clear());
        } else {
            proof {
                assert(!pte_branch(root0[i as int]));
                assert(count_branches(root0, i as int) == count_branches(root0, i + 1));
            }
        }
        i = i + 1;
    }
    proof {
        assert(count_branches(root0, 512) == 0);
        assert(!(0u64 & 0x01 == 0x01)) by (bit_vector);
        assert forall|j: int| 0 <= j < 512 implies !pte_branch(#[trigger] root@[j]) by {
            if pte_branch(root0[j]) {
                assert(root@[j] == 0);
            }
        }
    }
    Ok(())
}

/// Free every table page reachable through branch entries of the table held
/// in the page at `addr`, `level` levels above the leaf tables, clearing each
/// branch entry once its subtree is freed. The page at `addr` itself is left
/// to the caller. No page is ever allocated or marked: descriptors and memory
/// words are unchanged or cleared.
fn free_subtree(pa: &mut PageAllocator, addr: u64, level: usize) -> (r: Result<(), MemError>)
    requires
        old(pa).wf(),
        level <= 2,
    ensures
        final(pa).wf(),
        final(pa).heap_start() == old(pa).heap_start(),
        final(pa).heap_size() == old(pa).heap_size(),
        final(pa).alloc_start() == old(pa).alloc_start(),
        final(pa).descs().len() == old(pa).descs().len(),
        final(pa).mem().len() == old(pa).mem().len(),
        forall|p: int| 0 <= p < old(pa).descs().len()
            ==> final(pa).descs()[p] == old(pa).descs()[p]
                || (!(#[trigger] final(pa).descs()[p]).taken && !final(pa).descs()[p].last),
        count_taken(final(pa).descs(), 0) <= count_taken(old(pa).descs(), 0),
        forall|w: int| 0 <= w < old(pa).mem().len()
            ==> #[trigger] final(pa).mem()[w] == old(pa).mem()[w] || final(pa).mem()[w] == 0,
        r is Err ==> r->Err_0 == MemError::InvalidFree,
    decreases level,
{
    if level == 0 {
        return Ok(());
    }
    let start64 = pa.start_address() as u64;
    if addr < start64 {
        return Err(MemError::InvalidFree);
    }
    let t64 = (addr - start64) / (PAGE_SIZE as u64);
    if t64 >= pa.page_count() as u64 {
        return Err(MemError::InvalidFree);
    }
    let t = t64 as usize;
    let ghost d0 = old(pa).descs();
    let mut i: usize = 0;
    while i < 512
        invariant
            pa.wf(),
            pa.heap_start() == old(pa).heap_start(),
            pa.heap_size() == old(pa).heap_size(),
            pa.alloc_start() == old(pa).alloc_start(),
            pa.descs().len() == d0.len(),
            pa.mem().len() == old(pa).mem().len(),
            d0 == old(pa).descs(),
            t < pa.num_pages(),
            1 <= level <= 2,
            i <= 512,
            forall|p: int| 0 <= p < d0.len()
                ==> pa.descs()[p] == d0[p]
                    || (!(#[trigger] pa.descs()[p]).taken && !pa.descs()[p].last),
            count_taken(pa.descs(), 0) <= count_taken(d0, 0),
            forall|w: int| 0 <= w < old(pa).mem().len()
                ==> #[trigger] pa.mem()[w] == old(pa).mem()[w] || pa.mem()[w] == 0,
        decreases 512 - i,
    {
        let e = pa.read_page_word(t, i);
        if pte_is_valid(e) && !pte_is_leaf(e) {
            let child = pte_ptr(e);
            let ghost g1 = *pa;
            match free_subtree(pa, child, level - 1) {
                Ok(()) => {},
                Err(er) => {
                    return Err(er);
                },
            }
            proof {
                lemma_count_taken_mono(g1.descs(), pa.descs(), 0);
            }
            if child > usize::MAX as u64 {
                return Err(MemError::InvalidFree);
            }
            let ghost g2 = *pa;
            let freed = pa.free(child as usize);
            proof {
                let d2 = g2.descs();
                assert forall|p: int| 0 <= p < d2.len() && (#[trigger] pa.descs()[p]).taken
                    implies d2[p].taken by {}
                lemma_count_taken_mono(d2, pa.descs(), 0);
            }
            match freed {
                Ok(()) => {},
                Err(er) => {
                    return Err(er);
                },
            }
            pa.write_page_word(t, i, pte_clear());
        }
        i = i + 1;
    }
    Ok(())
}

} // verus!
