//! Physical page allocator: a fixed memory window managed as 4096-byte pages,
//! with one descriptor per page tracking free/taken state, and a first-fit
//! linear scan for contiguous runs.

use vstd::prelude::*;

use crate::err::MemError;

verus! {

/// log2 of the page size.
pub const PAGE_ORDER: usize = 12;

/// Size of one physical page in bytes.
pub const PAGE_SIZE: usize = 4096;

/// Bytes that one page descriptor occupies in the managed region's layout.
pub const DESC_SIZE: usize = 1;

/// 64-bit words in one page.
pub const WORDS_PER_PAGE: usize = 512;

/// One page descriptor: the free/taken state of a single physical page.
/// A run of allocated pages is marked `taken` throughout, and its final
/// page additionally carries `last`.
#[derive(Clone, Copy, Debug, PartialEq, Eq, Structural)]
pub struct Page {
    pub taken: bool,
    pub last: bool,
}

impl Page {
    /// Is this page part of an allocation?
    pub fn is_taken(&self) -> (r: bool)
        ensures
            r == self.taken,
    {
        self.taken
    }

    /// Is this page the final page of an allocation run?
    pub fn is_last(&self) -> (r: bool)
        ensures
            r == self.last,
    {
        self.last
    }

    /// Clear both marks: the page is free again.
    pub fn clear(&mut self)
        ensures
            !final(self).taken && !final(self).last,
    {
        self.taken = false;
        self.last = false;
    }

    /// Set both marks to the given values.
    pub fn reset(&mut self, taken: bool, last: bool)
        ensures
            final(self).taken == taken && final(self).last == last,
    {
        self.taken = taken;
        self.last = last;
    }
}

/// The least multiple of 4096 that is at least `v`.
pub open spec fn spec_align_up(v: int) -> int {
    ((v + 4095) / 4096) * 4096
}

/// Every descriptor in `[s, s + n)` is free.
pub open spec fn run_free(d: Seq<Page>, s: int, n: int) -> bool {
    forall|j: int| s <= j < s + n ==> !d[j].taken
}

/// A run of `n` free pages may start at `s`: it is free, and its final page
/// lies inside the scan window, which stops `n` descriptors short of the end.
pub open spec fn fit_at(d: Seq<Page>, n: int, s: int) -> bool {
    &&& 0 <= s
    &&& s + n + n <= d.len()
    &&& run_free(d, s, n)
}

/// The least start index `>= s` at which a run of `n` free pages fits,
/// if any does.
pub open spec fn first_fit_from(d: Seq<Page>, n: int, s: int) -> Option<int>
    decreases d.len() - s,
{
    if s < 0 || s + n + n > d.len() {
        None
    } else if run_free(d, s, n) {
        Some(s)
    } else {
        first_fit_from(d, n, s + 1)
    }
}

/// The first-fit start index for a run of `n` free pages.
pub open spec fn first_fit(d: Seq<Page>, n: int) -> Option<int> {
    first_fit_from(d, n, 0)
}

/// `d1` is `d0` with the run `[s, s + n)` marked allocated: all pages taken,
/// the final one also marked last, everything else unchanged.
pub open spec fn alloc_marked(d0: Seq<Page>, d1: Seq<Page>, s: int, n: int) -> bool {
    &&& d1.len() == d0.len()
    &&& forall|j: int| 0 <= j < d0.len() && !(s <= j < s + n) ==> d1[j] == d0[j]
    &&& forall|j: int| s <= j < s + n - 1 ==> d1[j].taken && !d1[j].last
    &&& d1[s + n - 1].taken && d1[s + n - 1].last
}

/// `d1` is `d0` with descriptors `[lo, hi)` cleared and the rest unchanged.
pub open spec fn cleared_range(d0: Seq<Page>, d1: Seq<Page>, lo: int, hi: int) -> bool {
    &&& d1.len() == d0.len()
    &&& forall|j: int| lo <= j < hi ==> !d1[j].taken && !d1[j].last
    &&& forall|j: int| 0 <= j < d0.len() && !(lo <= j < hi) ==> d1[j] == d0[j]
}

/// The index at which a free walk starting at `i` stops: the first descriptor
/// at or after `i` that is not a taken, non-final run member.
pub open spec fn walk_end(d: Seq<Page>, i: int) -> int
    decreases d.len() - i,
{
    if i < 0 || i >= d.len() {
        i
    } else if d[i].taken && !d[i].last {
        walk_end(d, i + 1)
    } else {
        i
    }
}

/// If no run of `n` free pages fits at any start index at or after `s`,
/// the search from `s` reports none.
pub proof fn lemma_first_fit_from_none(d: Seq<Page>, n: int, s: int)
    requires
        forall|t: int| s <= t ==> !fit_at(d, n, t),
    ensures
        first_fit_from(d, n, s) is None,
    decreases d.len() - s,
{
    if !(s < 0 || s + n + n > d.len()) {
        assert(!fit_at(d, n, s));
        lemma_first_fit_from_none(d, n, s + 1);
    }
}

/// If a run of `n` free pages fits at `t` and at no index in `[s, t)`,
/// the search from `s` finds exactly `t`.
pub proof fn lemma_first_fit_from_found(d: Seq<Page>, n: int, s: int, t: int)
    requires
        0 <= s <= t,
        fit_at(d, n, t),
        forall|u: int| s <= u < t ==> !fit_at(d, n, u),
    ensures
        first_fit_from(d, n, s) == Some(t),
    decreases t - s,
{
    if s < t {
        assert(!fit_at(d, n, s));
        if 0 <= s && s + n + n <= d.len() {
            assert(!run_free(d, s, n));
        }
        lemma_first_fit_from_found(d, n, s + 1, t);
    }
}

/// A start index found by the search is a genuine fit.
pub proof fn lemma_first_fit_fits(d: Seq<Page>, n: int, s: int)
    requires
        first_fit_from(d, n, s) is Some,
    ensures
        fit_at(d, n, first_fit_from(d, n, s)->Some_0),
    decreases d.len() - s,
{
    if !(s < 0 || s + n + n > d.len()) {
        if !run_free(d, s, n) {
            lemma_first_fit_fits(d, n, s + 1);
        }
    }
}

/// A request for at least half the descriptor array can never fit in the
/// scan window: the allocator reports out of memory without scanning.
pub proof fn lemma_oversize_no_fit(d: Seq<Page>, n: int)
    requires
        n + n > d.len(),
    ensures
        first_fit(d, n) is None,
{
    assert forall|t: int| 0 <= t implies !fit_at(d, n, t) by {}
    lemma_first_fit_from_none(d, n, 0);
}

/// The number of taken descriptors at or after `i`.
pub open spec fn count_taken(d: Seq<Page>, i: int) -> int
    decreases d.len() - i,
{
    if i < 0 || i >= d.len() {
        0
    } else {
        (if d[i].taken {
            1int
        } else {
            0int
        }) + count_taken(d, i + 1)
    }
}

proof fn lemma_count_bounds(d: Seq<Page>, i: int)
    requires
        0 <= i <= d.len(),
    ensures
        0 <= count_taken(d, i) <= d.len() - i,
    decreases d.len() - i,
{
    if i < d.len() {
        lemma_count_bounds(d, i + 1);
    }
}

proof fn lemma_count_diff(d: Seq<Page>, d1: Seq<Page>, s: int, n: int, i: int)
    requires
        d.len() == d1.len(),
        0 <= s,
        1 <= n,
        s + n <= d.len(),
        run_free(d, s, n),
        forall|j: int| 0 <= j < d.len() && !(s <= j < s + n) ==> d1[j] == d[j],
        forall|j: int| s <= j < s + n ==> (#[trigger] d1[j]).taken,
        0 <= i <= d.len(),
    ensures
        count_taken(d1, i) == count_taken(d, i) + (
            if i <= s {
                n
            } else if i < s + n {
                s + n - i
            } else {
                0
            }),
    decreases d.len() - i,
{
    if i < d.len() {
        lemma_count_diff(d, d1, s, n, i + 1);
    }
}

/// Descriptors that are only ever cleared can never raise the taken count.
pub proof fn lemma_count_taken_mono(d: Seq<Page>, d1: Seq<Page>, i: int)
    requires
        d.len() == d1.len(),
        forall|j: int| 0 <= j < d.len() && (#[trigger] d1[j]).taken ==> d[j].taken,
        0 <= i <= d.len(),
    ensures
        count_taken(d1, i) <= count_taken(d, i),
    decreases d.len() - i,
{
    if i < d.len() {
        lemma_count_taken_mono(d, d1, i + 1);
    }
}

/// Clearing a taken descriptor lowers the taken count strictly.
pub proof fn lemma_count_taken_drop(d: Seq<Page>, d1: Seq<Page>, i: int, e: int)
    requires
        d.len() == d1.len(),
        forall|j: int| 0 <= j < d.len() && (#[trigger] d1[j]).taken ==> d[j].taken,
        0 <= i <= e < d.len(),
        d[e].taken,
        !d1[e].taken,
    ensures
        count_taken(d1, i) + 1 <= count_taken(d, i),
    decreases d.len() - i,
{
    if i < e {
        lemma_count_taken_drop(d, d1, i + 1, e);
    } else {
        lemma_count_taken_mono(d, d1, i + 1);
    }
}

/// A free walk never stops before its start.
pub proof fn lemma_walk_end_ge(d: Seq<Page>, i: int)
    requires
        0 <= i,
    ensures
        walk_end(d, i) >= i,
    decreases d.len() - i,
{
    if i < d.len() && d[i].taken && !d[i].last {
        lemma_walk_end_ge(d, i + 1);
    }
}

/// Taking one free page raises the taken count by one.
pub proof fn lemma_count_taken_single(d: Seq<Page>, d1: Seq<Page>, t: int)
    requires
        d.len() == d1.len(),
        0 <= t < d.len(),
        !d[t].taken,
        d1[t].taken,
        forall|j: int| 0 <= j < d.len() && j != t ==> d1[j] == d[j],
    ensures
        count_taken(d1, 0) == count_taken(d, 0) + 1,
{
    assert(run_free(d, t, 1));
    lemma_count_diff(d, d1, t, 1, 0);
}

/// Exhaustion: every allocation that succeeds raises the number of taken
/// pages by exactly the request size, and that number can never exceed the
/// page count — so repeated allocation without freeing must eventually
/// report out of memory.
pub proof fn lemma_allocation_exhausts(d: Seq<Page>, n: int, d1: Seq<Page>)
    requires
        1 <= n,
        first_fit(d, n) is Some,
        alloc_marked(d, d1, first_fit(d, n)->Some_0, n),
    ensures
        count_taken(d1, 0) == count_taken(d, 0) + n,
        count_taken(d1, 0) <= d1.len(),
{
    let s = first_fit(d, n)->Some_0;
    lemma_first_fit_fits(d, n, 0);
    lemma_count_diff(d, d1, s, n, 0);
    lemma_count_bounds(d1, 0);
}

/// Successive allocations are disjoint: with no intervening free, the run a
/// second request receives cannot overlap the run the first received, and
/// with a page-aligned base both address ranges are page-aligned and
/// non-overlapping.
pub proof fn lemma_successive_allocations_disjoint(d: Seq<Page>, n: int, m: int, d1: Seq<Page>, start: int)
    requires
        1 <= n,
        1 <= m,
        first_fit(d, n) is Some,
        alloc_marked(d, d1, first_fit(d, n)->Some_0, n),
        first_fit(d1, m) is Some,
        start % 4096 == 0,
    ensures
        ({
            let s1 = first_fit(d, n)->Some_0;
            let s2 = first_fit(d1, m)->Some_0;
            &&& s2 + m <= s1 || s1 + n <= s2
            &&& (start + 4096 * s1) % 4096 == 0
            &&& (start + 4096 * s2) % 4096 == 0
            &&& (start + 4096 * s2) + 4096 * m <= start + 4096 * s1
                || (start + 4096 * s1) + 4096 * n <= start + 4096 * s2
        }),
{
    let s1 = first_fit(d, n)->Some_0;
    let s2 = first_fit(d1, m)->Some_0;
    lemma_first_fit_fits(d, n, 0);
    lemma_first_fit_fits(d1, m, 0);
    if !(s2 + m <= s1 || s1 + n <= s2) {
        let k = if s1 <= s2 { s2 } else { s1 };
        assert(s1 <= k < s1 + n && s2 <= k < s2 + m);
        assert(d1[k].taken);
        assert(!d1[k].taken);
    }
    assert((start + 4096 * s1) % 4096 == 0 && (start + 4096 * s2) % 4096 == 0) by (nonlinear_arith)
        requires start % 4096 == 0;
    assert(s2 + m <= s1 ==> 4096 * s2 + 4096 * m <= 4096 * s1) by (nonlinear_arith);
    assert(s1 + n <= s2 ==> 4096 * s1 + 4096 * n <= 4096 * s2) by (nonlinear_arith);
}

proof fn lemma_walk_end_run(d: Seq<Page>, s: int, e: int)
    requires
        0 <= s <= e < d.len(),
        forall|k: int| s <= k < e ==> (#[trigger] d[k]).taken && !d[k].last,
        !(d[e].taken && !d[e].last),
    ensures
        walk_end(d, s) == e,
    decreases e - s,
{
    if s < e {
        lemma_walk_end_run(d, s + 1, e);
    }
}

/// First-fit reuse: freeing the run that an allocation returned restores the
/// descriptors exactly, the free walk from the run's start stops at its last
/// page, and a repeated request of the same size is given the same run again.
pub proof fn lemma_first_fit_reuse(d: Seq<Page>, n: int, d1: Seq<Page>, d2: Seq<Page>)
    requires
        1 <= n,
        forall|i: int| 0 <= i < d.len() ==> ((#[trigger] d[i]).last ==> d[i].taken),
        first_fit(d, n) is Some,
        alloc_marked(d, d1, first_fit(d, n)->Some_0, n),
        cleared_range(d1, d2, first_fit(d, n)->Some_0,
            walk_end(d1, first_fit(d, n)->Some_0) + 1),
    ensures
        walk_end(d1, first_fit(d, n)->Some_0) == first_fit(d, n)->Some_0 + n - 1,
        d1[walk_end(d1, first_fit(d, n)->Some_0)].last,
        d2 == d,
        first_fit(d2, n) == first_fit(d, n),
{
    let s = first_fit(d, n)->Some_0;
    lemma_first_fit_fits(d, n, 0);
    lemma_walk_end_run(d1, s, s + n - 1);
    assert forall|i: int| 0 <= i < d.len() implies d2[i] == d[i] by {
        if s <= i < s + n {
            assert(!d[i].taken);
            assert(!d[i].last);
        }
    }
    assert(d2 =~= d);
}

/// The physical page allocator: a managed window `[heap_start, heap_start + heap_size)`,
/// one descriptor per page, and the contents of the allocatable pages as 64-bit words.
pub struct PageAllocator {
    heap_start: usize,
    heap_size: usize,
    alloc_start: usize,
    descriptors: Vec<Page>,
    words: Vec<u64>,
}

impl PageAllocator {
    /// The descriptor of each managed page.
    pub closed spec fn descs(self) -> Seq<Page> {
        self.descriptors@
    }

    /// The contents of the allocatable pages, as 64-bit words:
    /// page `p` occupies word indices `[p * 512, (p + 1) * 512)`.
    pub closed spec fn mem(self) -> Seq<u64> {
        self.words@
    }

    /// Base address of the managed window.
    pub closed spec fn heap_start(self) -> int {
        self.heap_start as int
    }

    /// Byte size of the managed window.
    pub closed spec fn heap_size(self) -> int {
        self.heap_size as int
    }

    /// First page-aligned address after the descriptor array: the address of page 0.
    pub closed spec fn alloc_start(self) -> int {
        self.alloc_start as int
    }

    /// Number of managed pages.
    pub open spec fn num_pages(self) -> int {
        self.heap_size() / 4096
    }

    /// The address of page `p`.
    pub open spec fn page_addr(self, p: int) -> int {
        self.alloc_start() + 4096 * p
    }

    /// Structural invariant: the descriptor array covers every page, the word
    /// array covers every allocatable byte, the allocatable area starts at the
    /// first page boundary after the descriptors, addresses stay representable,
    /// a last mark implies a taken mark, and the final descriptor of the array
    /// is never a taken run member missing its last mark.
    pub open spec fn wf(self) -> bool {
        &&& self.descs().len() == self.num_pages()
        &&& self.mem().len() == self.num_pages() * 512
        &&& self.alloc_start() == spec_align_up(self.heap_start() + self.num_pages() * DESC_SIZE)
        &&& self.alloc_start() % 4096 == 0
        &&& 1 <= self.heap_start()
        &&& self.alloc_start() + self.num_pages() * 4096 <= usize::MAX
        &&& self.alloc_start() + self.num_pages() * 4096 < 0x0100_0000_0000_0000
        &&& forall|i: int| 0 <= i < self.descs().len() ==> (#[trigger] self.descs()[i].last ==> self.descs()[i].taken)
        &&& self.descs().len() > 0 ==> (self.descs()[self.descs().len() - 1].taken ==> self.descs()[self.descs().len() - 1].last)
    }

    /// The address of page 0, where allocations begin.
    pub fn start_address(&self) -> (r: usize)
        ensures
            r == self.alloc_start(),
    {
        self.alloc_start
    }

    /// How many pages the allocator manages.
    pub fn page_count(&self) -> (r: usize)
        requires
            self.wf(),
        ensures
            r == self.num_pages(),
    {
        self.descriptors.len()
    }

    /// Is page `p` currently part of an allocation?
    pub fn page_taken(&self, p: usize) -> (r: bool)
        requires
            self.wf(),
            p < self.num_pages(),
        ensures
            r == self.descs()[p as int].taken,
    {
        self.descriptors[p].taken
    }

    /// Initialize an allocator over the window `[heap_start, heap_start + heap_size)`:
    /// every descriptor is cleared, and the allocatable area begins at the first
    /// page boundary after the descriptor array.
    pub fn init(heap_start: usize, heap_size: usize) -> (r: PageAllocator)
        requires
            1 <= heap_start,
            heap_start + heap_size + heap_size / 4096 + 4095 <= usize::MAX,
            heap_start + heap_size + heap_size / 4096 + 4095 < 0x0100_0000_0000_0000,
        ensures
            r.wf(),
            r.heap_start() == heap_start,
            r.heap_size() == heap_size,
            r.num_pages() == heap_size as int / 4096,
            r.alloc_start() == spec_align_up(heap_start + r.num_pages() * DESC_SIZE),
            forall|i: int| 0 <= i < r.descs().len() ==> !(#[trigger] r.descs()[i]).taken && !r.descs()[i].last,
    {
        let num_pages = heap_size / PAGE_SIZE;
        proof {
            assert(num_pages * 4096 <= heap_size && num_pages <= heap_size / 4096) by (nonlinear_arith)
                requires num_pages == heap_size as int / 4096 && heap_size >= 0;
        }
        let mut descriptors: Vec<Page> = Vec::new();
        let mut i: usize = 0;
        while i < num_pages
            invariant
                i <= num_pages,
                descriptors@.len() == i,
                forall|j: int| 0 <= j < i ==> !(#[trigger] descriptors@[j]).taken && !descriptors@[j].last,
            decreases num_pages - i,
        {
            descriptors.push(Page { taken: false, last: false });
            i = i + 1;
        }
        let n_words = num_pages * WORDS_PER_PAGE;
        proof {
            assert(num_pages * 512 <= heap_size) by (nonlinear_arith)
                requires num_pages * 4096 <= heap_size && num_pages >= 0;
        }
        let mut words: Vec<u64> = Vec::new();
        let mut w: usize = 0;
        while w < n_words
            invariant
                w <= n_words,
                words@.len() == w,
            decreases n_words - w,
        {
            words.push(0u64);
            w = w + 1;
        }
        let alloc_start = ((heap_start + num_pages * DESC_SIZE) + (PAGE_SIZE - 1)) / PAGE_SIZE * PAGE_SIZE;
        proof {
            let b = heap_start + num_pages * DESC_SIZE;
            assert(alloc_start == spec_align_up(b as int));
            assert(spec_align_up(b as int) % 4096 == 0 && b <= spec_align_up(b as int) < b + 4096) by (nonlinear_arith)
                requires b >= 0 && spec_align_up(b as int) == ((b + 4095) / 4096) * 4096;
        }
        PageAllocator { heap_start, heap_size, alloc_start, descriptors, words }
    }

    /// Mark the run `[s, s + n)` allocated: every page taken, the final one
    /// also marked last.
    fn mark(&mut self, s: usize, n: usize)
        requires
            old(self).wf(),
            1 <= n,
            s + n <= old(self).descs().len(),
        ensures
            final(self).wf(),
            final(self).heap_start() == old(self).heap_start(),
            final(self).heap_size() == old(self).heap_size(),
            final(self).alloc_start() == old(self).alloc_start(),
            final(self).mem() == old(self).mem(),
            alloc_marked(old(self).descs(), final(self).descs(), s as int, n as int),
    {
        let mut j = s;
        while j < s + n - 1
            invariant
                old(self).wf(),
                1 <= n,
                s <= j <= s + n - 1,
                s + n <= old(self).descs().len(),
                self.descs().len() == old(self).descs().len(),
                self.heap_start() == old(self).heap_start(),
                self.heap_size() == old(self).heap_size(),
                self.alloc_start() == old(self).alloc_start(),
                self.mem() == old(self).mem(),
                forall|k: int| s <= k < j ==> (#[trigger] self.descs()[k]).taken && !self.descs()[k].last,
                forall|k: int| 0 <= k < old(self).descs().len() && !(s <= k < j)
                    ==> self.descs()[k] == old(self).descs()[k],
            decreases s + n - 1 - j,
        {
            self.descriptors[j] = Page { taken: true, last: false };
            j = j + 1;
        }
        self.descriptors[s + n - 1] = Page { taken: true, last: true };
    }

    /// First-fit search and mark: on success, the start index of the run.
    fn reserve(&mut self, pages: usize) -> (r: Result<usize, MemError>)
        requires
            old(self).wf(),
        ensures
            final(self).wf(),
            final(self).heap_start() == old(self).heap_start(),
            final(self).heap_size() == old(self).heap_size(),
            final(self).alloc_start() == old(self).alloc_start(),
            final(self).mem() == old(self).mem(),
            match r {
                Ok(s) => pages >= 1
                    && first_fit(old(self).descs(), pages as int) == Some(s as int)
                    && s + pages + pages <= old(self).descs().len()
                    && alloc_marked(old(self).descs(), final(self).descs(), s as int, pages as int),
                Err(e) => *final(self) == *old(self) && (
                    (e == MemError::InvalidRequest && pages == 0)
                    || (e == MemError::OutOfMemory && pages >= 1
                        && first_fit(old(self).descs(), pages as int) is None)),
            },
    {
        if pages == 0 {
            return Err(MemError::InvalidRequest);
        }
        let num_pages = self.descriptors.len();
        if pages > num_pages / 2 {
            proof {
                assert(pages + pages > num_pages);
                lemma_oversize_no_fit(self.descs(), pages as int);
            }
            return Err(MemError::OutOfMemory);
        }
        let limit = num_pages - pages;
        let mut found_free: usize = 0;
        let mut p: usize = 0;
        while p < limit
            invariant
                *self == *old(self),
                old(self).wf(),
                1 <= pages,
                pages + pages <= self.descs().len(),
                num_pages == self.descs().len(),
                limit == num_pages - pages,
                p <= limit,
                found_free <= p,
                found_free < pages,
                run_free(self.descs(), p - found_free, found_free as int),
                p - found_free == 0 || self.descs()[p - found_free - 1].taken,
                forall|u: int| 0 <= u && u + pages <= p ==> !run_free(self.descs(), u, pages as int),
            decreases limit - p,
        {
            let ghost d = self.descs();
            let was_free = !self.descriptors[p].taken;
            if was_free {
                found_free = found_free + 1;
            } else {
                found_free = 0;
            }
            if found_free >= pages {
                let s = p + 1 - pages;
                proof {
                    assert(run_free(d, s as int, pages as int));
                    assert(fit_at(d, pages as int, s as int));
                    assert forall|u: int| 0 <= u < s implies !fit_at(d, pages as int, u) by {
                        assert(u + pages <= p);
                        assert(!run_free(d, u, pages as int));
                    }
                    lemma_first_fit_from_found(d, pages as int, 0, s as int);
                }
                self.mark(s, pages);
                return Ok(s);
            }
            p = p + 1;
            proof {
                assert forall|u: int| 0 <= u && u + pages == p implies !run_free(d, u, pages as int) by {
                    if was_free {
                        let b = p - found_free - 1;
                        assert(u <= b < p);
                        assert(d[b].taken);
                    } else {
                        assert(d[p - 1].taken);
                    }
                }
            }
        }
        proof {
            assert forall|t: int| 0 <= t implies !fit_at(self.descs(), pages as int, t) by {
                if t + pages + pages <= self.descs().len() {
                    assert(t + pages <= limit);
                    assert(!run_free(self.descs(), t, pages as int));
                }
            }
            lemma_first_fit_from_none(self.descs(), pages as int, 0);
        }
        Err(MemError::OutOfMemory)
    }

    /// Allocate `pages` consecutive pages by first-fit scan: on success the
    /// address of the first page; `InvalidRequest` for a zero-page request;
    /// `OutOfMemory` exactly when no sufficiently long free run fits in the
    /// scan window. Nothing changes on failure.
    pub fn allocate(&mut self, pages: usize) -> (r: Result<usize, MemError>)
        requires
            old(self).wf(),
        ensures
            final(self).wf(),
            final(self).heap_start() == old(self).heap_start(),
            final(self).heap_size() == old(self).heap_size(),
            final(self).alloc_start() == old(self).alloc_start(),
            final(self).mem() == old(self).mem(),
            pages >= 1 && pages >= old(self).descs().len()
                ==> r == Err::<usize, MemError>(MemError::OutOfMemory),
            match r {
                Ok(addr) => pages >= 1
                    && first_fit(old(self).descs(), pages as int) is Some
                    && ({
                        let s = first_fit(old(self).descs(), pages as int)->Some_0;
                        addr == old(self).page_addr(s)
                            && s + pages + pages <= old(self).descs().len()
                            && alloc_marked(old(self).descs(), final(self).descs(), s, pages as int)
                    }),
                Err(e) => *final(self) == *old(self) && (
                    (e == MemError::InvalidRequest && pages == 0)
                    || (e == MemError::OutOfMemory && pages >= 1
                        && first_fit(old(self).descs(), pages as int) is None)),
            },
    {
        let s = match self.reserve(pages) {
            Ok(s) => s,
            Err(e) => {
                return Err(e);
            },
        };
        proof {
            if pages >= old(self).descs().len() {
                lemma_oversize_no_fit(old(self).descs(), pages as int);
            }
            assert(4096 * s <= 4096 * self.descs().len()) by (nonlinear_arith)
                requires s <= self.descs().len();
        }
        Ok(self.alloc_start + PAGE_SIZE * s)
    }

    /// Allocate as `alloc` does and zero-fill the returned range: every
    /// 64-bit word of the run reads as zero afterwards. Nothing is zeroed
    /// on failure.
    pub fn zalloc(&mut self, pages: usize) -> (r: Result<usize, MemError>)
        requires
            old(self).wf(),
        ensures
            final(self).wf(),
            final(self).heap_start() == old(self).heap_start(),
            final(self).heap_size() == old(self).heap_size(),
            final(self).alloc_start() == old(self).alloc_start(),
            final(self).mem().len() == old(self).mem().len(),
            pages >= 1 && pages >= old(self).descs().len()
                ==> r == Err::<usize, MemError>(MemError::OutOfMemory),
            match r {
                Ok(addr) => pages >= 1
                    && first_fit(old(self).descs(), pages as int) is Some
                    && ({
                        let s = first_fit(old(self).descs(), pages as int)->Some_0;
                        addr == old(self).page_addr(s)
                            && s + pages + pages <= old(self).descs().len()
                            && alloc_marked(old(self).descs(), final(self).descs(), s, pages as int)
                            && (forall|w: int| s * 512 <= w < (s + pages) * 512
                                ==> final(self).mem()[w] == 0)
                            && (forall|w: int| 0 <= w < old(self).mem().len()
                                && !(s * 512 <= w < (s + pages) * 512)
                                ==> final(self).mem()[w] == old(self).mem()[w])
                    }),
                Err(e) => *final(self) == *old(self) && (
                    (e == MemError::InvalidRequest && pages == 0)
                    || (e == MemError::OutOfMemory && pages >= 1
                        && first_fit(old(self).descs(), pages as int) is None)),
            },
    {
        let s = match self.reserve(pages) {
            Ok(s) => s,
            Err(e) => {
                return Err(e);
            },
        };
        proof {
            if pages >= old(self).descs().len() {
                lemma_oversize_no_fit(old(self).descs(), pages as int);
            }
            assert(s * 512 <= (s + pages) * 512 && (s + pages) * 512 <= self.descs().len() * 512
                && 4096 * s <= 4096 * self.descs().len()) by (nonlinear_arith)
                requires 0 <= s && 0 <= pages && s + pages <= self.descs().len();
        }
        let lo = s * WORDS_PER_PAGE;
        let hi = (s + pages) * WORDS_PER_PAGE;
        let mut w = lo;
        while w < hi
            invariant
                old(self).wf(),
                self.wf(),
                pages >= 1,
                first_fit(old(self).descs(), pages as int) == Some(s as int),
                alloc_marked(old(self).descs(), self.descs(), s as int, pages as int),
                s + pages <= self.descs().len(),
                lo == s * 512,
                hi == (s + pages) * 512,
                lo <= w <= hi,
                hi <= self.mem().len(),
                self.heap_start() == old(self).heap_start(),
                self.heap_size() == old(self).heap_size(),
                self.alloc_start() == old(self).alloc_start(),
                self.mem().len() == old(self).mem().len(),
                forall|k: int| lo <= k < w ==> self.mem()[k] == 0,
                forall|k: int| 0 <= k < old(self).mem().len() && !(lo <= k < w)
                    ==> self.mem()[k] == old(self).mem()[k],
            decreases hi - w,
        {
            self.words[w] = 0;
            w = w + 1;
        }
        Ok(self.alloc_start + PAGE_SIZE * s)
    }

    /// Free the allocation that starts at the page containing `ptr`: walk the
    /// descriptors from that page, clearing each taken one, through the first
    /// marked last. A null or out-of-range pointer is rejected; reaching an
    /// untaken descriptor before a last mark signals corruption or a double
    /// free, and is also rejected.
    pub fn free(&mut self, ptr: usize) -> (r: Result<(), MemError>)
        requires
            old(self).wf(),
        ensures
            final(self).wf(),
            final(self).heap_start() == old(self).heap_start(),
            final(self).heap_size() == old(self).heap_size(),
            final(self).alloc_start() == old(self).alloc_start(),
            final(self).mem() == old(self).mem(),
            ({
                let d = old(self).descs();
                let valid = ptr != 0 && ptr >= old(self).alloc_start()
                    && (ptr - old(self).alloc_start()) / 4096 < d.len();
                let i = (ptr - old(self).alloc_start()) / 4096;
                let e = walk_end(d, i);
                match r {
                    Ok(()) => valid && e < d.len() && d[e].last
                        && cleared_range(d, final(self).descs(), i, e + 1),
                    Err(err) => err == MemError::InvalidFree && (
                        (!valid && *final(self) == *old(self))
                        || (valid && !(e < d.len() && d[e].last)
                            && cleared_range(d, final(self).descs(), i, e))),
                }
            }),
    {
        if ptr == 0 {
            return Err(MemError::InvalidFree);
        }
        if ptr < self.alloc_start {
            return Err(MemError::InvalidFree);
        }
        let idx = (ptr - self.alloc_start) / PAGE_SIZE;
        if idx >= self.descriptors.len() {
            return Err(MemError::InvalidFree);
        }
        let ghost d0 = self.descs();
        let mut p = idx;
        while self.descriptors[p].taken && !self.descriptors[p].last
            invariant
                old(self).wf(),
                idx <= p < self.descs().len(),
                self.descs().len() == d0.len(),
                d0 == old(self).descs(),
                self.heap_start() == old(self).heap_start(),
                self.heap_size() == old(self).heap_size(),
                self.alloc_start() == old(self).alloc_start(),
                self.mem() == old(self).mem(),
                forall|k: int| idx <= k < p ==> (#[trigger] d0[k]).taken && !d0[k].last,
                walk_end(d0, idx as int) == walk_end(d0, p as int),
                forall|k: int| idx <= k < p
                    ==> !(#[trigger] self.descs()[k]).taken && !self.descs()[k].last,
                forall|k: int| 0 <= k < d0.len() && !(idx <= k < p) ==> self.descs()[k] == d0[k],
            decreases self.descs().len() - p,
        {
            proof {
                assert(self.descs()[p as int] == d0[p as int]);
                assert(p < d0.len() - 1);
            }
            self.descriptors[p] = Page { taken: false, last: false };
            p = p + 1;
        }
        proof {
            assert(self.descs()[p as int] == d0[p as int]);
            assert(walk_end(d0, p as int) == p);
        }
        if self.descriptors[p].last {
            self.descriptors[p] = Page { taken: false, last: false };
            proof {
                let dl = self.descs();
                assert forall|i: int| 0 <= i < dl.len() && #[trigger] dl[i].last implies dl[i].taken by {
                    if !(idx <= i <= p) {
                        assert(dl[i] == d0[i]);
                    }
                }
                if dl.len() > 0 && dl[dl.len() - 1].taken {
                    assert(dl[dl.len() - 1] == d0[dl.len() - 1]);
                }
                assert(cleared_range(d0, dl, idx as int, p + 1));
            }
            Ok(())
        } else {
            proof {
                let dl = self.descs();
                assert forall|i: int| 0 <= i < dl.len() && #[trigger] dl[i].last implies dl[i].taken by {
                    if !(idx <= i < p) {
                        assert(dl[i] == d0[i]);
                    }
                }
                if dl.len() > 0 && dl[dl.len() - 1].taken {
                    assert(dl[dl.len() - 1] == d0[dl.len() - 1]);
                }
                assert(cleared_range(d0, dl, idx as int, p as int));
            }
            Err(MemError::InvalidFree)
        }
    }

    /// Read the 64-bit word `w` of page `p`.
    pub fn read_page_word(&self, p: usize, w: usize) -> (r: u64)
        requires
            self.wf(),
            p < self.num_pages(),
            w < 512,
        ensures
            r == self.mem()[p * 512 + w],
    {
        proof {
            assert(p * 512 + w < self.num_pages() * 512) by (nonlinear_arith)
                requires p < self.num_pages() && w < 512;
        }
        self.words[p * WORDS_PER_PAGE + w]
    }

    /// Overwrite the 64-bit word `w` of page `p`.
    pub fn write_page_word(&mut self, p: usize, w: usize, v: u64)
        requires
            old(self).wf(),
            p < old(self).num_pages(),
            w < 512,
        ensures
            final(self).wf(),
            final(self).heap_start() == old(self).heap_start(),
            final(self).heap_size() == old(self).heap_size(),
            final(self).alloc_start() == old(self).alloc_start(),
            final(self).descs() == old(self).descs(),
            final(self).mem() == old(self).mem().update(p * 512 + w, v),
    {
        proof {
            assert(p * 512 + w < self.num_pages() * 512) by (nonlinear_arith)
                requires p < self.num_pages() && w < 512;
        }
        self.words[p * WORDS_PER_PAGE + w] = v;
    }

    /// Read byte `off` of page `p`.
    pub fn read_page_byte(&self, p: usize, off: usize) -> (r: u8)
        requires
            self.wf(),
            p < self.num_pages(),
            off < 4096,
        ensures
            r == byte_of_word(self.mem()[p * 512 + off / 8], off % 8),
    {
        proof {
            assert(off / 8 < 512) by (nonlinear_arith)
                requires off < 4096;
        }
        let word = self.read_page_word(p, off / 8);
        let sh = (off % 8) * 8;
        ((word >> (sh as u64)) & 0xff) as u8
    }

    /// The address of page `p`.
    pub fn page_address(&self, p: usize) -> (r: usize)
        requires
            self.wf(),
            p < self.num_pages(),
        ensures
            r == self.page_addr(p as int),
    {
        proof {
            assert(4096 * p <= 4096 * self.num_pages()) by (nonlinear_arith)
                requires p <= self.num_pages();
        }
        self.alloc_start + PAGE_SIZE * p
    }
}

/// Byte `k` (0 = least significant) of a 64-bit word.
pub open spec fn byte_of_word(wd: u64, k: usize) -> u8 {
    ((wd >> ((k * 8) as u64)) & 0xff) as u8
}

/// Every byte of a zero word reads as zero.
pub proof fn lemma_zero_word_byte(k: usize)
    ensures
        byte_of_word(0, k) == 0,
{
    let sh = (k * 8) as u64;
    assert((0u64 >> sh) & 0xff == 0) by (bit_vector);
}

} // verus!

