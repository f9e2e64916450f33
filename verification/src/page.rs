use vstd::prelude::*;

verus! {

/// Pages are 2^PAGE_ORDER bytes long.
pub const PAGE_ORDER: u64 = 12;

pub const PAGE_SIZE: u64 = 4096;

/// Number of 64-bit words in one page.
pub const WORDS_PER_PAGE: u64 = 512;

/// Rounds `val` up to the next multiple of 2^order.
pub fn align_val(val: u64, order: u64) -> (r: u64)
    requires
        order < 64,
        val + ((1u64 << order) - 1) <= u64::MAX,
    ensures
        r % (1u64 << order) == 0,
        val <= r,
        r - val < (1u64 << order),
{
    assert(1u64 << order >= 1) by (bit_vector)
        requires
            order < 64,
    ;
    let o: u64 = (1u64 << order) - 1;
    let r = (val + o) & !o;
    assert(r & o == 0 && val <= r && r - val <= o) by (bit_vector)
        requires
            val + o <= u64::MAX,
            r == ((val + o) as u64) & !o,
    ;
    proof {
        vstd::bits::lemma_u64_pow2_no_overflow(order as nat);
        vstd::bits::lemma_u64_shl_is_mul(1, order);
        vstd::bits::lemma_u64_low_bits_mask_is_mod(r, order as nat);
    }
    r
}

/// Flags kept in a page descriptor.
#[derive(Clone, Copy, Debug, PartialEq, Eq, Structural)]
pub enum PageDescriptorBits {
    Empty,
    Taken,
    Last,
}

impl PageDescriptorBits {
    pub open spec fn spec_val(self) -> u8 {
        match self {
            PageDescriptorBits::Empty => 0,
            PageDescriptorBits::Taken => 1,
            PageDescriptorBits::Last => 2,
        }
    }

    pub fn val(self) -> (r: u8)
        ensures
            r == self.spec_val(),
    {
        match self {
            PageDescriptorBits::Empty => 0,
            PageDescriptorBits::Taken => 1,
            PageDescriptorBits::Last => 2,
        }
    }
}

/// The bookkeeping byte of one page of the heap.
#[derive(Clone, Copy)]
pub struct PageDescriptor {
    flags: u8,
}

impl View for PageDescriptor {
    type V = u8;

    closed spec fn view(&self) -> u8 {
        self.flags
    }
}

impl PageDescriptor {
    pub fn is_last(&self) -> (r: bool)
        ensures
            r == (self@ & 2 != 0),
    {
        if self.flags & PageDescriptorBits::Last.val() != 0 {
            true
        } else {
            false
        }
    }

    pub fn is_taken(&self) -> (r: bool)
        ensures
            r == (self@ & 1 != 0),
    {
        if self.flags & PageDescriptorBits::Taken.val() != 0 {
            true
        } else {
            false
        }
    }

    pub fn is_free(&self) -> (r: bool)
        ensures
            r == (self@ & 1 == 0),
    {
        !self.is_taken()
    }

    pub fn clear(&mut self)
        ensures
            final(self)@ == 0,
    {
        self.flags = PageDescriptorBits::Empty.val();
    }

    pub fn set_flag(&mut self, flag: PageDescriptorBits)
        ensures
            final(self)@ == old(self)@ | flag.spec_val(),
    {
        self.flags = self.flags | flag.val();
    }
}

/// The values a descriptor takes in a heap that only this module has touched:
/// free, taken (the run goes on), taken and last page of its run.
pub open spec fn flag_ok(f: u8) -> bool {
    f == 0 || f == 1 || f == 3
}

pub proof fn lemma_flag_bits(f: u8)
    requires
        flag_ok(f),
    ensures
        (f & 1 != 0) <==> f != 0,
        (f & 2 != 0) <==> f == 3,
        f | 1 == (if f == 0 { 1u8 } else { f }),
        (f | 1) | 2 == 3,
{
    assert((f & 1 != 0) <==> f != 0) by (bit_vector)
        requires
            f == 0 || f == 1 || f == 3,
    ;
    assert((f & 2 != 0) <==> f == 3) by (bit_vector)
        requires
            f == 0 || f == 1 || f == 3,
    ;
    assert(f | 1 == (if f == 0 { 1u8 } else { f })) by (bit_vector)
        requires
            f == 0 || f == 1 || f == 3,
    ;
    assert((f | 1) | 2 == 3) by (bit_vector)
        requires
            f == 0 || f == 1 || f == 3,
    ;
}

/// Pages `i .. i + pages` are all free.
pub open spec fn fits(d: Seq<u8>, i: int, pages: int) -> bool {
    forall|k: int| i <= k < i + pages ==> d[k] == 0
}

/// `i` is the start that a first-fit search for `pages` pages picks: the search
/// looks at the starts `0 .. len - pages` (the last page is never a start).
pub open spec fn first_fit(d: Seq<u8>, pages: int, i: int) -> bool {
    &&& 0 <= i < d.len() - pages
    &&& fits(d, i, pages)
    &&& forall|j: int| 0 <= j < i ==> !fits(d, j, pages)
}

/// No start in `0 .. len - pages` has room for `pages` pages.
pub open spec fn no_fit(d: Seq<u8>, pages: int) -> bool {
    forall|j: int| 0 <= j < d.len() - pages ==> !fits(d, j, pages)
}

/// The descriptors after the run `i .. i + pages` is taken: all pages taken, the last marked last.
pub open spec fn mark_run(d: Seq<u8>, i: int, pages: int) -> Seq<u8> {
    Seq::new(
        d.len(),
        |k: int|
            if i <= k < i + pages - 1 {
                1u8
            } else if k == i + pages - 1 {
                3u8
            } else {
                d[k]
            },
    )
}

/// From `i` on the descriptors are taken and reach the last page of their run at `e`.
pub open spec fn run_to(d: Seq<u8>, i: int, e: int) -> bool {
    &&& 0 <= i <= e < d.len()
    &&& d[e] == 3
    &&& forall|k: int| i <= k < e ==> d[k] == 1
}

/// The descriptors after pages `i ..= e` are given back.
pub open spec fn clear_run(d: Seq<u8>, i: int, e: int) -> Seq<u8> {
    Seq::new(d.len(), |k: int| if i <= k <= e { 0u8 } else { d[k] })
}

/// Every taken page that is not the last of its run is followed by a taken page.
pub open spec fn runs_closed(d: Seq<u8>) -> bool {
    forall|i: int| 0 <= i < d.len() && #[trigger] d[i] == 1 ==> i + 1 < d.len() && d[i + 1] != 0
}

/// Number of free pages among the first `m`.
pub open spec fn free_count(d: Seq<u8>, m: int) -> nat
    decreases m,
{
    if m <= 0 {
        0
    } else {
        free_count(d, m - 1) + if d[m - 1] == 0 {
            1nat
        } else {
            0nat
        }
    }
}

/// Word `w` of page `p` lies inside the words of `n` pages.
pub proof fn lemma_word_index(p: int, w: int, n: int)
    requires
        0 <= p < n,
        0 <= w < WORDS_PER_PAGE,
    ensures
        0 <= p * WORDS_PER_PAGE + w < n * WORDS_PER_PAGE,
{
    assert(p * 512 + w < n * 512) by (nonlinear_arith)
        requires
            0 <= p < n,
            0 <= w < 512,
    ;
}

/// The page heap: one descriptor per page, followed by the pages themselves, whose
/// contents are held word by word.
pub struct PageAllocator {
    heap_start: u64,
    heap_size: u64,
    alloc_start: u64,
    descriptors: Vec<PageDescriptor>,
    memory: Vec<u64>,
}

impl PageAllocator {
    pub closed spec fn heap_start(&self) -> u64 {
        self.heap_start
    }

    pub closed spec fn heap_size(&self) -> u64 {
        self.heap_size
    }

    /// Address of the first allocatable page.
    pub closed spec fn alloc_start(&self) -> u64 {
        self.alloc_start
    }

    pub closed spec fn flags(&self) -> Seq<u8> {
        self.descriptors@.map_values(|d: PageDescriptor| d@)
    }

    /// The words of the allocatable pages, page after page.
    pub closed spec fn mem(&self) -> Seq<u64> {
        self.memory@
    }

    pub open spec fn num_pages(&self) -> int {
        self.flags().len() as int
    }

    /// The page that address `addr` falls in.
    pub open spec fn page_index(&self, addr: int) -> int {
        (addr - self.alloc_start()) / (PAGE_SIZE as int)
    }

    /// Address of page `i`.
    pub open spec fn page_addr(&self, i: int) -> int {
        self.alloc_start() + PAGE_SIZE * i
    }

    pub open spec fn wf(&self) -> bool {
        &&& self.num_pages() == self.heap_size() / PAGE_SIZE
        &&& self.mem().len() == self.num_pages() * WORDS_PER_PAGE
        &&& self.mem().len() <= usize::MAX
        &&& self.alloc_start() % PAGE_SIZE == 0
        &&& self.heap_start() + self.num_pages() <= self.alloc_start()
        &&& self.alloc_start() + PAGE_SIZE * self.num_pages() <= u64::MAX
        &&& forall|i: int| 0 <= i < self.num_pages() ==> flag_ok(#[trigger] self.flags()[i])
    }

    /// What stays fixed while the heap is used.
    pub open spec fn same_layout(&self, other: &PageAllocator) -> bool {
        &&& self.heap_start() == other.heap_start()
        &&& self.heap_size() == other.heap_size()
        &&& self.alloc_start() == other.alloc_start()
        &&& self.num_pages() == other.num_pages()
    }

    pub fn get_heap_start(&self) -> (r: u64)
        ensures
            r == self.heap_start(),
    {
        self.heap_start
    }

    pub fn get_heap_size(&self) -> (r: u64)
        ensures
            r == self.heap_size(),
    {
        self.heap_size
    }

    pub fn get_alloc_start(&self) -> (r: u64)
        ensures
            r == self.alloc_start(),
    {
        self.alloc_start
    }

    pub fn num_pages_exec(&self) -> (r: u64)
        requires
            self.wf(),
        ensures
            r == self.num_pages(),
    {
        self.descriptors.len() as u64
    }

    /// The descriptor of page `i`.
    pub fn descriptor(&self, i: u64) -> (r: PageDescriptor)
        requires
            i < self.num_pages(),
        ensures
            r@ == self.flags()[i as int],
    {
        let len = self.descriptors.len();
        self.descriptors[i as usize]
    }

    /// Word `w` of page `p`.
    pub fn read_word(&self, p: u64, w: u64) -> (r: u64)
        requires
            self.wf(),
            p < self.num_pages(),
            w < WORDS_PER_PAGE,
        ensures
            r == self.mem()[p * WORDS_PER_PAGE + w],
    {
        proof {
            lemma_word_index(p as int, w as int, self.num_pages());
        }
        let len = self.memory.len();
        self.memory[(p * WORDS_PER_PAGE + w) as usize]
    }

    /// Sets word `w` of page `p`.
    pub fn write_word(&mut self, p: u64, w: u64, v: u64)
        requires
            old(self).wf(),
            p < old(self).num_pages(),
            w < WORDS_PER_PAGE,
        ensures
            final(self).wf(),
            final(self).same_layout(&*old(self)),
            final(self).flags() == old(self).flags(),
            final(self).mem() == old(self).mem().update(p * WORDS_PER_PAGE + w, v),
    {
        proof {
            lemma_word_index(p as int, w as int, self.num_pages());
        }
        let len = self.memory.len();
        let idx = (p * WORDS_PER_PAGE + w) as usize;
        self.memory[idx] = v;
        assert(self.flags() =~= old(self).flags());
    }
}

/// Sets up the heap at `heap_start` of `heap_size` bytes: every page free. The
/// pages start at the first page boundary after the descriptors; their contents
/// start out as zeros.
pub fn init(heap_start: u64, heap_size: u64) -> (r: PageAllocator)
    requires
        heap_start + heap_size / PAGE_SIZE + PAGE_SIZE + PAGE_SIZE * (heap_size / PAGE_SIZE)
            <= u64::MAX,
        heap_size / 8 <= usize::MAX,
    ensures
        r.wf(),
        r.heap_start() == heap_start,
        r.heap_size() == heap_size,
        r.num_pages() == heap_size / PAGE_SIZE,
        r.alloc_start() % PAGE_SIZE == 0,
        heap_start + heap_size / PAGE_SIZE <= r.alloc_start(),
        r.alloc_start() < heap_start + heap_size / PAGE_SIZE + PAGE_SIZE,
        forall|i: int| 0 <= i < r.num_pages() ==> #[trigger] r.flags()[i] == 0,
        forall|i: int| 0 <= i < r.mem().len() ==> #[trigger] r.mem()[i] == 0,
        runs_closed(r.flags()),
{
    let num_pages = heap_size / PAGE_SIZE;
    let mut descriptors: Vec<PageDescriptor> = Vec::new();
    let mut i: u64 = 0;
    while i < num_pages
        invariant
            i <= num_pages,
            num_pages == heap_size / PAGE_SIZE,
            descriptors@.len() == i,
            forall|k: int| 0 <= k < i ==> #[trigger] descriptors@[k]@ == 0,
        decreases num_pages - i,
    {
        let mut d = PageDescriptor { flags: 1 };
        d.clear();
        descriptors.push(d);
        i = i + 1;
    }
    let words = (num_pages * WORDS_PER_PAGE) as usize;
    let mut memory: Vec<u64> = Vec::new();
    let mut j: usize = 0;
    while j < words
        invariant
            j <= words,
            memory@.len() == j,
            forall|k: int| 0 <= k < j ==> #[trigger] memory@[k] == 0,
        decreases words - j,
    {
        memory.push(0);
        j = j + 1;
    }
    assert(1u64 << 12u64 == 4096) by (bit_vector);
    let alloc_start = align_val(heap_start + num_pages, PAGE_ORDER);
    let mlen = memory.len();
    let r = PageAllocator { heap_start, heap_size, alloc_start, descriptors, memory };
    assert(r.flags().len() == num_pages);
    assert forall|k: int| 0 <= k < r.num_pages() implies #[trigger] r.flags()[k] == 0 by {
        assert(r.flags()[k] == descriptors@[k]@);
    }
    r
}

/// Pages `i .. i + pages` of the memory `m` set to zero.
pub open spec fn zero_pages(m: Seq<u64>, i: int, pages: int) -> Seq<u64> {
    Seq::new(
        m.len(),
        |k: int|
            if i * WORDS_PER_PAGE <= k < (i + pages) * WORDS_PER_PAGE {
                0u64
            } else {
                m[k]
            },
    )
}

/// Takes the first run of `pages` free pages that starts before the last page:
/// all of them become taken and the last one is marked as the end of the run.
/// Gives the address of the first page, or 0 when no such run exists.
pub fn alloc_pages(heap: &mut PageAllocator, pages: u64) -> (r: u64)
    requires
        old(heap).wf(),
        0 < pages <= old(heap).num_pages(),
    ensures
        final(heap).wf(),
        final(heap).same_layout(&*old(heap)),
        final(heap).mem() == old(heap).mem(),
        r == 0 <==> no_fit(old(heap).flags(), pages as int),
        r == 0 ==> final(heap).flags() == old(heap).flags(),
        r != 0 ==> exists|i: int|
            #![trigger first_fit(old(heap).flags(), pages as int, i)]
            {
                &&& first_fit(old(heap).flags(), pages as int, i)
                &&& r == old(heap).page_addr(i)
                &&& final(heap).flags() == mark_run(old(heap).flags(), i, pages as int)
            },
        runs_closed(old(heap).flags()) ==> runs_closed(final(heap).flags()),
{
    let n = heap.descriptors.len() as u64;
    let ghost d = heap.flags();
    let mut i: u64 = 0;
    while i < n - pages
        invariant
            heap.wf(),
            heap.flags() == d,
            heap.mem() == old(heap).mem(),
            heap.same_layout(&*old(heap)),
            d == old(heap).flags(),
            n == heap.num_pages(),
            n == heap.descriptors@.len(),
            0 < pages <= n,
            i <= n - pages,
            forall|j: int| 0 <= j < i ==> !fits(d, j, pages as int),
        decreases n - pages - i,
    {
        let mut found = false;
        proof {
            lemma_flag_bits(d[i as int]);
            assert(d[i as int] == heap.descriptors@[i as int]@);
        }
        if heap.descriptors[i as usize].is_free() {
            found = true;
            let mut j = i;
            while j < i + pages && found
                invariant
                    heap.wf(),
                    heap.flags() == d,
                    n == heap.num_pages(),
                    n == heap.descriptors@.len(),
                    i + pages < n,
                    i <= j <= i + pages,
                    found ==> forall|k: int| i <= k < j ==> d[k] == 0,
                    !found ==> !fits(d, i as int, pages as int),
                decreases i + pages - j + if found { 1int } else { 0int },
            {
                proof {
                    lemma_flag_bits(d[j as int]);
                    assert(d[j as int] == heap.descriptors@[j as int]@);
                }
                if heap.descriptors[j as usize].is_taken() {
                    found = false;
                } else {
                    j = j + 1;
                }
            }
        } else {
            assert(!fits(d, i as int, pages as int));
        }
        if found {
            let mut k = i;
            while k < i + pages - 1
                invariant
                    heap.wf(),
                    heap.same_layout(&*old(heap)),
                    heap.mem() == old(heap).mem(),
                    n == heap.num_pages(),
                    i + pages < n,
                    fits(d, i as int, pages as int),
                    i <= k <= i + pages - 1,
                    forall|m: int|
                        0 <= m < n ==> #[trigger] heap.flags()[m] == if i <= m < k {
                            1u8
                        } else {
                            d[m]
                        },
                decreases i + pages - 1 - k,
            {
                proof {
                    lemma_flag_bits(d[k as int]);
                    assert(heap.flags()[k as int] == heap.descriptors@[k as int]@);
                }
                let ghost prev = heap.flags();
                let ghost prevd = heap.descriptors@;
                heap.descriptors[k as usize].set_flag(PageDescriptorBits::Taken);
                assert(heap.descriptors@[k as int]@ == 1u8);
                assert(heap.descriptors@ =~= prevd.update(k as int, heap.descriptors@[k as int]));
                assert(heap.flags() =~= prev.update(k as int, 1u8));
                k = k + 1;
            }
            let last = (i + pages - 1) as usize;
            proof {
                lemma_flag_bits(d[last as int]);
                assert(heap.flags()[last as int] == heap.descriptors@[last as int]@);
            }
            let ghost prev = heap.flags();
            heap.descriptors[last].set_flag(PageDescriptorBits::Taken);
            heap.descriptors[last].set_flag(PageDescriptorBits::Last);
            assert(heap.flags() =~= prev.update(last as int, 3u8));
            assert(heap.flags() =~= mark_run(d, i as int, pages as int));
            assert(first_fit(d, pages as int, i as int));
            return heap.alloc_start + PAGE_SIZE * i;
        }
        i = i + 1;
    }
    0
}

/// Like `alloc_pages`, and the pages handed out are filled with zeros.
pub fn zalloc(heap: &mut PageAllocator, pages: u64) -> (r: u64)
    requires
        old(heap).wf(),
        0 < pages <= old(heap).num_pages(),
    ensures
        final(heap).wf(),
        final(heap).same_layout(&*old(heap)),
        r == 0 <==> no_fit(old(heap).flags(), pages as int),
        r == 0 ==> final(heap).flags() == old(heap).flags() && final(heap).mem() == old(heap).mem(),
        r != 0 ==> exists|i: int|
            #![trigger first_fit(old(heap).flags(), pages as int, i)]
            {
                &&& first_fit(old(heap).flags(), pages as int, i)
                &&& r == old(heap).page_addr(i)
                &&& final(heap).flags() == mark_run(old(heap).flags(), i, pages as int)
                &&& final(heap).mem() == zero_pages(old(heap).mem(), i, pages as int)
            },
        runs_closed(old(heap).flags()) ==> runs_closed(final(heap).flags()),
{
    let allocated = alloc_pages(heap, pages);
    if allocated != 0 {
        let ghost i = choose|i: int|
            #![trigger first_fit(old(heap).flags(), pages as int, i)]
            {
                &&& first_fit(old(heap).flags(), pages as int, i)
                &&& allocated == old(heap).page_addr(i)
                &&& heap.flags() == mark_run(old(heap).flags(), i, pages as int)
            };
        let p = (allocated - heap.alloc_start) / PAGE_SIZE;
        assert(p == i);
        let size = (PAGE_SIZE * pages) / 8;
        assert(size == WORDS_PER_PAGE * pages);
        let ghost m0 = heap.mem();
        let mut w: u64 = 0;
        while w < size
            invariant
                heap.wf(),
                heap.same_layout(&*old(heap)),
                heap.flags() == mark_run(old(heap).flags(), i, pages as int),
                m0 == old(heap).mem(),
                p == i,
                0 <= i < heap.num_pages() - pages,
                size == WORDS_PER_PAGE * pages,
                w <= size,
                heap.mem().len() == m0.len(),
                forall|k: int|
                    0 <= k < m0.len() ==> #[trigger] heap.mem()[k] == if p * WORDS_PER_PAGE <= k
                        < p * WORDS_PER_PAGE + w {
                        0u64
                    } else {
                        m0[k]
                    },
            decreases size - w,
        {
            proof {
                assert(p * 512 + w < heap.num_pages() * 512) by (nonlinear_arith)
                    requires
                        p + pages < heap.num_pages(),
                        w < 512 * pages,
                ;
            }
            let len = heap.memory.len();
            let idx = (p * WORDS_PER_PAGE + w) as usize;
            heap.memory[idx] = 0;
            w = w + 1;
        }
        assert(heap.mem() =~= zero_pages(m0, i, pages as int));
    }
    allocated
}

/// Gives back the pages from the one at `ptr` up to the end of its run.
pub fn dealloc(heap: &mut PageAllocator, ptr: u64)
    requires
        old(heap).wf(),
        ptr != 0,
        old(heap).alloc_start() <= ptr,
        old(heap).page_index(ptr as int) < old(heap).num_pages(),
        exists|e: int|
            run_to(old(heap).flags(), old(heap).page_index(ptr as int), e),
    ensures
        final(heap).wf(),
        final(heap).same_layout(&*old(heap)),
        final(heap).mem() == old(heap).mem(),
        exists|e: int|
            {
                &&& #[trigger] run_to(old(heap).flags(), old(heap).page_index(ptr as int), e)
                &&& final(heap).flags() == clear_run(
                    old(heap).flags(),
                    old(heap).page_index(ptr as int),
                    e,
                )
            },
        ({
            let i = old(heap).page_index(ptr as int);
            runs_closed(old(heap).flags()) && (i == 0 || old(heap).flags()[i - 1] != 1)
                ==> runs_closed(final(heap).flags())
        }),
{
    let idx = (ptr - heap.alloc_start) / PAGE_SIZE;
    let ghost d = heap.flags();
    let ghost e = choose|e: int| run_to(d, idx as int, e);
    let mut p = idx;
    proof {
        lemma_flag_bits(d[p as int]);
        assert(d[p as int] == heap.descriptors@[p as int]@);
    }
    while heap.descriptors[p as usize].is_taken() && !heap.descriptors[p as usize].is_last()
        invariant
            heap.wf(),
            heap.same_layout(&*old(heap)),
            heap.mem() == old(heap).mem(),
            d == old(heap).flags(),
            run_to(d, idx as int, e),
            idx <= p <= e,
            heap.num_pages() == heap.descriptors@.len(),
            heap.flags()[p as int] == heap.descriptors@[p as int]@,
            forall|k: int|
                0 <= k < heap.num_pages() ==> #[trigger] heap.flags()[k] == if idx <= k < p {
                    0u8
                } else {
                    d[k]
                },
        decreases e - p,
    {
        proof {
            lemma_flag_bits(d[p as int]);
        }
        let ghost prev = heap.flags();
        let ghost prevd = heap.descriptors@;
        heap.descriptors[p as usize].clear();
        assert(heap.descriptors@ =~= prevd.update(p as int, heap.descriptors@[p as int]));
        assert(heap.flags() =~= prev.update(p as int, 0u8));
        p = p + 1;
        proof {
            lemma_flag_bits(d[p as int]);
            assert(heap.flags()[p as int] == heap.descriptors@[p as int]@);
        }
    }
    proof {
        lemma_flag_bits(d[p as int]);
    }
    assert(p == e);
    let ghost prev = heap.flags();
    let ghost prevd = heap.descriptors@;
    heap.descriptors[p as usize].clear();
    assert(heap.descriptors@ =~= prevd.update(p as int, heap.descriptors@[p as int]));
    assert(heap.flags() =~= prev.update(p as int, 0u8));
    assert(heap.flags() =~= clear_run(d, idx as int, e));
}

/// A single free page among the first `m` exists exactly when the count of free pages there is positive.
pub proof fn lemma_free_count_zero(d: Seq<u8>, m: int)
    requires
        0 <= m <= d.len(),
    ensures
        free_count(d, m) == 0 <==> forall|k: int| 0 <= k < m ==> d[k] != 0,
    decreases m,
{
    if m > 0 {
        lemma_free_count_zero(d, m - 1);
    }
}

/// Taking one free page among the first `m` lowers their free count by one.
pub proof fn lemma_free_count_take(d: Seq<u8>, f: int, m: int)
    requires
        0 <= f < m <= d.len(),
        d[f] == 0,
    ensures
        free_count(mark_run(d, f, 1), m) + 1 == free_count(d, m),
    decreases m,
{
    let d2 = mark_run(d, f, 1);
    if m - 1 > f {
        lemma_free_count_take(d, f, m - 1);
    } else {
        lemma_free_count_same(d, d2, m - 1);
    }
}

/// Two descriptor sequences that agree on the first `m` pages have the same free count there.
pub proof fn lemma_free_count_same(d1: Seq<u8>, d2: Seq<u8>, m: int)
    requires
        0 <= m <= d1.len(),
        m <= d2.len(),
        forall|k: int| 0 <= k < m ==> d1[k] == d2[k],
    ensures
        free_count(d1, m) == free_count(d2, m),
    decreases m,
{
    if m > 0 {
        lemma_free_count_same(d1, d2, m - 1);
    }
}

/// A search for one page fails exactly when no page but the last is free.
pub proof fn lemma_no_fit_one(d: Seq<u8>)
    requires
        d.len() >= 1,
    ensures
        no_fit(d, 1) <==> free_count(d, d.len() - 1) == 0,
{
    lemma_free_count_zero(d, d.len() - 1);
    if no_fit(d, 1) {
        assert forall|k: int| 0 <= k < d.len() - 1 implies d[k] != 0 by {
            assert(!fits(d, k, 1));
        }
    }
    if free_count(d, d.len() - 1) == 0 {
        assert forall|j: int| 0 <= j < d.len() - 1 implies !fits(d, j, 1) by {
            assert(d[j] != 0);
        }
    }
}

/// Page `p` belongs to one of the runs `runs`.
pub open spec fn covered(runs: Seq<(u64, u64)>, p: int) -> bool {
    exists|k: int| 0 <= k < runs.len() && #[trigger] runs[k].0 <= p <= runs[k].1
}

pub proof fn lemma_covered_push(runs: Seq<(u64, u64)>, r: (u64, u64), p: int)
    ensures
        covered(runs.push(r), p) <==> covered(runs, p) || (r.0 <= p <= r.1),
{
    let runs2 = runs.push(r);
    if covered(runs, p) {
        let k = choose|k: int| 0 <= k < runs.len() && #[trigger] runs[k].0 <= p <= runs[k].1;
        assert(runs2[k] == runs[k]);
        assert(runs2[k].0 <= p <= runs2[k].1);
    }
    if r.0 <= p <= r.1 {
        assert(runs2[runs.len() as int] == r);
        assert(runs2[runs.len() as int].0 <= p <= runs2[runs.len() as int].1);
    }
    if covered(runs2, p) {
        let k = choose|k: int| 0 <= k < runs2.len() && #[trigger] runs2[k].0 <= p <= runs2[k].1;
        if k < runs.len() {
            assert(runs2[k] == runs[k]);
            assert(runs[k].0 <= p <= runs[k].1);
        }
    }
}

/// `runs` lists, in address order, the runs of taken pages of `d`: each is a
/// stretch of taken pages closed by a last page, and they hold every taken page.
pub open spec fn runs_of(d: Seq<u8>, runs: Seq<(u64, u64)>) -> bool {
    &&& forall|k: int| 0 <= k < runs.len() ==> run_to(d, #[trigger] runs[k].0 as int, runs[k].1 as int)
    &&& forall|k: int| 0 <= k < runs.len() - 1 ==> #[trigger] runs[k].1 < runs[k + 1].0
    &&& forall|p: int| 0 <= p < d.len() ==> (d[p] != 0 <==> covered(runs, p))
}

/// The first page from `b` on that is marked as the last of its run, or the
/// last page of the table when none is.
#[verifier::opaque]
pub open spec fn next_last(d: Seq<u8>, b: int) -> int
    decreases d.len() - b,
{
    if b < 0 || b >= d.len() - 1 || d[b] == 3 {
        b
    } else {
        next_last(d, b + 1)
    }
}

pub proof fn lemma_next_last(d: Seq<u8>, b: int)
    requires
        0 <= b < d.len(),
    ensures
        b <= next_last(d, b) < d.len(),
        d[next_last(d, b)] == 3 || next_last(d, b) == d.len() - 1,
        forall|k: int| b <= k < next_last(d, b) ==> d[k] != 3,
    decreases d.len() - b,
{
    reveal(next_last);
    if !(b >= d.len() - 1 || d[b] == 3) {
        lemma_next_last(d, b + 1);
    }
}

/// Where the search for the next last page stops or moves on.
pub proof fn lemma_next_last_step(d: Seq<u8>, b: int)
    requires
        0 <= b < d.len(),
    ensures
        (b == d.len() - 1 || d[b] == 3) ==> next_last(d, b) == b,
        (b < d.len() - 1 && d[b] != 3) ==> next_last(d, b) == next_last(d, b + 1),
{
    reveal(next_last);
}

/// Reading the table at a free page goes on at the next one.
pub proof fn lemma_report_free(d: Seq<u8>, b: int)
    requires
        0 <= b < d.len(),
        d[b] == 0,
    ensures
        report_from(d, b) == report_from(d, b + 1),
{
    reveal(report_from);
}

/// Reading the table at a taken page gives the run up to the next last page.
pub proof fn lemma_report_taken(d: Seq<u8>, b: int)
    requires
        0 <= b < d.len(),
        d[b] != 0,
    ensures
        report_from(d, b) == seq![(b as u64, next_last(d, b) as u64)] + report_from(d, next_last(d, b) + 1),
{
    reveal(report_from);
}

/// Past the end of the table there is nothing to read.
pub proof fn lemma_report_end(d: Seq<u8>)
    ensures
        report_from(d, d.len() as int) == Seq::<(u64, u64)>::empty(),
{
    reveal(report_from);
}

/// The report of the pages from `b` on, as the allocation table is read: a run
/// starts at a taken page and goes on, over whatever pages follow, to the next
/// page marked last, or to the end of the table; the reading goes on after it.
#[verifier::opaque]
pub open spec fn report_from(d: Seq<u8>, b: int) -> Seq<(u64, u64)>
    decreases d.len() - b,
{
    if b < 0 || b >= d.len() {
        Seq::empty()
    } else if d[b] == 0 {
        report_from(d, b + 1)
    } else {
        proof {
            lemma_next_last(d, b);
        }
        seq![(b as u64, next_last(d, b) as u64)] + report_from(d, next_last(d, b) + 1)
    }
}

/// The pages that the runs `runs` span together.
pub open spec fn pages_in(runs: Seq<(u64, u64)>) -> int
    decreases runs.len(),
{
    if runs.len() == 0 {
        0
    } else {
        pages_in(runs.drop_last()) + runs.last().1 - runs.last().0 + 1
    }
}

/// The allocations of the heap as the allocation table reads them: its runs
/// (first and last page of each) and how many pages they span together. When
/// every run is closed by its last page these are exactly the runs of taken
/// pages and the number of taken pages.
pub fn page_allocations(heap: &PageAllocator) -> (r: (Vec<(u64, u64)>, u64))
    requires
        heap.wf(),
    ensures
        r.0@ == report_from(heap.flags(), 0),
        r.1 == pages_in(r.0@),
        runs_closed(heap.flags()) ==> runs_of(heap.flags(), r.0@),
        runs_closed(heap.flags()) ==> r.1 == heap.num_pages() - free_count(heap.flags(), heap.num_pages()),
{
    let n = heap.descriptors.len() as u64;
    let ghost d = heap.flags();
    let mut runs: Vec<(u64, u64)> = Vec::new();
    let mut num: u64 = 0;
    let mut beg: u64 = 0;
    while beg < n
        invariant
            heap.wf(),
            d == heap.flags(),
            n == heap.num_pages(),
            n == heap.descriptors@.len(),
            beg <= n,
            runs@ + report_from(d, beg as int) == report_from(d, 0),
            num == pages_in(runs@),
            num <= beg,
            runs_closed(d) ==> num == beg - free_count(d, beg as int),
            runs_closed(d) ==> forall|k: int|
                0 <= k < runs@.len() ==> run_to(d, #[trigger] runs@[k].0 as int, runs@[k].1 as int),
            runs_closed(d) ==> forall|k: int|
                0 <= k < runs@.len() - 1 ==> #[trigger] runs@[k].1 < runs@[k + 1].0,
            forall|k: int| 0 <= k < runs@.len() ==> #[trigger] runs@[k].1 < beg,
            runs_closed(d) ==> forall|p: int| 0 <= p < beg ==> (d[p] != 0 <==> covered(runs@, p)),
        decreases n - beg,
    {
        proof {
            lemma_flag_bits(d[beg as int]);
            assert(d[beg as int] == heap.descriptors@[beg as int]@);
        }
        if heap.descriptors[beg as usize].is_taken() {
            let start = beg;
            proof {
                lemma_next_last(d, start as int);
            }
            while beg + 1 < n && !heap.descriptors[beg as usize].is_last()
                invariant
                    heap.wf(),
                    d == heap.flags(),
                    n == heap.num_pages(),
                    n == heap.descriptors@.len(),
                    start <= beg < n,
                    d[start as int] != 0,
                    forall|k: int| start <= k < beg ==> d[k] != 3,
                    next_last(d, start as int) == next_last(d, beg as int),
                    runs_closed(d) ==> d[beg as int] != 0,
                    runs_closed(d) ==> forall|k: int| start <= k < beg ==> d[k] == 1,
                    runs_closed(d) ==> free_count(d, beg as int) == free_count(d, start as int),
                decreases n - beg,
            {
                proof {
                    lemma_flag_bits(d[beg as int]);
                    assert(d[beg as int] == heap.descriptors@[beg as int]@);
                    assert(d[beg as int] != 3);
                    lemma_next_last_step(d, beg as int);
                }
                beg = beg + 1;
            }
            proof {
                lemma_flag_bits(d[beg as int]);
                assert(d[beg as int] == heap.descriptors@[beg as int]@);
                lemma_next_last_step(d, beg as int);
                assert(next_last(d, beg as int) == beg);
                if runs_closed(d) {
                    assert(d[beg as int] == 3) by {
                        if d[beg as int] == 1 {
                            assert(beg + 1 < n);
                        }
                    }
                    assert(free_count(d, beg + 1) == free_count(d, start as int));
                }
            }
            num = num + (beg - start + 1);
            let ghost old_runs = runs@;
            runs.push((start, beg));
            proof {
                lemma_report_taken(d, start as int);
                assert(report_from(d, start as int) == seq![(start, beg)] + report_from(d, beg + 1));
                assert(runs@ + report_from(d, beg + 1) =~= old_runs + report_from(d, start as int));
                assert(runs@.drop_last() =~= old_runs);
                if runs_closed(d) {
                    assert forall|p: int| 0 <= p < beg + 1 implies (d[p] != 0 <==> covered(runs@, p)) by {
                        lemma_covered_push(old_runs, (start, beg), p);
                    }
                }
            }
        } else {
            proof {
                assert(free_count(d, beg + 1) == free_count(d, beg as int) + 1);
                lemma_report_free(d, beg as int);
                if covered(runs@, beg as int) {
                    let k = choose|k: int| 0 <= k < runs@.len() && #[trigger] runs@[k].0 <= beg <= runs@[k].1;
                    assert(runs@[k].1 < beg);
                }
            }
        }
        beg = beg + 1;
    }
    proof {
        lemma_report_end(d);
        assert(runs@ + report_from(d, n as int) =~= runs@);
    }
    (runs, num)
}

/// More pages cannot hold fewer free ones.
pub proof fn lemma_free_count_mono(d: Seq<u8>, m1: int, m2: int)
    requires
        m1 <= m2,
    ensures
        free_count(d, m1) <= free_count(d, m2),
    decreases m2 - m1,
{
    if m1 < m2 {
        lemma_free_count_mono(d, m1, m2 - 1);
    }
}

/// Whether at least `k` pages, the last page aside, are free.
pub fn spare_at_least(heap: &PageAllocator, k: u64) -> (r: bool)
    requires
        heap.wf(),
    ensures
        r == (free_count(heap.flags(), heap.num_pages() - 1) >= k),
{
    let n = heap.descriptors.len() as u64;
    if n == 0 {
        return k == 0;
    }
    let ghost d = heap.flags();
    let mut cnt: u64 = 0;
    let mut i: u64 = 0;
    if k == 0 {
        return true;
    }
    while i < n - 1
        invariant
            heap.wf(),
            d == heap.flags(),
            n == heap.num_pages(),
            n == heap.descriptors@.len(),
            n >= 1,
            i <= n - 1,
            cnt == free_count(d, i as int),
            cnt < k,
        decreases n - 1 - i,
    {
        proof {
            lemma_flag_bits(d[i as int]);
            assert(d[i as int] == heap.descriptors@[i as int]@);
        }
        if heap.descriptors[i as usize].is_free() {
            cnt = cnt + 1;
        }
        i = i + 1;
        if cnt >= k {
            proof {
                lemma_free_count_mono(d, i as int, n - 1);
            }
            return true;
        }
    }
    false
}

/// `hb` is `ha` after a first-fit allocation of `pages` pages that gave `r`
/// (0 when no run was found); with `zeroed` the pages were also filled with zeros.
pub open spec fn took_pages(ha: &PageAllocator, hb: &PageAllocator, pages: int, r: u64, zeroed: bool) -> bool {
    &&& hb.wf()
    &&& hb.same_layout(ha)
    &&& r == 0 <==> no_fit(ha.flags(), pages)
    &&& r == 0 ==> hb.flags() == ha.flags() && hb.mem() == ha.mem()
    &&& r != 0 ==> exists|i: int|
        #![trigger first_fit(ha.flags(), pages, i)]
        {
            &&& first_fit(ha.flags(), pages, i)
            &&& r == ha.page_addr(i)
            &&& hb.flags() == mark_run(ha.flags(), i, pages)
            &&& hb.mem() == if zeroed {
                zero_pages(ha.mem(), i, pages)
            } else {
                ha.mem()
            }
        }
}

/// Giving back a run right after it was taken restores the descriptors, and
/// the run taken is one that `dealloc` accepts.
pub proof fn lemma_alloc_dealloc(d: Seq<u8>, i: int, pages: int)
    requires
        0 < pages,
        0 <= i,
        i + pages <= d.len(),
        fits(d, i, pages),
    ensures
        run_to(mark_run(d, i, pages), i, i + pages - 1),
        clear_run(mark_run(d, i, pages), i, i + pages - 1) == d,
{
    assert(clear_run(mark_run(d, i, pages), i, i + pages - 1) =~= d);
}

} // verus!
