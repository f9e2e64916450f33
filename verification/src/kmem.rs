use vstd::prelude::*;
use crate::page::{
    first_fit, mark_run, no_fit, zalloc, zero_pages, PageAllocator, PAGE_SIZE, WORDS_PER_PAGE,
};

verus! {

/// Pages handed to the kernel's byte allocator at start.
pub const N_KMEM_ALLOC: u64 = 64;

/// The flag bits of an allocation header.
#[derive(Clone, Copy, Debug, PartialEq, Eq, Structural)]
pub enum AllocListFlags {
    Taken,
}

impl AllocListFlags {
    pub open spec fn spec_value(self) -> u64 {
        match self {
            AllocListFlags::Taken => 0x8000_0000_0000_0000,
        }
    }

    pub fn value(self) -> (r: u64)
        ensures
            r == self.spec_value(),
    {
        match self {
            AllocListFlags::Taken => 0x8000_0000_0000_0000,
        }
    }
}

/// The bit of an allocation header that `is_free` tests.
pub open spec fn taken_bit() -> u64 {
    0x8000_0000_0000_0000
}

/// An allocation header: its size and, in the top bit, its flag.
#[derive(Clone, Copy)]
pub struct AllocList {
    pub flags_size: u64,
}

impl AllocList {
    /// True when the top bit is set.
    pub fn is_free(&self) -> (r: bool)
        ensures
            r == (self.flags_size & taken_bit() != 0),
    {
        self.flags_size & AllocListFlags::Taken.value() != 0
    }

    /// True when the top bit is clear.
    pub fn is_taken(&self) -> (r: bool)
        ensures
            r == (self.flags_size & taken_bit() == 0),
    {
        !self.is_free()
    }

    /// Clears the top bit.
    pub fn set_free(&mut self)
        ensures
            final(self).flags_size == old(self).flags_size & !taken_bit(),
    {
        self.flags_size = self.flags_size & !AllocListFlags::Taken.value();
    }

    /// Stores `sz` below the top bit; the top bit ends up set exactly when it was clear.
    pub fn set_size(&mut self, sz: u64)
        ensures
            final(self).flags_size == if old(self).flags_size & taken_bit() == 0 {
                (sz & !taken_bit()) | taken_bit()
            } else {
                sz & !taken_bit()
            },
    {
        let k = self.is_taken();
        self.flags_size = sz & !AllocListFlags::Taken.value();
        if k {
            self.flags_size = self.flags_size | AllocListFlags::Taken.value();
        }
    }
}

/// The header that `init` writes at the start of the kernel's pages.
pub open spec fn first_header() -> u64 {
    0x8000_0000_0004_0000
}

/// The state of the kernel's byte allocator: the pages it was given, where its
/// first header lies and the page of its page table.
pub struct Kmem {
    n_alloc: u64,
    head: u64,
    page_table: u64,
}

impl Kmem {
    pub closed spec fn num_allocations(&self) -> u64 {
        self.n_alloc
    }

    pub closed spec fn head(&self) -> u64 {
        self.head
    }

    pub closed spec fn page_table(&self) -> u64 {
        self.page_table
    }
}

/// Address of the first allocation header.
pub fn get_head(k: &Kmem) -> (r: u64)
    ensures
        r == k.head(),
{
    k.head
}

/// Address of the kernel's page table.
pub fn get_page_table(k: &Kmem) -> (r: u64)
    ensures
        r == k.page_table(),
{
    k.page_table
}

/// Number of pages given to the byte allocator.
pub fn get_num_allocations(k: &Kmem) -> (r: u64)
    ensures
        r == k.num_allocations(),
{
    k.n_alloc
}

/// `hb` is `ha` after taking one zeroed page for the kernel's page table: the
/// result `r` is its address, or 0 when no page was free.
pub open spec fn took_table_page(ha: &PageAllocator, hb: &PageAllocator, r: u64) -> bool {
    &&& no_fit(ha.flags(), 1) ==> r == 0 && hb.flags() == ha.flags() && hb.mem() == ha.mem()
    &&& !no_fit(ha.flags(), 1) ==> exists|j: int|
        #![trigger first_fit(ha.flags(), 1, j)]
        {
            &&& first_fit(ha.flags(), 1, j)
            &&& r == ha.page_addr(j)
            &&& hb.flags() == mark_run(ha.flags(), j, 1)
            &&& hb.mem() == zero_pages(ha.mem(), j, 1)
        }
}

/// Gives the kernel 64 zeroed pages with one header covering all of them, and a
/// zeroed page for its page table.
pub fn init(heap: &mut PageAllocator) -> (k: Kmem)
    requires
        old(heap).wf(),
        N_KMEM_ALLOC <= old(heap).num_pages(),
        !no_fit(old(heap).flags(), N_KMEM_ALLOC as int),
    ensures
        final(heap).wf(),
        final(heap).same_layout(&*old(heap)),
        k.num_allocations() == N_KMEM_ALLOC,
        exists|i: int, h1: PageAllocator|
            #![trigger first_fit(old(heap).flags(), N_KMEM_ALLOC as int, i), h1.wf()]
            {
                &&& first_fit(old(heap).flags(), N_KMEM_ALLOC as int, i)
                &&& k.head() == old(heap).page_addr(i)
                &&& h1.wf()
                &&& h1.same_layout(&*old(heap))
                &&& h1.flags() == mark_run(old(heap).flags(), i, N_KMEM_ALLOC as int)
                &&& h1.mem() == zero_pages(old(heap).mem(), i, N_KMEM_ALLOC as int).update(
                    i * WORDS_PER_PAGE,
                    first_header(),
                )
                &&& took_table_page(&h1, &*final(heap), k.page_table())
            },
{
    let k_alloc = zalloc(heap, N_KMEM_ALLOC);
    let ghost i = choose|i: int|
        #![trigger first_fit(old(heap).flags(), N_KMEM_ALLOC as int, i)]
        {
            &&& first_fit(old(heap).flags(), N_KMEM_ALLOC as int, i)
            &&& k_alloc == old(heap).page_addr(i)
            &&& heap.flags() == mark_run(old(heap).flags(), i, N_KMEM_ALLOC as int)
            &&& heap.mem() == zero_pages(old(heap).mem(), i, N_KMEM_ALLOC as int)
        };
    let p = (k_alloc - heap.get_alloc_start()) / PAGE_SIZE;
    assert(p == i);
    let mut head = AllocList { flags_size: heap.read_word(p, 0) };
    assert(head.flags_size == 0);
    head.set_free();
    head.set_size(N_KMEM_ALLOC * PAGE_SIZE);
    let v = head.flags_size;
    assert(v == first_header()) by (bit_vector)
        requires
            v == if (0u64 & !0x8000_0000_0000_0000u64) & 0x8000_0000_0000_0000u64 == 0 {
                (262144u64 & !0x8000_0000_0000_0000u64) | 0x8000_0000_0000_0000u64
            } else {
                262144u64 & !0x8000_0000_0000_0000u64
            },
    ;
    heap.write_word(p, 0, head.flags_size);
    let ghost h1 = *heap;
    let page_table = zalloc(heap, 1);
    let k = Kmem { n_alloc: N_KMEM_ALLOC, head: k_alloc, page_table };
    assert(took_table_page(&h1, &*heap, k.page_table()));
    k
}

} // verus!
