use lib::page::{
    align_val, alloc_pages, dealloc, init, page_allocations, spare_at_least, zalloc,
    PageDescriptorBits, PAGE_ORDER, PAGE_SIZE,
};

const HEAP_START: u64 = 0x8000_0000;

fn flags(heap: &lib::page::PageAllocator) -> Vec<(bool, bool)> {
    (0..heap.num_pages_exec())
        .map(|i| {
            let d = heap.descriptor(i);
            (d.is_taken(), d.is_last())
        })
        .collect()
}

#[test]
fn align_val_rounds_up_to_a_page() {
    assert_eq!(align_val(0, PAGE_ORDER), 0);
    assert_eq!(align_val(1, PAGE_ORDER), 4096);
    assert_eq!(align_val(4096, PAGE_ORDER), 4096);
    assert_eq!(align_val(4097, PAGE_ORDER), 8192);
    assert_eq!(align_val(0x8000_0010, PAGE_ORDER), 0x8000_1000);
    assert_eq!(align_val(5, 0), 5);
    assert_eq!(align_val(5, 3), 8);
}

#[test]
fn descriptor_bits_values() {
    assert_eq!(PageDescriptorBits::Empty.val(), 0);
    assert_eq!(PageDescriptorBits::Taken.val(), 1);
    assert_eq!(PageDescriptorBits::Last.val(), 2);
}

#[test]
fn init_lays_out_the_heap() {
    let heap = init(HEAP_START, 16 * PAGE_SIZE + 100);
    assert_eq!(heap.num_pages_exec(), 16);
    assert_eq!(heap.get_heap_start(), HEAP_START);
    assert_eq!(heap.get_heap_size(), 16 * PAGE_SIZE + 100);
    // 16 descriptor bytes after the heap start, rounded up to a page
    assert_eq!(heap.get_alloc_start(), HEAP_START + PAGE_SIZE);
    for (taken, last) in flags(&heap) {
        assert!(!taken && !last);
    }
    let d = heap.descriptor(3);
    assert!(d.is_free());
}

#[test]
fn alloc_takes_first_fit_and_marks_last() {
    let mut heap = init(HEAP_START, 16 * PAGE_SIZE);
    let base = heap.get_alloc_start();
    assert_eq!(alloc_pages(&mut heap, 1), base);
    assert_eq!(alloc_pages(&mut heap, 3), base + PAGE_SIZE);
    let f = flags(&heap);
    assert_eq!(f[0], (true, true));
    assert_eq!(f[1], (true, false));
    assert_eq!(f[2], (true, false));
    assert_eq!(f[3], (true, true));
    assert_eq!(f[4], (false, false));
}

#[test]
fn alloc_gives_null_without_room() {
    let mut heap = init(HEAP_START, 4 * PAGE_SIZE);
    // the whole heap never fits: the search stops before it starts
    assert_eq!(alloc_pages(&mut heap, 4), 0);
    // the last page is never the start of an allocation
    assert_eq!(alloc_pages(&mut heap, 3), heap.get_alloc_start());
    assert_eq!(alloc_pages(&mut heap, 1), 0);
}

#[test]
fn dealloc_frees_to_the_end_of_the_run() {
    let mut heap = init(HEAP_START, 8 * PAGE_SIZE);
    let base = heap.get_alloc_start();
    let a = alloc_pages(&mut heap, 2);
    let b = alloc_pages(&mut heap, 3);
    assert_eq!(a, base);
    assert_eq!(b, base + 2 * PAGE_SIZE);
    dealloc(&mut heap, a);
    let f = flags(&heap);
    assert_eq!(f[0], (false, false));
    assert_eq!(f[1], (false, false));
    assert_eq!(f[2], (true, false));
    // the freed pages are found again
    assert_eq!(alloc_pages(&mut heap, 2), base);
    // freeing from the middle of a run frees its tail
    dealloc(&mut heap, b + PAGE_SIZE);
    let f = flags(&heap);
    assert_eq!(f[2], (true, false));
    assert_eq!(f[3], (false, false));
    assert_eq!(f[4], (false, false));
}

#[test]
fn zalloc_gives_zeroed_pages() {
    let mut heap = init(HEAP_START, 8 * PAGE_SIZE);
    let p = alloc_pages(&mut heap, 1);
    let page = (p - heap.get_alloc_start()) / PAGE_SIZE;
    heap.write_word(page, 7, 0xdead_beef);
    assert_eq!(heap.read_word(page, 7), 0xdead_beef);
    dealloc(&mut heap, p);
    let z = zalloc(&mut heap, 1);
    assert_eq!(z, p);
    assert_eq!(heap.read_word(page, 7), 0);
}

#[test]
fn zalloc_without_room_changes_nothing() {
    let mut heap = init(HEAP_START, 2 * PAGE_SIZE);
    assert_eq!(zalloc(&mut heap, 2), 0);
    assert_eq!(zalloc(&mut heap, 1), heap.get_alloc_start());
    assert_eq!(zalloc(&mut heap, 1), 0);
}

#[test]
fn page_allocations_lists_the_runs() {
    let mut heap = init(HEAP_START, 16 * PAGE_SIZE);
    let a = alloc_pages(&mut heap, 2);
    let _b = alloc_pages(&mut heap, 1);
    let _c = alloc_pages(&mut heap, 4);
    dealloc(&mut heap, a);
    let (runs, num) = page_allocations(&heap);
    assert_eq!(runs, vec![(2, 2), (3, 6)]);
    assert_eq!(num, 5);
    let empty = init(HEAP_START, 16 * PAGE_SIZE);
    let (runs, num) = page_allocations(&empty);
    assert!(runs.is_empty());
    assert_eq!(num, 0);
}

#[test]
fn spare_pages_counts_all_but_the_last() {
    let mut heap = init(HEAP_START, 4 * PAGE_SIZE);
    assert!(spare_at_least(&heap, 3));
    assert!(!spare_at_least(&heap, 4));
    alloc_pages(&mut heap, 2);
    assert!(spare_at_least(&heap, 1));
    assert!(!spare_at_least(&heap, 2));
    assert!(spare_at_least(&heap, 0));
}

#[test]
fn descriptor_flags_set_and_clear() {
    let heap = init(HEAP_START, 4 * PAGE_SIZE);
    let mut d = heap.descriptor(0);
    assert!(d.is_free() && !d.is_taken() && !d.is_last());
    d.set_flag(PageDescriptorBits::Taken);
    assert!(d.is_taken() && !d.is_free() && !d.is_last());
    d.set_flag(PageDescriptorBits::Last);
    assert!(d.is_taken() && d.is_last());
    d.set_flag(PageDescriptorBits::Empty);
    assert!(d.is_taken() && d.is_last());
    d.clear();
    assert!(d.is_free() && !d.is_last());
}

#[test]
fn page_allocations_reads_open_runs_to_the_next_last_page() {
    let mut heap = init(HEAP_START, 8 * PAGE_SIZE);
    let a = alloc_pages(&mut heap, 3);
    // giving back from the middle of a run leaves its first page open
    dealloc(&mut heap, a + PAGE_SIZE);
    // with no page marked last after it, the run reaches the end of the table
    assert_eq!(page_allocations(&heap), (vec![(0, 7)], 8));
    // the next allocation closes it
    assert_eq!(alloc_pages(&mut heap, 1), a + PAGE_SIZE);
    assert_eq!(page_allocations(&heap), (vec![(0, 1)], 2));
}
