use lib::kmem::{get_head, get_num_allocations, get_page_table, init, AllocList, AllocListFlags};
use lib::page::{self, PAGE_SIZE};

#[test]
fn alloc_list_flag_value() {
    assert_eq!(AllocListFlags::Taken.value(), 1u64 << 63);
}

#[test]
fn alloc_list_bits() {
    let mut a = AllocList { flags_size: 0 };
    assert!(!a.is_free());
    assert!(a.is_taken());
    a.set_size(100);
    assert_eq!(a.flags_size, 100 | (1 << 63));
    assert!(a.is_free());
    a.set_size(200);
    assert_eq!(a.flags_size, 200);
    let mut b = AllocList { flags_size: 7 | (1 << 63) };
    b.set_free();
    assert_eq!(b.flags_size, 7);
    // the size keeps below the top bit
    let mut c = AllocList { flags_size: 0 };
    c.set_size(u64::MAX);
    assert_eq!(c.flags_size, u64::MAX);
}

#[test]
fn kmem_init_takes_its_pages() {
    let mut heap = page::init(0x8000_0000, 80 * PAGE_SIZE);
    let base = heap.get_alloc_start();
    let k = init(&mut heap);
    assert_eq!(get_num_allocations(&k), 64);
    assert_eq!(get_head(&k), base);
    assert_eq!(get_page_table(&k), base + 64 * PAGE_SIZE);
    assert_eq!(heap.read_word(0, 0), 0x8000_0000_0004_0000);
    assert_eq!(heap.read_word(0, 1), 0);
    let (runs, num) = page::page_allocations(&heap);
    assert_eq!(runs, vec![(0, 63), (64, 64)]);
    assert_eq!(num, 65);
}

#[test]
fn kmem_init_without_a_table_page() {
    let mut heap = page::init(0x8000_0000, 65 * PAGE_SIZE);
    let k = init(&mut heap);
    assert_eq!(get_page_table(&k), 0);
}
