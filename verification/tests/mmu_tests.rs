use lib::mmu::{Entry, EntryBits, Table};
use lib::page::{self, zalloc, PageAllocator, PAGE_SIZE};

fn heap_with_root(pages: u64) -> (PageAllocator, u64) {
    let mut heap = page::init(0x8000_0000, pages * PAGE_SIZE);
    let root = zalloc(&mut heap, 1);
    assert_ne!(root, 0);
    (heap, root)
}

#[test]
fn entry_bits_values() {
    assert_eq!(EntryBits::Empty.value(), 0);
    assert_eq!(EntryBits::Valid.value(), 1);
    assert_eq!(EntryBits::Read.value(), 2);
    assert_eq!(EntryBits::Write.value(), 4);
    assert_eq!(EntryBits::Exectue.value(), 8);
    assert_eq!(EntryBits::User.value(), 16);
    assert_eq!(EntryBits::Global.value(), 32);
    assert_eq!(EntryBits::Access.value(), 64);
    assert_eq!(EntryBits::Dirty.value(), 128);
    assert_eq!(EntryBits::ReadWrite.value(), 6);
    assert_eq!(EntryBits::ReadExecute.value(), 10);
    assert_eq!(EntryBits::ReadWriteExecute.value(), 14);
    assert_eq!(EntryBits::UserReadWrite.value(), 22);
    assert_eq!(EntryBits::UserReadExecute.value(), 26);
    assert_eq!(EntryBits::UserReadWriteExecute.value(), 30);
}

#[test]
fn entry_predicates() {
    let mut e = Entry { entry: 0 };
    assert!(!e.is_valid() && e.is_invalid() && !e.is_leaf() && e.is_branch());
    e.set_entry(1);
    assert_eq!(e.get_entry(), 1);
    assert!(e.is_valid() && e.is_branch());
    e.set_entry(0x4 | 1);
    assert!(e.is_valid() && e.is_leaf() && !e.is_branch());
    e.set_entry(0x10);
    assert!(e.is_invalid() && !e.is_leaf());
}

#[test]
fn table_len() {
    assert_eq!(Table::len(), 512);
}

#[test]
fn map_then_translate() {
    let (mut heap, root) = heap_with_root(16);
    assert_eq!(Table::virt_to_phys(&heap, root, 0x1234), None);
    Table::map(&mut heap, root, 0x1000, 0x8020_0000, EntryBits::ReadWrite.value());
    assert_eq!(Table::virt_to_phys(&heap, root, 0x1234), Some(0x8020_0234));
    assert_eq!(Table::virt_to_phys(&heap, root, 0x1000), Some(0x8020_0000));
    assert_eq!(Table::virt_to_phys(&heap, root, 0x2000), None);
    assert_eq!(Table::virt_to_phys(&heap, root, 0x0fff), None);
    // the root entry now points to a level-1 table
    let t = Table::at(&heap, root);
    assert!(t.entries[0].is_valid() && t.entries[0].is_branch());
    assert!(t.entries[1].is_invalid());
}

#[test]
fn map_adds_tables_only_when_missing() {
    let (mut heap, root) = heap_with_root(16);
    let (_, before) = page::page_allocations(&heap);
    Table::map(&mut heap, root, 0x1000, 0x9000, EntryBits::ReadWriteExecute.value());
    let (_, after_first) = page::page_allocations(&heap);
    assert_eq!(after_first, before + 2);
    Table::map(&mut heap, root, 0x5000, 0xa000, EntryBits::ReadExecute.value());
    let (_, after_second) = page::page_allocations(&heap);
    assert_eq!(after_second, after_first);
    Table::map(&mut heap, root, 0x40_0000, 0xb000, EntryBits::Read.value());
    let (_, after_third) = page::page_allocations(&heap);
    assert_eq!(after_third, after_second + 1);
    assert_eq!(Table::virt_to_phys(&heap, root, 0x1008), Some(0x9008));
    assert_eq!(Table::virt_to_phys(&heap, root, 0x5ff0), Some(0xaff0));
    assert_eq!(Table::virt_to_phys(&heap, root, 0x40_0001), Some(0xb001));
}

#[test]
fn remap_replaces_the_old_mapping() {
    let (mut heap, root) = heap_with_root(16);
    Table::map(&mut heap, root, 0x3000, 0x1_0000, EntryBits::ReadWrite.value());
    Table::map(&mut heap, root, 0x3000, 0x2_0000, EntryBits::ReadWrite.value());
    assert_eq!(Table::virt_to_phys(&heap, root, 0x3010), Some(0x2_0010));
}

#[test]
fn map_range_maps_pages_to_themselves() {
    let (mut heap, root) = heap_with_root(16);
    assert!(Table::map_range(&mut heap, root, 0x8000_0010, 0x8000_3001, EntryBits::ReadWrite.value()));
    for a in [0x8000_0000u64, 0x8000_1234, 0x8000_2ff8, 0x8000_3000, 0x8000_3fff] {
        assert_eq!(Table::virt_to_phys(&heap, root, a), Some(a));
    }
    assert_eq!(Table::virt_to_phys(&heap, root, 0x8000_4000), None);
    assert_eq!(Table::virt_to_phys(&heap, root, 0x7fff_f000), None);
}

#[test]
fn map_range_stops_when_out_of_pages() {
    // the root takes one page and the last page is never handed out: one page is left
    let (mut heap, root) = heap_with_root(3);
    assert!(!Table::map_range(&mut heap, root, 0x1000, 0x2000, EntryBits::ReadWrite.value()));
    assert_eq!(Table::virt_to_phys(&heap, root, 0x1000), None);
}

#[test]
fn unmap_gives_back_the_tables() {
    let (mut heap, root) = heap_with_root(16);
    Table::map(&mut heap, root, 0x1000, 0x9000, EntryBits::ReadWrite.value());
    Table::map(&mut heap, root, 0x4000_0000, 0x9000, EntryBits::ReadWrite.value());
    let (_, num) = page::page_allocations(&heap);
    assert_eq!(num, 5);
    Table::unmap(&mut heap, root);
    let (runs, num) = page::page_allocations(&heap);
    assert_eq!(num, 1);
    assert_eq!(runs, vec![(0, 0)]);
}

#[test]
fn superpage_leaf_translates_with_its_offset() {
    let (mut heap, root) = heap_with_root(16);
    let t = Table::at(&heap, root);
    assert_eq!(t.entries[2].get_entry(), 0);
    // a level-2 leaf at root entry 2 mapping the gigabyte at 0x4000_0000
    let page = (root - heap.get_alloc_start()) / PAGE_SIZE;
    heap.write_word(page, 2, ((0x4000_0000u64 >> 2) | 0xf) as u64);
    assert_eq!(Table::virt_to_phys(&heap, root, 0x8123_4567), Some(0x4123_4567));
}

#[test]
fn map_range_with_just_enough_pages_maps_all() {
    // root + two tables, and the last page that is never handed out
    let (mut heap, root) = heap_with_root(4);
    assert!(Table::map_range(&mut heap, root, 0x1000, 0x3000, EntryBits::ReadWrite.value()));
    assert_eq!(Table::virt_to_phys(&heap, root, 0x1008), Some(0x1008));
    assert_eq!(Table::virt_to_phys(&heap, root, 0x2ff8), Some(0x2ff8));
    assert_eq!(Table::virt_to_phys(&heap, root, 0x3000), None);
    let (runs, num) = page::page_allocations(&heap);
    // only the root and the two tables are taken
    assert_eq!(num, 3);
    assert_eq!(runs, vec![(0, 0), (1, 1), (2, 2)]);
}

#[test]
fn map_range_stops_where_tables_run_out() {
    // two pages apart by a gigabyte: the second needs two tables of its own
    let (mut heap, root) = heap_with_root(4);
    assert!(!Table::map_range(&mut heap, root, 0x3fff_f000, 0x4000_1000, EntryBits::ReadWrite.value()));
    assert_eq!(Table::virt_to_phys(&heap, root, 0x3fff_f010), Some(0x3fff_f010));
    assert_eq!(Table::virt_to_phys(&heap, root, 0x4000_0010), None);
    let (_, num) = page::page_allocations(&heap);
    assert_eq!(num, 3);
}

#[test]
fn map_range_leaves_carry_the_bits() {
    let (mut heap, root) = heap_with_root(8);
    assert!(Table::map_range(&mut heap, root, 0x1000, 0x3000, EntryBits::ReadExecute.value()));
    let target = |e: i64| ((e as u64) & !0x3ff) << 2;
    let e2 = Table::at(&heap, root).entries[0].get_entry();
    let e1 = Table::at(&heap, target(e2)).entries[0].get_entry();
    let t0 = Table::at(&heap, target(e1));
    assert_eq!(t0.entries[1].get_entry(), (0x1000 >> 2) | 0xb);
    assert_eq!(t0.entries[2].get_entry(), (0x2000 >> 2) | 0xb);
    assert_eq!(t0.entries[3].get_entry(), 0);
}
