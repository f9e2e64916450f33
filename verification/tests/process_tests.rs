use lib::cpu::{build_satp, SatpMode};
use lib::mmu::{Entry, Table};
use lib::page::{self, PAGE_SIZE};
use lib::process::{
    add_process_default, init, Process, ProcessList, ProcessState, PROCESS_STARTING_ADDR,
    STACK_ADDR,
};
use lib::sched::schedule;

const FUNC: u64 = 0x8020_0000;

#[test]
fn process_list_starts_empty() {
    let procs = ProcessList::new();
    assert_eq!(procs.get_next_pid(), 1);
    assert_eq!(procs.len(), 0);
    assert!(!procs.is_started());
    assert_eq!(PROCESS_STARTING_ADDR, 0x2000_0000);
}

#[test]
fn new_default_builds_the_process() {
    let mut heap = page::init(0x8000_0000, 16 * PAGE_SIZE);
    let base = heap.get_alloc_start();
    let mut pid: u16 = 7;
    let p = Process::new_default(&mut heap, &mut pid, FUNC).unwrap();
    assert_eq!(pid, 8);
    assert_eq!(p.get_pid(), 7);
    assert_eq!(p.get_program_counter(), FUNC);
    assert!(*p.get_state() == ProcessState::Running);
    assert_eq!(p.get_frame_address(), base);
    assert_eq!(p.get_table_address(), base + 3 * PAGE_SIZE);
    // register 2 of the trap frame holds the stack top
    assert_eq!(heap.read_word(0, 2), STACK_ADDR + 2 * PAGE_SIZE);
    let root = p.get_table_address();
    let stack = base + PAGE_SIZE;
    assert_eq!(Table::virt_to_phys(&heap, root, STACK_ADDR + 8), Some(stack + 8));
    assert_eq!(Table::virt_to_phys(&heap, root, STACK_ADDR + PAGE_SIZE + 8), Some(stack + PAGE_SIZE + 8));
    assert_eq!(Table::virt_to_phys(&heap, root, STACK_ADDR + 2 * PAGE_SIZE), None);
    assert_eq!(Table::virt_to_phys(&heap, root, FUNC + 100 * PAGE_SIZE + 4), Some(FUNC + 100 * PAGE_SIZE + 4));
    assert_eq!(Table::virt_to_phys(&heap, root, FUNC + 101 * PAGE_SIZE), None);
    assert_eq!(Table::virt_to_phys(&heap, root, 0x8000_0123), Some(0x8000_0123));
    assert_eq!(Table::virt_to_phys(&heap, root, 0x8000_1000), None);
}

#[test]
fn new_default_without_room() {
    let mut heap = page::init(0x8000_0000, 6 * PAGE_SIZE);
    let mut pid: u16 = 1;
    assert!(Process::new_default(&mut heap, &mut pid, FUNC).is_none());
}

#[test]
fn drop_gives_back_stack_and_tables() {
    let mut heap = page::init(0x8000_0000, 16 * PAGE_SIZE);
    let mut pid: u16 = 1;
    let p = Process::new_default(&mut heap, &mut pid, FUNC).unwrap();
    let (_, num) = page::page_allocations(&heap);
    assert_eq!(num, 9);
    p.drop(&mut heap);
    let (runs, num) = page::page_allocations(&heap);
    // only the trap frame page stays
    assert_eq!(runs, vec![(0, 0)]);
    assert_eq!(num, 1);
}

#[test]
fn init_starts_the_first_process() {
    let mut heap = page::init(0x8000_0000, 16 * PAGE_SIZE);
    let base = heap.get_alloc_start();
    let mut procs = ProcessList::new();
    let start = init(&mut procs, &mut heap, FUNC).unwrap();
    assert_eq!(procs.len(), 1);
    assert_eq!(procs.get_next_pid(), 2);
    assert_eq!(start.pc, PROCESS_STARTING_ADDR);
    assert_eq!(start.frame, base);
    assert_eq!(start.satp, build_satp(SatpMode::Sv39, 1, base + 3 * PAGE_SIZE));
}

#[test]
fn init_without_room() {
    let mut heap = page::init(0x8000_0000, 2 * PAGE_SIZE);
    let mut procs = ProcessList::new();
    assert!(init(&mut procs, &mut heap, FUNC).is_none());
    assert_eq!(procs.len(), 0);
}

#[test]
fn add_without_a_list_does_nothing() {
    let mut heap = page::init(0x8000_0000, 16 * PAGE_SIZE);
    let mut procs = ProcessList::new();
    add_process_default(&mut procs, &mut heap, FUNC);
    assert_eq!(procs.len(), 0);
    assert_eq!(procs.get_next_pid(), 1);
    let (_, num) = page::page_allocations(&heap);
    assert_eq!(num, 0);
}

#[test]
fn schedule_goes_round_robin() {
    let mut heap = page::init(0x8000_0000, 32 * PAGE_SIZE);
    let base = heap.get_alloc_start();
    let mut procs = ProcessList::new();
    assert_eq!(schedule(&mut procs), (0, 0, 0, None));
    init(&mut procs, &mut heap, FUNC).unwrap();
    add_process_default(&mut procs, &mut heap, FUNC + 0x20_0000);
    assert_eq!(procs.len(), 2);
    let root1 = base + 3 * PAGE_SIZE;
    let (f, pc, satp, pid) = schedule(&mut procs);
    assert_eq!(pid, Some(2));
    assert_eq!(pc, FUNC + 0x20_0000);
    assert_ne!(f, 0);
    assert_eq!(satp >> 60, 8);
    assert_eq!((satp >> 44) & 0xffff, 2);
    let (f1, pc1, satp1, pid1) = schedule(&mut procs);
    assert_eq!(pid1, Some(1));
    assert_eq!(f1, base);
    assert_eq!(pc1, FUNC);
    assert_eq!(satp1, (8 << 60) | (1 << 44) | (root1 >> 12));
    let (_, _, _, pid2) = schedule(&mut procs);
    assert_eq!(pid2, Some(2));
}

#[test]
fn new_default_with_just_enough_pages() {
    // frame, stack (2), root and the tables: the stack, the code and 0x8000_0000
    // sit under two different root entries; the stack under a third
    let mut heap = page::init(0x8000_0000, 16 * PAGE_SIZE);
    let mut pid: u16 = 3;
    let p = Process::new_default(&mut heap, &mut pid, FUNC).unwrap();
    let (_, num) = page::page_allocations(&heap);
    let needed = num;
    let mut exact = page::init(0x8000_0000, (needed + 1) * PAGE_SIZE);
    let mut pid2: u16 = 3;
    assert!(Process::new_default(&mut exact, &mut pid2, FUNC).is_some());
    let mut short = page::init(0x8000_0000, needed * PAGE_SIZE);
    let mut pid3: u16 = 3;
    assert!(Process::new_default(&mut short, &mut pid3, FUNC).is_none());
    assert_eq!(pid3, 4);
    assert_eq!(p.get_pid(), 3);
}

/// The level-0 entry that the walk for `v` ends at.
fn leaf(heap: &page::PageAllocator, root: u64, v: u64) -> i64 {
    let target = |e: i64| ((e as u64) & !0x3ff) << 2;
    let e2 = Table::at(heap, root).entries[((v >> 30) & 0x1ff) as usize];
    let e1 = Table::at(heap, target(e2.get_entry())).entries[((v >> 21) & 0x1ff) as usize];
    let e0: Entry = Table::at(heap, target(e1.get_entry())).entries[((v >> 12) & 0x1ff) as usize];
    e0.get_entry()
}

#[test]
fn new_default_maps_with_the_right_permissions() {
    let mut heap = page::init(0x8000_0000, 16 * PAGE_SIZE);
    let mut pid: u16 = 1;
    let p = Process::new_default(&mut heap, &mut pid, FUNC).unwrap();
    let root = p.get_table_address();
    // V | R | W | U
    assert_eq!(leaf(&heap, root, STACK_ADDR) & 0x3ff, 0x17);
    assert_eq!(leaf(&heap, root, STACK_ADDR + PAGE_SIZE) & 0x3ff, 0x17);
    // V | R | W | X | U
    assert_eq!(leaf(&heap, root, FUNC) & 0x3ff, 0x1f);
    assert_eq!(leaf(&heap, root, FUNC + 100 * PAGE_SIZE) & 0x3ff, 0x1f);
    // V | R | X | U
    assert_eq!(leaf(&heap, root, 0x8000_0000) & 0x3ff, 0x1b);
}
