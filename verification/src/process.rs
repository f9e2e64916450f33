use vstd::prelude::*;
use std::collections::VecDeque;
use crate::cpu::{build_satp, satp_value, SatpMode};
use crate::mmu::{
    branch, idx, is_table, l1, l2, leaf_entry, leaf_phys, lemma_table_addr, mapped_seq,
    outside_tree, same_vpage, slot, spare_pages, t0, t1, translate, tree_wf, EntryBits, Table,
    TABLE_SIZE, tables_needed, mapped, seq_tables, grown_by, leaf_of, mapped_entry, page_floor,
};
use crate::page::{
    alloc_pages, clear_run, dealloc, first_fit, mark_run, run_to,
    spare_at_least, took_pages, zalloc, zero_pages, PageAllocator, PAGE_SIZE, WORDS_PER_PAGE,
};

verus! {

/// Where a new process starts running.
pub const PROCESS_STARTING_ADDR: u64 = 0x2000_0000;

/// Virtual address of the bottom of a process's stack.
pub const STACK_ADDR: u64 = 0x7_0000_0000;

/// Pages of a process's stack.
pub const STACK_PAGES: u64 = 2;

/// The initial stack pointer of a process: the top of its stack.
pub open spec fn stack_top() -> u64 {
    0x7_0000_2000
}

#[derive(Clone, Copy, Debug, PartialEq, Eq, Structural)]
pub enum ProcessState {
    Dead,
    Running,
    Sleeping,
    Waiting,
}

/// A process: its trap frame page, stack pages, program counter, id, root page
/// table and state.
pub struct Process {
    frame: u64,
    stack: u64,
    mepc: u64,
    pid: u16,
    root: u64,
    state: ProcessState,
}

impl Process {
    pub closed spec fn frame(&self) -> u64 {
        self.frame
    }

    pub closed spec fn stack(&self) -> u64 {
        self.stack
    }

    pub closed spec fn mepc(&self) -> u64 {
        self.mepc
    }

    pub closed spec fn pid(&self) -> u16 {
        self.pid
    }

    pub closed spec fn root(&self) -> u64 {
        self.root
    }

    pub closed spec fn state(&self) -> ProcessState {
        self.state
    }

    pub fn get_frame_address(&self) -> (r: u64)
        ensures
            r == self.frame(),
    {
        self.frame
    }

    pub fn get_program_counter(&self) -> (r: u64)
        ensures
            r == self.mepc(),
    {
        self.mepc
    }

    pub fn get_state(&self) -> (r: &ProcessState)
        ensures
            *r == self.state(),
    {
        &self.state
    }

    pub fn get_pid(&self) -> (r: u16)
        ensures
            r == self.pid(),
    {
        self.pid
    }

    pub fn get_table_address(&self) -> (r: u64)
        ensures
            r == self.root(),
    {
        self.root
    }
}

/// The mappings a new process gets, in the order they are made: its two stack
/// pages at `STACK_ADDR`, 101 pages of code from `func` on mapped to themselves,
/// and the page at 0x8000_0000.
pub open spec fn default_maps(stack: u64, func: u64) -> Seq<(u64, u64, i64)> {
    Seq::new(
        2,
        |s: int| ((STACK_ADDR + PAGE_SIZE * s) as u64, (stack + PAGE_SIZE * s) as u64, 22i64),
    ) + Seq::new(
        101,
        |s: int| ((func + PAGE_SIZE * s) as u64, (func + PAGE_SIZE * s) as u64, 30i64),
    ) + seq![(0x8000_0000u64, 0x8000_0000u64, 26i64)]
}

/// The code mappings of a new process: with the code below 2^39, every address
/// of the 101 pages from the page of `func` on, except in the page at
/// 0x8000_0000, translates to itself through a leaf with U, R, W, X and V.
pub proof fn lemma_default_maps_code(stack: u64, func: u64, v: u64)
    requires
        func + 101 * PAGE_SIZE <= 0x80_0000_0000,
        (func & !0xfffu64) <= v < (func & !0xfffu64) + 101 * PAGE_SIZE,
        !(0x8000_0000 <= v < 0x8000_1000),
    ensures
        mapped_seq(default_maps(stack, func), v, None) == Some(v),
        mapped_entry(default_maps(stack, func), v, None) is Some,
        mapped_entry(default_maps(stack, func), v, None).unwrap() & 0x3ff == 0x1f,
{
    let a = Seq::new(
        2,
        |s: int| ((STACK_ADDR + PAGE_SIZE * s) as u64, (stack + PAGE_SIZE * s) as u64, 22i64),
    );
    let b = crate::mmu::range_maps(func, 101, 30i64);
    let c = crate::mmu::range_maps(0x8000_0000, 1, 26i64);
    assert(default_maps(stack, func) =~= (a + b) + c);
    assert((func & !0xfffu64) <= func) by (bit_vector);
    assert(v < 0x80_0000_0000);
    crate::table_laws::lemma_mapped_concat(a + b, c, v, None, None);
    crate::table_laws::lemma_mapped_concat(a, b, v, None, None);
    let sa = mapped_seq(a, v, None);
    let ea = mapped_entry(a, v, None);
    crate::table_laws::lemma_range_maps_at(func, 101, 30i64, v, sa, ea);
    let sb = mapped_seq(a + b, v, None);
    let eb = mapped_entry(a + b, v, None);
    assert(0x8000_0000u64 & !0xfffu64 == 0x8000_0000u64) by (bit_vector);
    crate::table_laws::lemma_range_maps_at(0x8000_0000, 1, 26i64, v, sb, eb);
    assert(30i64 | 1 == 0x1f) by (bit_vector);
}

/// The stack mappings of a new process: with the code pages clear of the two
/// stack pages, every address of the stack at `STACK_ADDR` translates to the
/// same offset in the stack run at `stack`, through a leaf with U, R, W and V.
pub proof fn lemma_default_maps_stack(stack: u64, func: u64, o: u64)
    requires
        func + 101 * PAGE_SIZE <= 0x80_0000_0000,
        (func & !0xfffu64) + 101 * PAGE_SIZE <= STACK_ADDR || (func & !0xfffu64) >= STACK_ADDR + 2
            * PAGE_SIZE,
        stack % PAGE_SIZE == 0,
        stack + 2 * PAGE_SIZE <= 0x0100_0000_0000_0000,
        o < 2 * PAGE_SIZE,
    ensures
        mapped_seq(default_maps(stack, func), (STACK_ADDR + o) as u64, None) == Some((stack + o) as u64),
        mapped_entry(default_maps(stack, func), (STACK_ADDR + o) as u64, None) is Some,
        mapped_entry(default_maps(stack, func), (STACK_ADDR + o) as u64, None).unwrap() & 0x3ff
            == 0x17,
{
    let v = (STACK_ADDR + o) as u64;
    let a = Seq::new(
        2,
        |s: int| ((STACK_ADDR + PAGE_SIZE * s) as u64, (stack + PAGE_SIZE * s) as u64, 22i64),
    );
    let b = crate::mmu::range_maps(func, 101, 30i64);
    let c = crate::mmu::range_maps(0x8000_0000, 1, 26i64);
    assert(default_maps(stack, func) =~= (a + b) + c);
    crate::table_laws::lemma_mapped_concat(a + b, c, v, None, None);
    crate::table_laws::lemma_mapped_concat(a, b, v, None, None);
    let sa = mapped_seq(a, v, None);
    let ea = mapped_entry(a, v, None);
    crate::table_laws::lemma_range_maps_at(func, 101, 30i64, v, sa, ea);
    let sb = mapped_seq(a + b, v, None);
    let eb = mapped_entry(a + b, v, None);
    assert(0x8000_0000u64 & !0xfffu64 == 0x8000_0000u64) by (bit_vector);
    crate::table_laws::lemma_range_maps_at(0x8000_0000, 1, 26i64, v, sb, eb);
    // the two stack mappings, last one first
    let s1 = (stack + PAGE_SIZE) as u64;
    let v1 = (STACK_ADDR + PAGE_SIZE) as u64;
    assert(a.last() == (v1, s1, 22i64));
    assert(a.drop_last().last() == (STACK_ADDR, stack, 22i64));
    assert(a.drop_last().drop_last().len() == 0);
    assert(same_vpage(v, v1) <==> o >= 4096) by {
        assert(((v >> 30u64) & 0x1ff == (v1 >> 30u64) & 0x1ff && (v >> 21u64) & 0x1ff == (v1 >> 21u64)
            & 0x1ff && (v >> 12u64) & 0x1ff == (v1 >> 12u64) & 0x1ff) <==> o >= 4096) by (bit_vector)
            requires
                v == 0x7_0000_0000u64 + o,
                v1 == 0x7_0000_1000u64,
                o < 8192,
        ;
    }
    assert(o < 4096 ==> same_vpage(v, STACK_ADDR)) by {
        assert((v >> 30u64) & 0x1ff == (0x7_0000_0000u64 >> 30u64) & 0x1ff && (v >> 21u64) & 0x1ff == (
        0x7_0000_0000u64 >> 21u64) & 0x1ff && (o < 4096 ==> (v >> 12u64) & 0x1ff == (0x7_0000_0000u64
            >> 12u64) & 0x1ff)) by (bit_vector)
            requires
                v == 0x7_0000_0000u64 + o,
                o < 8192,
        ;
    }
    let p = if o >= 4096 { s1 } else { stack };
    crate::table_laws::lemma_leaf_page(p, 22i64, v);
    crate::mmu::lemma_leaf_bits(p, 22i64);
    assert((p & 0x00ff_ffff_ffff_f000u64) | (v & 0xfff) == stack + o) by (bit_vector)
        requires
            v == 0x7_0000_0000u64 + o,
            o < 8192,
            stack % 4096 == 0,
            stack + 8192 <= 0x0100_0000_0000_0000u64,
            p == if o >= 4096 { (stack + 4096) as u64 } else { stack },
    ;
    assert(22i64 | 1 == 0x17) by (bit_vector);
    assert(leaf_phys(leaf_entry(p, 22i64), v, 0) == stack + o);
    reveal_with_fuel(mapped_seq, 3);
    reveal_with_fuel(mapped_entry, 3);
    assert(sa == Some((stack + o) as u64));
    assert(ea == Some(leaf_entry(p, 22i64)));
    assert(!((func & !0xfffu64) <= v < (func & !0xfffu64) + 4096 * 101));
    assert(!((0x8000_0000u64 & !0xfffu64) <= v < (0x8000_0000u64 & !0xfffu64) + 4096 * 1));
}

/// The trap frame page at `frame` is taken, lies outside the tables of `root`,
/// holds the initial stack pointer in register 2 and zeros in every other word.
pub open spec fn frame_ok(h: &PageAllocator, root: u64, frame: u64) -> bool {
    &&& is_table(h, frame)
    &&& frame != root
    &&& h.flags()[h.page_index(frame as int)] == 3
    &&& outside_tree(h, root, h.page_index(frame as int), TABLE_SIZE as int)
    &&& h.mem()[h.page_index(frame as int) * WORDS_PER_PAGE + 2] == stack_top()
    &&& forall|w: int|
        0 <= w < WORDS_PER_PAGE && w != 2 ==> #[trigger] h.mem()[h.page_index(frame as int)
            * WORDS_PER_PAGE + w] == 0
}

/// Maps `vaddr` to `paddr` in the tree at `root` when the heap has the pages the
/// mapping needs; gives false, changing nothing, when it has not.
fn map_if_room(
    h: &mut PageAllocator,
    root: u64,
    frame: u64,
    vaddr: u64,
    paddr: u64,
    bits: i64,
) -> (r: bool)
    requires
        old(h).wf(),
        tree_wf(&*old(h), root),
        frame_ok(&*old(h), root, frame),
        bits & 14 != 0,
    ensures
        final(h).wf(),
        final(h).same_layout(&*old(h)),
        tree_wf(&*final(h), root),
        frame_ok(&*final(h), root, frame),
        r <==> tables_needed(&*old(h), root, vaddr) <= spare_pages(&*old(h)),
        r ==> mapped(&*old(h), &*final(h), root, vaddr, paddr, bits),
        r ==> forall|v: u64|
            #[trigger] translate(&*final(h), root, v) == if same_vpage(v, vaddr) {
                Some(leaf_phys(leaf_entry(paddr, bits), v, 0))
            } else {
                translate(&*old(h), root, v)
            },
        r ==> forall|v: u64|
            #[trigger] leaf_of(&*final(h), root, v) == if same_vpage(v, vaddr) {
                Some(leaf_entry(paddr, bits))
            } else {
                leaf_of(&*old(h), root, v)
            },
        !r ==> *final(h) == *old(h),
        forall|q: int|
            0 <= q < old(h).num_pages() && old(h).flags()[q] != 0 && q != old(h).page_index(
                root as int,
            ) && outside_tree(&*old(h), root, q, TABLE_SIZE as int) ==> {
                &&& #[trigger] final(h).flags()[q] == old(h).flags()[q]
                &&& outside_tree(&*final(h), root, q, TABLE_SIZE as int)
                &&& forall|w: int|
                    0 <= w < WORDS_PER_PAGE ==> #[trigger] final(h).mem()[q * WORDS_PER_PAGE + w]
                        == old(h).mem()[q * WORDS_PER_PAGE + w]
            },
{
    proof {
        crate::table_laws::lemma_tree_path_defined(&*h, root, vaddr);
    }
    let needed = crate::mmu::needed_tables(h, root, vaddr);
    if !spare_at_least(h, needed) {
        return false;
    }
    let ghost h0 = *h;
    Table::map(h, root, vaddr, paddr, bits);
    proof {
        lemma_table_addr(&h0, frame);
        crate::table_laws::lemma_map_keeps_outside(&h0, h, root, vaddr, paddr, bits, frame);
        let pf = h0.page_index(frame as int);
        assert forall|w: int| 0 <= w < WORDS_PER_PAGE implies #[trigger] h.mem()[pf * WORDS_PER_PAGE + w]
            == h0.mem()[pf * WORDS_PER_PAGE + w] by {
            assert(slot(h, frame, w) == slot(&h0, frame, w));
            crate::page::lemma_word_index(pf, w, h0.num_pages());
            let x = h.mem()[pf * WORDS_PER_PAGE + w];
            let y = h0.mem()[pf * WORDS_PER_PAGE + w];
            assert(x as i64 == y as i64 ==> x == y) by (bit_vector);
        }
        assert(h.mem()[pf * WORDS_PER_PAGE + 2] == h0.mem()[pf * WORDS_PER_PAGE + 2]);
        assert forall|q: int|
            0 <= q < h0.num_pages() && h0.flags()[q] != 0 && q != h0.page_index(root as int)
                && outside_tree(&h0, root, q, TABLE_SIZE as int) implies {
                &&& #[trigger] h.flags()[q] == h0.flags()[q]
                &&& outside_tree(&*h, root, q, TABLE_SIZE as int)
                &&& forall|w: int|
                    0 <= w < WORDS_PER_PAGE ==> #[trigger] h.mem()[q * WORDS_PER_PAGE + w]
                        == h0.mem()[q * WORDS_PER_PAGE + w]
            } by {
            let x = h0.page_addr(q) as u64;
            assert(is_table(&h0, x));
            assert(h0.page_index(x as int) == q);
            crate::table_laws::lemma_map_keeps_outside(&h0, h, root, vaddr, paddr, bits, x);
            assert forall|w: int| 0 <= w < WORDS_PER_PAGE implies #[trigger] h.mem()[q * WORDS_PER_PAGE + w]
                == h0.mem()[q * WORDS_PER_PAGE + w] by {
                assert(slot(h, x, w) == slot(&h0, x, w));
                crate::page::lemma_word_index(q, w, h0.num_pages());
                let a = h.mem()[q * WORDS_PER_PAGE + w];
                let b = h0.mem()[q * WORDS_PER_PAGE + w];
                assert(a as i64 == b as i64 ==> a == b) by (bit_vector);
            }
        }
    }
    true
}

/// Through one more mapping, the pages taken in `h0` stay outside the tree at
/// `root` and keep their flags and words.
proof fn lemma_keeps_step(h0: &PageAllocator, hp: &PageAllocator, h: &PageAllocator, root: u64)
    requires
        hp.same_layout(h0),
        h.same_layout(h0),
        keeps_taken(h0, hp),
        forall|q: int|
            0 <= q < h0.num_pages() && #[trigger] h0.flags()[q] != 0 ==> q != hp.page_index(root as int)
                && outside_tree(hp, root, q, TABLE_SIZE as int),
        forall|q: int|
            0 <= q < hp.num_pages() && hp.flags()[q] != 0 && q != hp.page_index(root as int)
                && outside_tree(hp, root, q, TABLE_SIZE as int) ==> {
                &&& #[trigger] h.flags()[q] == hp.flags()[q]
                &&& outside_tree(h, root, q, TABLE_SIZE as int)
                &&& forall|w: int|
                    0 <= w < WORDS_PER_PAGE ==> #[trigger] h.mem()[q * WORDS_PER_PAGE + w]
                        == hp.mem()[q * WORDS_PER_PAGE + w]
            },
    ensures
        keeps_taken(h0, h),
        forall|q: int|
            0 <= q < h0.num_pages() && #[trigger] h0.flags()[q] != 0 ==> q != h.page_index(root as int)
                && outside_tree(h, root, q, TABLE_SIZE as int),
{
    assert forall|q: int| 0 <= q < h0.num_pages() && #[trigger] h0.flags()[q] != 0 implies q != h.page_index(
        root as int,
    ) && outside_tree(h, root, q, TABLE_SIZE as int) && h.flags()[q] == h0.flags()[q] by {
        assert(hp.flags()[q] == h0.flags()[q]);
        assert(q != hp.page_index(root as int) && outside_tree(hp, root, q, TABLE_SIZE as int));
        assert(0 <= q < hp.num_pages() && hp.flags()[q] != 0);
        assert(h.flags()[q] == hp.flags()[q]);
        assert(h.page_index(root as int) == hp.page_index(root as int));
    }
    assert forall|q: int, w: int|
        0 <= q < h0.num_pages() && h0.flags()[q] != 0 && 0 <= w < WORDS_PER_PAGE implies #[trigger] h.mem()[q
        * WORDS_PER_PAGE + w] == h0.mem()[q * WORDS_PER_PAGE + w] by {
        assert(hp.flags()[q] == h0.flags()[q]);
        assert(hp.mem()[q * WORDS_PER_PAGE + w] == h0.mem()[q * WORDS_PER_PAGE + w]);
    }
}

/// The pages taken in `ha` keep their flags and their words in `hb`.
pub open spec fn keeps_taken(ha: &PageAllocator, hb: &PageAllocator) -> bool {
    &&& forall|q: int|
        0 <= q < ha.num_pages() && ha.flags()[q] != 0 ==> #[trigger] hb.flags()[q] == ha.flags()[q]
    &&& forall|q: int, w: int|
        0 <= q < ha.num_pages() && ha.flags()[q] != 0 && 0 <= w < WORDS_PER_PAGE
            ==> #[trigger] hb.mem()[q * WORDS_PER_PAGE + w] == ha.mem()[q * WORDS_PER_PAGE + w]
}

/// `hb`, `pid_b` and `r` as `Process::new_default(func)` leaves them when the
/// heap was `ha` and the next id `pid_a`: first the trap frame page is taken
/// (zeroed), then the stack run, then the root table page (zeroed); it gives
/// `None` when there is no page for the frame or the root, or when the heap then
/// has fewer spare pages than the tables of `default_maps` need.
pub open spec fn made_process(
    ha: &PageAllocator,
    hb: &PageAllocator,
    pid_a: u16,
    pid_b: u16,
    func: u64,
    r: Option<Process>,
) -> bool {
    &&& hb.wf()
    &&& hb.same_layout(ha)
    &&& keeps_taken(ha, hb)
    &&& exists|h1: PageAllocator, frame: u64|
        #![trigger took_pages(ha, &h1, 1, frame, true)]
        {
            &&& took_pages(ha, &h1, 1, frame, true)
            &&& made_after_frame(&h1, hb, pid_a, pid_b, func, frame, r)
        }
}

/// The rest of `made_process` once the frame page `frame` was taken from the heap,
/// leaving `h1`: the stack run and the root page are taken next.
pub open spec fn made_after_frame(
    h1: &PageAllocator,
    hb: &PageAllocator,
    pid_a: u16,
    pid_b: u16,
    func: u64,
    frame: u64,
    r: Option<Process>,
) -> bool {
    if frame == 0 {
        &&& r is None
        &&& pid_b == pid_a
        &&& hb.flags() == h1.flags()
        &&& hb.mem() == h1.mem()
    } else {
        exists|h2: PageAllocator, stack: u64, h3: PageAllocator, root: u64|
            #![trigger took_pages(h1, &h2, 2, stack, false), took_pages(&h2, &h3, 1, root, true)]
            {
                &&& took_pages(h1, &h2, 2, stack, false)
                &&& took_pages(&h2, &h3, 1, root, true)
                &&& made_after_root(&h2, &h3, hb, pid_a, pid_b, func, frame, stack, root, r)
            }
    }
}

/// The rest of `made_process` once the frame, the stack run (`stack`, 0 when no run
/// was free) and the root page `root` were taken, `h2` being the heap before the
/// root page and `h3` after it: the id is counted up, register 2 of the frame is
/// set and the mappings of `default_maps` are made, each leaf entry carrying its
/// page and permission bits; the pages they take are new tables and nothing else.
pub open spec fn made_after_root(
    h2: &PageAllocator,
    h3: &PageAllocator,
    hb: &PageAllocator,
    pid_a: u16,
    pid_b: u16,
    func: u64,
    frame: u64,
    stack: u64,
    root: u64,
    r: Option<Process>,
) -> bool {
    let dm = default_maps(stack, func);
    let need = seq_tables(h3, root, dm, dm.len() as int);
    if root == 0 {
        &&& r is None
        &&& pid_b == pid_a
        &&& hb.flags() == h2.flags()
        &&& hb.mem() == h2.mem()
    } else {
        &&& pid_b == pid_a + 1
        &&& (r is Some <==> need <= spare_pages(h3))
        &&& forall|q: int|
            0 <= q < h3.num_pages() && #[trigger] hb.flags()[q] != h3.flags()[q] ==> h3.flags()[q]
                == 0 && hb.flags()[q] == 3
        &&& match r {
            Some(p) => {
                &&& spare_pages(hb) + need == spare_pages(h3)
                &&& p.frame() == frame
                &&& p.stack() == stack
                &&& p.root() == root
                &&& p.pid() == pid_a
                &&& p.mepc() == func
                &&& p.state() == ProcessState::Running
                &&& tree_wf(hb, root)
                &&& frame_ok(hb, root, frame)
                &&& forall|v: u64| #[trigger] translate(hb, root, v) == mapped_seq(dm, v, None)
                &&& forall|v: u64| #[trigger] leaf_of(hb, root, v) == mapped_entry(dm, v, None)
                &&& func + 101 * PAGE_SIZE <= 0x80_0000_0000 ==> forall|v: u64|
                    page_floor(func) <= v < page_floor(func) + 101 * PAGE_SIZE && !(0x8000_0000 <= v
                        < 0x8000_1000) ==> {
                        &&& #[trigger] translate(hb, root, v) == Some(v)
                        &&& leaf_of(hb, root, v) is Some
                        &&& leaf_of(hb, root, v).unwrap() & 0x3ff == 0x1f
                    }
                &&& func + 101 * PAGE_SIZE <= 0x80_0000_0000 && (page_floor(func) + 101 * PAGE_SIZE
                    <= STACK_ADDR || page_floor(func) >= STACK_ADDR + 2 * PAGE_SIZE) && stack + 2
                    * PAGE_SIZE <= 0x0100_0000_0000_0000 ==> forall|o: u64|
                    o < 2 * PAGE_SIZE ==> {
                        &&& #[trigger] translate(hb, root, (STACK_ADDR + o) as u64) == Some(
                            (stack + o) as u64,
                        )
                        &&& leaf_of(hb, root, (STACK_ADDR + o) as u64) is Some
                        &&& leaf_of(hb, root, (STACK_ADDR + o) as u64).unwrap() & 0x3ff == 0x17
                    }
            },
            None => true,
        }
    }
}

impl Process {
    /// Makes a process that runs the code at `func_addr`: a zeroed trap frame
    /// page whose register 2 is the stack top, two stack pages, a zeroed root
    /// table, the id `next_pid` (which is then counted up), and the mappings of
    /// `default_maps`. Gives `None`, with the pages taken so far kept, when the
    /// heap runs out of pages on the way.
    #[verifier::spinoff_prover]
    #[verifier::rlimit(50)]
    pub fn new_default(heap: &mut PageAllocator, next_pid: &mut u16, func_addr: u64) -> (r: Option<Process>)
        requires
            old(heap).wf(),
            old(heap).num_pages() >= STACK_PAGES,
            *old(next_pid) < u16::MAX,
            func_addr + 100 * PAGE_SIZE <= u64::MAX,
        ensures
            made_process(&*old(heap), &*final(heap), *old(next_pid), *final(next_pid), func_addr, r),
    {
        let ghost h0 = *heap;
        let ghost pid0 = *next_pid;
        let frame = zalloc(heap, 1);
        let ghost h1 = *heap;
        assert(took_pages(&h0, &h1, 1, frame, true));
        if frame == 0 {
            assert(keeps_taken(&h0, heap));
            assert(made_after_frame(&h1, heap, pid0, *next_pid, func_addr, frame, None));
            return None;
        }
        let stack = alloc_pages(heap, STACK_PAGES);
        let ghost h2 = *heap;
        proof {
            let f = choose|i: int|
                #![trigger first_fit(h0.flags(), 1, i)]
                {
                    &&& first_fit(h0.flags(), 1, i)
                    &&& frame == h0.page_addr(i)
                    &&& h1.flags() == mark_run(h0.flags(), i, 1)
                    &&& h1.mem() == zero_pages(h0.mem(), i, 1)
                };
            assert forall|q: int| 0 <= q < h0.num_pages() && h0.flags()[q] != 0 implies #[trigger] h2.flags()[q]
                == h0.flags()[q] by {
                assert(q != f);
                assert(h1.flags()[q] == h0.flags()[q]);
            }
            assert forall|q: int, w: int|
                0 <= q < h0.num_pages() && h0.flags()[q] != 0 && 0 <= w < WORDS_PER_PAGE implies #[trigger] h2.mem()[q
                * WORDS_PER_PAGE + w] == h0.mem()[q * WORDS_PER_PAGE + w] by {
                assert(q != f);
                assert(h1.mem()[q * WORDS_PER_PAGE + w] == h0.mem()[q * WORDS_PER_PAGE + w]);
            }
        }
        let pid = *next_pid;
        let root = zalloc(heap, 1);
        let ghost h3 = *heap;
        assert(took_pages(&h1, &h2, 2, stack, false));
        assert(took_pages(&h2, &h3, 1, root, true));
        if root == 0 {
            assert(keeps_taken(&h0, heap));
            assert(made_after_root(&h2, &h3, heap, pid0, *next_pid, func_addr, frame, stack, root, None));
            assert(made_after_frame(&h1, heap, pid0, *next_pid, func_addr, frame, None));
            return None;
        }
        *next_pid = *next_pid + 1;
        let pf = (frame - heap.get_alloc_start()) / PAGE_SIZE;
        proof {
            let f = choose|i: int|
                #![trigger first_fit(h0.flags(), 1, i)]
                {
                    &&& first_fit(h0.flags(), 1, i)
                    &&& frame == h0.page_addr(i)
                    &&& h1.flags() == mark_run(h0.flags(), i, 1)
                    &&& h1.mem() == zero_pages(h0.mem(), i, 1)
                };
            assert(pf == f);
            assert(h1.flags()[f] == 3);
            if stack != 0 {
                let si = choose|i: int|
                    #![trigger first_fit(h1.flags(), 2, i)]
                    {
                        &&& first_fit(h1.flags(), 2, i)
                        &&& stack == h1.page_addr(i)
                        &&& h2.flags() == mark_run(h1.flags(), i, 2)
                        &&& h2.mem() == h1.mem()
                    };
                assert(h2.flags()[f] == 3);
                assert(stack + 2 * PAGE_SIZE <= u64::MAX);
            }
            let ri = choose|i: int|
                #![trigger first_fit(h2.flags(), 1, i)]
                {
                    &&& first_fit(h2.flags(), 1, i)
                    &&& root == h2.page_addr(i)
                    &&& h3.flags() == mark_run(h2.flags(), i, 1)
                    &&& h3.mem() == zero_pages(h2.mem(), i, 1)
                };
            assert(h2.flags()[f] == 3);
            assert(ri != f);
            assert(h3.flags()[f] == 3);
            assert(h3.flags()[ri] == 3);
            assert(h3.page_index(root as int) == ri);
            lemma_table_addr(&h3, root);
            lemma_table_addr(&h3, frame);
            assert forall|w: int| 0 <= w < WORDS_PER_PAGE implies #[trigger] h3.mem()[pf * WORDS_PER_PAGE + w]
                == 0 by {
                assert(h2.mem()[pf * WORDS_PER_PAGE + w] == h1.mem()[pf * WORDS_PER_PAGE + w]);
                assert(!(ri * WORDS_PER_PAGE <= pf * WORDS_PER_PAGE + w < (ri + 1) * WORDS_PER_PAGE));
            }
            assert forall|w: int| 0 <= w < WORDS_PER_PAGE implies #[trigger] h3.mem()[ri * WORDS_PER_PAGE + w]
                == 0 by {}
            assert forall|q: int, w: int|
                0 <= q < h0.num_pages() && h0.flags()[q] != 0 && 0 <= w < WORDS_PER_PAGE implies #[trigger] h3.mem()[q
                * WORDS_PER_PAGE + w] == h0.mem()[q * WORDS_PER_PAGE + w] by {
                assert(q != f);
                assert(h1.flags()[q] == h0.flags()[q]);
                assert(h2.flags()[q] != 0);
                assert(q != ri);
                assert(h1.mem()[q * WORDS_PER_PAGE + w] == h0.mem()[q * WORDS_PER_PAGE + w]);
                assert(h2.mem()[q * WORDS_PER_PAGE + w] == h1.mem()[q * WORDS_PER_PAGE + w]);
            }
            assert forall|q: int| 0 <= q < h0.num_pages() && h0.flags()[q] != 0 implies #[trigger] h3.flags()[q]
                == h0.flags()[q] && q != ri && q != pf by {
                assert(h1.flags()[q] == h0.flags()[q]);
                assert(h2.flags()[q] == h1.flags()[q]);
            }
            assert(keeps_taken(&h0, &h3));
        }
        assert(stack == 0 || stack + 2 * PAGE_SIZE <= u64::MAX);
        heap.write_word(pf, 2, STACK_ADDR + PAGE_SIZE * STACK_PAGES);
        let ghost dm = default_maps(stack, func_addr);
        proof {
            let ri = h3.page_index(root as int);
            assert forall|w: int| 0 <= w < 512 implies #[trigger] slot(heap, root, w) == 0 by {
                assert(ri * 512 + w != pf * 512 + 2);
                assert(heap.mem()[ri * 512 + w] == h3.mem()[ri * WORDS_PER_PAGE + w]);
            }
            crate::table_laws::lemma_zero_table_tree(heap, root);
            assert(0i64 & 1 == 0 && 0i64 & 14 == 0) by (bit_vector);
            assert forall|a: int| idx(a) implies !branch(#[trigger] l2(heap, root, a)) by {
                assert(slot(heap, root, a) == 0);
            }
            assert forall|a: int| idx(a) implies !branch(#[trigger] l2(&h3, root, a)) by {
                assert(h3.mem()[ri * WORDS_PER_PAGE + a] == 0);
                assert(slot(&h3, root, a) == 0);
            }
            assert forall|w: int| 0 <= w < WORDS_PER_PAGE && w != 2 implies #[trigger] heap.mem()[heap.page_index(
                frame as int,
            ) * WORDS_PER_PAGE + w] == 0 by {
                assert(h3.mem()[pf * WORDS_PER_PAGE + w] == 0);
            }
            assert(frame_ok(heap, root, frame));
            assert(22i64 & 14 != 0 && 30i64 & 14 != 0 && 26i64 & 14 != 0) by (bit_vector);
            assert forall|v: u64| #[trigger] translate(heap, root, v) == mapped_seq(dm.take(0), v, None) by {
                assert(dm.take(0).len() == 0);
            }
            assert forall|v: u64| #[trigger] leaf_of(heap, root, v) == mapped_entry(dm.take(0), v, None) by {
                assert(dm.take(0).len() == 0);
                crate::table_laws::lemma_vpn_bound(v);
                assert(!branch(l2(heap, root, crate::mmu::vpn_of(v, 2) as int)));
            }
            assert(grown_by(&h3, heap, root, dm, 0));
            assert(dm.len() == 104);
            assert forall|q: int, w: int|
                0 <= q < h0.num_pages() && h0.flags()[q] != 0 && 0 <= w < WORDS_PER_PAGE implies #[trigger] heap.mem()[q
                * WORDS_PER_PAGE + w] == h0.mem()[q * WORDS_PER_PAGE + w] by {
                assert(h3.flags()[q] == h0.flags()[q] && q != pf);
                assert(h3.mem()[q * WORDS_PER_PAGE + w] == h0.mem()[q * WORDS_PER_PAGE + w]);
            }
            assert forall|q: int| 0 <= q < h0.num_pages() && #[trigger] h0.flags()[q] != 0 implies q != heap.page_index(
                root as int,
            ) && outside_tree(&*heap, root, q, TABLE_SIZE as int) && heap.flags()[q] == h0.flags()[q] by {
                assert(h3.flags()[q] == h0.flags()[q] && q != ri);
            }
            assert(keeps_taken(&h0, heap));
        }
        let stack_addr = stack;
        let mut i: u64 = 0;
        while i < STACK_PAGES
            invariant
                heap.wf(),
                heap.same_layout(&h0),
                h0 == *old(heap),
                h3.wf(),
                h3.same_layout(&h0),
                took_pages(&h0, &h1, 1, frame, true),
                took_pages(&h1, &h2, 2, stack, false),
                took_pages(&h2, &h3, 1, root, true),
                frame != 0 && root != 0 && stack_addr == stack,
                pid0 == *old(next_pid),
                keeps_taken(&h0, &*heap),
                forall|q: int|
                    0 <= q < h0.num_pages() && #[trigger] h0.flags()[q] != 0 ==> q != heap.page_index(
                        root as int,
                    ) && outside_tree(&*heap, root, q, TABLE_SIZE as int),
                tree_wf(&*heap, root),
                frame_ok(&*heap, root, frame),
                22i64 & 14 != 0 && 30i64 & 14 != 0 && 26i64 & 14 != 0,
                *next_pid == *old(next_pid) + 1,
                i <= STACK_PAGES,
                stack_addr == 0 || stack_addr + 2 * PAGE_SIZE <= u64::MAX,
                dm == default_maps(stack_addr, func_addr),
                dm.len() == 104,
                grown_by(&h3, &*heap, root, dm, i as int),
                forall|v: u64| #[trigger] translate(&*heap, root, v) == mapped_seq(dm.take(i as int), v, None),
                forall|v: u64| #[trigger] leaf_of(&*heap, root, v) == mapped_entry(dm.take(i as int), v, None),
            decreases STACK_PAGES - i,
        {
            let addr = i * PAGE_SIZE;
            let va = STACK_ADDR + addr;
            let pa = stack_addr + addr;
            let ghost hp = *heap;
            proof {
                assert(dm[i as int].0 == va);
                crate::table_laws::lemma_grown_needs(&h3, &hp, root, dm, i as int);
            }
            if !map_if_room(heap, root, frame, va, pa, EntryBits::UserReadWrite.value()) {
                proof {
                    crate::table_laws::lemma_seq_tables_mono(&h3, root, dm, i + 1, 104);
                }
                assert(made_after_root(&h2, &h3, heap, pid0, *next_pid, func_addr, frame, stack, root, None));
                assert(made_after_frame(&h1, heap, pid0, *next_pid, func_addr, frame, None));
                return None;
            }
            proof {
                crate::table_laws::lemma_grow_step(&h3, &hp, &*heap, root, dm, i as int, pa, 22i64);
                lemma_keeps_step(&h0, &hp, &*heap, root);
                let ms2 = dm.take(i + 1);
                assert(ms2.drop_last() =~= dm.take(i as int));
                assert(ms2.last() == (va, pa, 22i64));
                assert forall|v: u64| #[trigger] translate(&*heap, root, v) == mapped_seq(ms2, v, None) by {
                    assert(translate(&*heap, root, v) == if same_vpage(v, va) {
                        Some(leaf_phys(leaf_entry(pa, 22i64), v, 0))
                    } else {
                        translate(&hp, root, v)
                    });
                }
                assert forall|v: u64| #[trigger] leaf_of(&*heap, root, v) == mapped_entry(ms2, v, None) by {
                    assert(leaf_of(&*heap, root, v) == if same_vpage(v, va) {
                        Some(leaf_entry(pa, 22i64))
                    } else {
                        leaf_of(&hp, root, v)
                    });
                }
            }
            i = i + 1;
        }
        let mut i: u64 = 0;
        while i <= 100
            invariant
                heap.wf(),
                heap.same_layout(&h0),
                h0 == *old(heap),
                h3.wf(),
                h3.same_layout(&h0),
                took_pages(&h0, &h1, 1, frame, true),
                took_pages(&h1, &h2, 2, stack, false),
                took_pages(&h2, &h3, 1, root, true),
                frame != 0 && root != 0 && stack_addr == stack,
                pid0 == *old(next_pid),
                keeps_taken(&h0, &*heap),
                forall|q: int|
                    0 <= q < h0.num_pages() && #[trigger] h0.flags()[q] != 0 ==> q != heap.page_index(
                        root as int,
                    ) && outside_tree(&*heap, root, q, TABLE_SIZE as int),
                tree_wf(&*heap, root),
                frame_ok(&*heap, root, frame),
                22i64 & 14 != 0 && 30i64 & 14 != 0 && 26i64 & 14 != 0,
                *next_pid == *old(next_pid) + 1,
                i <= 101,
                func_addr + 100 * PAGE_SIZE <= u64::MAX,
                dm == default_maps(stack_addr, func_addr),
                dm.len() == 104,
                grown_by(&h3, &*heap, root, dm, 2 + i),
                forall|v: u64| #[trigger] translate(&*heap, root, v) == mapped_seq(dm.take(2 + i), v, None),
                forall|v: u64| #[trigger] leaf_of(&*heap, root, v) == mapped_entry(dm.take(2 + i), v, None),
            decreases 101 - i,
        {
            let modifier = i * PAGE_SIZE;
            let va = func_addr + modifier;
            let ghost hp = *heap;
            proof {
                assert(dm[2 + i].0 == va);
                crate::table_laws::lemma_grown_needs(&h3, &hp, root, dm, 2 + i);
            }
            if !map_if_room(heap, root, frame, va, va, EntryBits::UserReadWriteExecute.value()) {
                proof {
                    crate::table_laws::lemma_seq_tables_mono(&h3, root, dm, 2 + i + 1, 104);
                }
                assert(made_after_root(&h2, &h3, heap, pid0, *next_pid, func_addr, frame, stack, root, None));
                assert(made_after_frame(&h1, heap, pid0, *next_pid, func_addr, frame, None));
                return None;
            }
            proof {
                crate::table_laws::lemma_grow_step(&h3, &hp, &*heap, root, dm, 2 + i, va, 30i64);
                lemma_keeps_step(&h0, &hp, &*heap, root);
                let ms2 = dm.take(2 + i + 1);
                assert(ms2.drop_last() =~= dm.take(2 + i));
                assert(ms2.last() == (va, va, 30i64));
                assert forall|v: u64| #[trigger] translate(&*heap, root, v) == mapped_seq(ms2, v, None) by {
                    assert(translate(&*heap, root, v) == if same_vpage(v, va) {
                        Some(leaf_phys(leaf_entry(va, 30i64), v, 0))
                    } else {
                        translate(&hp, root, v)
                    });
                }
                assert forall|v: u64| #[trigger] leaf_of(&*heap, root, v) == mapped_entry(ms2, v, None) by {
                    assert(leaf_of(&*heap, root, v) == if same_vpage(v, va) {
                        Some(leaf_entry(va, 30i64))
                    } else {
                        leaf_of(&hp, root, v)
                    });
                }
            }
            i = i + 1;
        }
        let ghost hp = *heap;
        proof {
            assert(dm[103].0 == 0x8000_0000u64);
            crate::table_laws::lemma_grown_needs(&h3, &hp, root, dm, 103);
        }
        if !map_if_room(heap, root, frame, 0x8000_0000, 0x8000_0000, EntryBits::UserReadExecute.value()) {
            assert(made_after_root(&h2, &h3, heap, pid0, *next_pid, func_addr, frame, stack, root, None));
            assert(made_after_frame(&h1, heap, pid0, *next_pid, func_addr, frame, None));
            return None;
        }
        proof {
            crate::table_laws::lemma_grow_step(&h3, &hp, &*heap, root, dm, 103, 0x8000_0000, 26i64);
            lemma_keeps_step(&h0, &hp, &*heap, root);
            assert(dm.take(103) =~= dm.drop_last());
            assert(dm.take(104) =~= dm);
            assert(dm.last() == (0x8000_0000u64, 0x8000_0000u64, 26i64));
            assert forall|v: u64| #[trigger] translate(&*heap, root, v) == mapped_seq(dm, v, None) by {
                assert(translate(&*heap, root, v) == if same_vpage(v, 0x8000_0000) {
                    Some(leaf_phys(leaf_entry(0x8000_0000, 26i64), v, 0))
                } else {
                    translate(&hp, root, v)
                });
            }
            assert forall|v: u64| #[trigger] leaf_of(&*heap, root, v) == mapped_entry(dm, v, None) by {
                assert(leaf_of(&*heap, root, v) == if same_vpage(v, 0x8000_0000) {
                    Some(leaf_entry(0x8000_0000, 26i64))
                } else {
                    leaf_of(&hp, root, v)
                });
            }
        }
        let p = Process {
            frame,
            stack: stack_addr,
            mepc: func_addr,
            pid,
            root,
            state: ProcessState::Running,
        };
        proof {
            if func_addr + 101 * PAGE_SIZE <= 0x80_0000_0000 {
                assert forall|v: u64|
                    page_floor(func_addr) <= v < page_floor(func_addr) + 101 * PAGE_SIZE && !(0x8000_0000
                        <= v < 0x8000_1000) implies {
                    &&& #[trigger] translate(heap, root, v) == Some(v)
                    &&& leaf_of(heap, root, v) is Some
                    &&& leaf_of(heap, root, v).unwrap() & 0x3ff == 0x1f
                } by {
                    lemma_default_maps_code(stack, func_addr, v);
                    assert(translate(heap, root, v) == mapped_seq(dm, v, None));
                    assert(leaf_of(heap, root, v) == mapped_entry(dm, v, None));
                }
            }
        }
        proof {
            if stack != 0 {
                let si = choose|i: int|
                    #![trigger first_fit(h1.flags(), 2, i)]
                    {
                        &&& first_fit(h1.flags(), 2, i)
                        &&& stack == h1.page_addr(i)
                        &&& h2.flags() == mark_run(h1.flags(), i, 2)
                        &&& h2.mem() == h1.mem()
                    };
                assert(stack % PAGE_SIZE == 0);
            }
            if func_addr + 101 * PAGE_SIZE <= 0x80_0000_0000 && (page_floor(func_addr) + 101 * PAGE_SIZE
                <= STACK_ADDR || page_floor(func_addr) >= STACK_ADDR + 2 * PAGE_SIZE) && stack + 2
                * PAGE_SIZE <= 0x0100_0000_0000_0000 {
                assert forall|o: u64| o < 2 * PAGE_SIZE implies {
                    &&& #[trigger] translate(heap, root, (STACK_ADDR + o) as u64) == Some((stack + o) as u64)
                    &&& leaf_of(heap, root, (STACK_ADDR + o) as u64) is Some
                    &&& leaf_of(heap, root, (STACK_ADDR + o) as u64).unwrap() & 0x3ff == 0x17
                } by {
                    lemma_default_maps_stack(stack, func_addr, o);
                    assert(translate(heap, root, (STACK_ADDR + o) as u64) == mapped_seq(
                        dm,
                        (STACK_ADDR + o) as u64,
                        None,
                    ));
                    assert(leaf_of(heap, root, (STACK_ADDR + o) as u64) == mapped_entry(
                        dm,
                        (STACK_ADDR + o) as u64,
                        None,
                    ));
                }
            }
        }
        assert(made_after_root(&h2, &h3, heap, pid0, *next_pid, func_addr, frame, stack, root, Some(p)));
        assert(made_after_frame(&h1, heap, pid0, *next_pid, func_addr, frame, Some(p)));
        Some(p)
    }
}

impl Process {
    /// Gives back the process's memory: its stack run, the tables below its root,
    /// then the root page. The trap frame page stays taken.
    pub fn drop(self, heap: &mut PageAllocator)
        requires
            old(heap).wf(),
            tree_wf(&*old(heap), self.root()),
            self.stack() != 0,
            old(heap).alloc_start() <= self.stack(),
            old(heap).page_index(self.stack() as int) < old(heap).num_pages(),
            exists|e: int|
                {
                    &&& #[trigger] run_to(old(heap).flags(), old(heap).page_index(self.stack() as int), e)
                    &&& forall|q: int|
                        old(heap).page_index(self.stack() as int) <= q <= e ==> q != old(heap).page_index(
                            self.root() as int,
                        ) && outside_tree(&*old(heap), self.root(), q, TABLE_SIZE as int)
                },
        ensures
            final(heap).wf(),
            final(heap).same_layout(&*old(heap)),
            final(heap).mem() == old(heap).mem(),
            exists|e: int|
                {
                    &&& #[trigger] run_to(old(heap).flags(), old(heap).page_index(self.stack() as int), e)
                    &&& forall|q: int|
                        old(heap).page_index(self.stack() as int) <= q <= e ==> #[trigger] final(heap).flags()[q] == 0
                    &&& forall|q: int|
                        0 <= q < old(heap).num_pages() && !(old(heap).page_index(self.stack() as int)
                            <= q <= e) && q != old(heap).page_index(self.root() as int) && outside_tree(
                            &*old(heap),
                            self.root(),
                            q,
                            TABLE_SIZE as int,
                        ) ==> #[trigger] final(heap).flags()[q] == old(heap).flags()[q]
                },
            final(heap).flags()[old(heap).page_index(self.root() as int)] == 0,
            forall|a: int|
                idx(a) && branch(l2(&*old(heap), self.root(), a)) ==> final(heap).flags()[old(
                    heap,
                ).page_index(#[trigger] t1(&*old(heap), self.root(), a) as int)] == 0,
            forall|a: int, b: int|
                idx(a) && idx(b) && branch(l2(&*old(heap), self.root(), a)) && branch(
                    l1(&*old(heap), self.root(), a, b),
                ) ==> final(heap).flags()[old(heap).page_index(
                    #[trigger] t0(&*old(heap), self.root(), a, b) as int,
                )] == 0,
    {
        let ghost h0 = *heap;
        let ghost root = self.root;
        let ghost ps = h0.page_index(self.stack as int);
        let ghost e = choose|e: int|
            {
                &&& #[trigger] run_to(h0.flags(), ps, e)
                &&& forall|q: int|
                    ps <= q <= e ==> q != h0.page_index(root as int) && outside_tree(
                        &h0,
                        root,
                        q,
                        TABLE_SIZE as int,
                    )
            };
        dealloc(heap, self.stack);
        let ghost h1 = *heap;
        proof {
            let e2 = choose|e2: int|
                {
                    &&& #[trigger] run_to(h0.flags(), ps, e2)
                    &&& h1.flags() == clear_run(h0.flags(), ps, e2)
                };
            if e2 != e {
                if e2 < e {
                    assert(h0.flags()[e2] == 1);
                } else {
                    assert(h0.flags()[e] == 1);
                }
            }
            assert(e2 == e);
            crate::table_laws::lemma_tree_pages(&h0, root, 0, 0, 0, 0);
            assert forall|a: int|
                idx(a) && branch(l2(&h0, root, a)) implies h1.flags()[h0.page_index(
                #[trigger] t1(&h0, root, a) as int,
            )] == h0.flags()[h0.page_index(t1(&h0, root, a) as int)] by {
                let q = h0.page_index(t1(&h0, root, a) as int);
                crate::table_laws::lemma_tree_pages(&h0, root, a, 0, a, 0);
                lemma_table_addr(&h0, t1(&h0, root, a));
                if ps <= q <= e {
                    assert(outside_tree(&h0, root, q, TABLE_SIZE as int));
                }
            }
            assert forall|a: int, b: int|
                idx(a) && idx(b) && branch(l2(&h0, root, a)) && branch(l1(&h0, root, a, b)) implies h1.flags()[h0.page_index(
                #[trigger] t0(&h0, root, a, b) as int,
            )] == h0.flags()[h0.page_index(t0(&h0, root, a, b) as int)] by {
                let q = h0.page_index(t0(&h0, root, a, b) as int);
                crate::table_laws::lemma_tree_pages(&h0, root, a, b, a, b);
                lemma_table_addr(&h0, t0(&h0, root, a, b));
                if ps <= q <= e {
                    assert(outside_tree(&h0, root, q, TABLE_SIZE as int));
                }
            }
            lemma_table_addr(&h0, root);
            let pr0 = h0.page_index(root as int);
            if ps <= pr0 && pr0 <= e {
                assert(outside_tree(&h0, root, pr0, TABLE_SIZE as int));
                assert(pr0 != h0.page_index(root as int));
            }
            assert(h1.flags()[h0.page_index(root as int)] == h0.flags()[h0.page_index(root as int)]);
            crate::table_laws::lemma_tree_same_tables(&h0, &h1, root);
        }
        Table::unmap(heap, self.root);
        let ghost h2 = *heap;
        proof {
            crate::table_laws::lemma_tree_pages(&h1, root, 0, 0, 0, 0);
            let pr = h0.page_index(root as int);
            assert(outside_tree(&h1, root, pr, TABLE_SIZE as int)) by {
                assert forall|a: int|
                    idx(a) && a < TABLE_SIZE && branch(l2(&h1, root, a)) implies h1.page_index(
                    #[trigger] t1(&h1, root, a) as int,
                ) != pr by {
                    crate::table_laws::lemma_tree_pages(&h1, root, a, 0, a, 0);
                }
                assert forall|a: int, b: int|
                    idx(a) && a < TABLE_SIZE && idx(b) && branch(l2(&h1, root, a)) && branch(
                        l1(&h1, root, a, b),
                    ) implies h1.page_index(#[trigger] t0(&h1, root, a, b) as int) != pr by {
                    crate::table_laws::lemma_tree_pages(&h1, root, a, b, a, b);
                }
            }
            lemma_table_addr(&h0, root);
            assert(run_to(h2.flags(), h2.page_index(root as int), pr));
        }
        dealloc(heap, self.root);
        proof {
            let pr = h0.page_index(root as int);
            let e3 = choose|e3: int|
                {
                    &&& #[trigger] run_to(h2.flags(), pr, e3)
                    &&& heap.flags() == clear_run(h2.flags(), pr, e3)
                };
            if e3 > pr {
                assert(h2.flags()[pr] == 1);
            }
            assert(heap.flags() =~= h2.flags().update(pr, 0u8));
            assert forall|q: int| ps <= q <= e implies #[trigger] heap.flags()[q] == 0 by {
                assert(outside_tree(&h0, root, q, TABLE_SIZE as int));
            }
            assert forall|a: int| #[trigger] t1(&h1, root, a) == t1(&h0, root, a) by {}
            assert forall|a: int, b: int| #[trigger] t0(&h1, root, a, b) == t0(&h0, root, a, b) by {}
            assert forall|a: int| #[trigger] l2(&h1, root, a) == l2(&h0, root, a) by {}
            assert forall|a: int, b: int| #[trigger] l1(&h1, root, a, b) == l1(&h0, root, a, b) by {}
            assert forall|q: int|
                0 <= q < h0.num_pages() && !(ps <= q <= e) && q != pr && outside_tree(
                    &h0,
                    root,
                    q,
                    TABLE_SIZE as int,
                ) implies #[trigger] heap.flags()[q] == h0.flags()[q] by {
                assert(outside_tree(&h1, root, q, TABLE_SIZE as int));
            }
            assert(run_to(h0.flags(), ps, e));
            assert forall|a: int|
                idx(a) && branch(l2(&h0, root, a)) implies heap.flags()[h0.page_index(
                #[trigger] t1(&h0, root, a) as int,
            )] == 0 by {
                crate::table_laws::lemma_tree_pages(&h0, root, a, 0, a, 0);
                assert(branch(l2(&h1, root, a)));
                assert(h2.flags()[h1.page_index(t1(&h1, root, a) as int)] == 0);
            }
            assert forall|a: int, b: int|
                idx(a) && idx(b) && branch(l2(&h0, root, a)) && branch(l1(&h0, root, a, b)) implies heap.flags()[h0.page_index(
                #[trigger] t0(&h0, root, a, b) as int,
            )] == 0 by {
                crate::table_laws::lemma_tree_pages(&h0, root, a, b, a, b);
                assert(branch(l2(&h1, root, a)) && branch(l1(&h1, root, a, b)));
                assert(h2.flags()[h1.page_index(t0(&h1, root, a, b) as int)] == 0);
            }
        }
    }
}

/// The kernel's processes, in scheduling order, and the id the next process gets.
pub struct ProcessList {
    list: Option<VecDeque<Process>>,
    next_pid: u16,
}

impl ProcessList {
    pub closed spec fn procs(&self) -> Option<Seq<Process>> {
        match self.list {
            Some(l) => Some(l@),
            None => None,
        }
    }

    pub closed spec fn next_pid(&self) -> u16 {
        self.next_pid
    }

    /// No list yet; the first process gets id 1.
    pub fn new() -> (r: ProcessList)
        ensures
            r.procs() == None::<Seq<Process>>,
            r.next_pid() == 1,
    {
        ProcessList { list: None, next_pid: 1 }
    }

    /// Whether the list was started.
    pub fn is_started(&self) -> (r: bool)
        ensures
            r == self.procs() is Some,
    {
        self.list.is_some()
    }

    pub fn get_next_pid(&self) -> (r: u16)
        ensures
            r == self.next_pid(),
    {
        self.next_pid
    }

    /// Number of processes, 0 when there is no list.
    pub fn len(&self) -> (r: usize)
        ensures
            r == match self.procs() {
                Some(s) => s.len(),
                None => 0,
            },
    {
        match &self.list {
            Some(l) => l.len(),
            None => 0,
        }
    }
}

/// Where the first process starts: the address it starts running at, its trap
/// frame and the `satp` value of its tables.
pub struct ProcessStart {
    pub pc: u64,
    pub frame: u64,
    pub satp: u64,
}

/// When there is a process list, makes a process for the code at `func_addr`
/// and puts it at the back.
pub fn add_process_default(procs: &mut ProcessList, heap: &mut PageAllocator, func_addr: u64)
    requires
        old(heap).wf(),
        old(heap).num_pages() >= STACK_PAGES,
        old(procs).next_pid() < u16::MAX,
        func_addr + 100 * PAGE_SIZE <= u64::MAX,
    ensures
        old(procs).procs() is None ==> *final(procs) == *old(procs) && *final(heap) == *old(heap),
        old(procs).procs() is Some ==> exists|r: Option<Process>|
            {
                &&& #[trigger] made_process(
                    &*old(heap),
                    &*final(heap),
                    old(procs).next_pid(),
                    final(procs).next_pid(),
                    func_addr,
                    r,
                )
                &&& final(procs).procs() == Some(
                    match r {
                        Some(p) => old(procs).procs().unwrap().push(p),
                        None => old(procs).procs().unwrap(),
                    },
                )
            },
{
    if let Some(mut proc_list) = procs.list.take() {
        let proc = Process::new_default(heap, &mut procs.next_pid, func_addr);
        let ghost r = proc;
        match proc {
            Some(p) => {
                proc_list.push_back(p);
            },
            None => {},
        }
        procs.list = Some(proc_list);
        assert(made_process(
            &*old(heap),
            &*heap,
            old(procs).next_pid(),
            procs.next_pid(),
            func_addr,
            r,
        ));
    }
}

/// Starts the process list with one process for the code at `init_addr`.
/// Gives where it starts, or `None` when the heap had no room for it. The list
/// is started once: there is no earlier list whose processes would have to be
/// given back.
pub fn init(procs: &mut ProcessList, heap: &mut PageAllocator, init_addr: u64) -> (r: Option<ProcessStart>)
    requires
        old(heap).wf(),
        old(heap).num_pages() >= STACK_PAGES,
        old(procs).next_pid() < u16::MAX,
        init_addr + 100 * PAGE_SIZE <= u64::MAX,
        old(procs).procs() is None,
    ensures
        exists|made: Option<Process>|
            {
                &&& #[trigger] made_process(
                    &*old(heap),
                    &*final(heap),
                    old(procs).next_pid(),
                    final(procs).next_pid(),
                    init_addr,
                    made,
                )
                &&& match made {
                    Some(p) => {
                        &&& final(procs).procs() == Some(seq![p])
                        &&& r == Some(
                            ProcessStart {
                                pc: PROCESS_STARTING_ADDR,
                                frame: p.frame(),
                                satp: satp_value(SatpMode::Sv39.spec_value(), 1, p.root()),
                            },
                        )
                    },
                    None => {
                        &&& final(procs).procs() == Some(Seq::<Process>::empty())
                        &&& r is None
                    },
                }
            },
{
    procs.list = Some(VecDeque::with_capacity(5));
    let ghost h0 = *heap;
    let ghost pid0 = procs.next_pid;
    add_process_default(procs, heap, init_addr);
    let ghost made = choose|r: Option<Process>|
        {
            &&& #[trigger] made_process(&h0, &*heap, pid0, procs.next_pid(), init_addr, r)
            &&& procs.procs() == Some(
                match r {
                    Some(p) => Seq::<Process>::empty().push(p),
                    None => Seq::<Process>::empty(),
                },
            )
        };
    match &procs.list {
        Some(l) => {
            if l.len() == 0 {
                assert(made is None);
                assert(procs.procs() =~= Some(Seq::<Process>::empty()));
                return None;
            }
            let first = &l[0];
            let frame = first.frame;
            let satp = build_satp(SatpMode::Sv39, 1, first.root);
            assert(made is Some);
            assert(Seq::<Process>::empty().push(made.unwrap()) =~= seq![made.unwrap()]);
            Some(ProcessStart { pc: PROCESS_STARTING_ADDR, frame, satp })
        },
        None => None,
    }
}

/// The value of `satp` that selects Sv39 paging, address space `pid` and the
/// root table at page number `ppn`.
pub open spec fn sched_satp(pid: u64, ppn: u64) -> u64 {
    0x8000_0000_0000_0000u64 | (pid << 44u64) | ppn
}

/// Moves the front process to the back and picks the new front: gives its frame
/// address, program counter and `satp` value when it is running (zeros
/// otherwise), and its id, which the kernel announces. Without a process list
/// it gives zeros and announces nothing. The list, when there is one, must not
/// be empty: there is no front process to move.
pub fn schedule(procs: &mut ProcessList) -> (r: (u64, u64, u64, Option<u64>))
    requires
        match old(procs).procs() {
            Some(s) => s.len() > 0,
            None => true,
        },
    ensures
        final(procs).next_pid() == old(procs).next_pid(),
        match old(procs).procs() {
            None => final(procs).procs() == old(procs).procs() && r == (0u64, 0u64, 0u64, None::<u64>),
            Some(s) => {
                let s2 = s.skip(1).push(s[0]);
                let p = s2[0];
                let running = p.state() == ProcessState::Running;
                let frame = if running { p.frame() } else { 0 };
                let mepc = if running { p.mepc() } else { 0 };
                let pid = if running { p.pid() as u64 } else { 0 };
                let ppn = if running { p.root() >> 12u64 } else { 0 };
                &&& final(procs).procs() == Some(s2)
                &&& r == (frame, mepc, if frame != 0 { sched_satp(pid, ppn) } else { 0 }, Some(pid))
            },
        },
{
    if let Some(mut plist) = procs.list.take() {
        let ghost s = plist@;
        let first = plist.pop_front();
        match first {
            Some(p) => {
                plist.push_back(p);
            },
            None => {},
        }
        assert(plist@ =~= s.skip(1).push(s[0]));
        let mut frame_addr: u64 = 0;
        let mut mepc: u64 = 0;
        let mut satp: u64 = 0;
        let mut pid: u64 = 0;
        let proc = &plist[0];
        match proc.get_state() {
            ProcessState::Running => {
                frame_addr = proc.get_frame_address();
                mepc = proc.get_program_counter();
                satp = proc.get_table_address() >> 12;
                pid = proc.get_pid() as u64;
            },
            _ => {},
        }
        procs.list = Some(plist);
        assert(pid < 0x10000);
        assert((8u64 << 60u64) == 0x8000_0000_0000_0000u64) by (bit_vector);
        if frame_addr != 0 {
            return (frame_addr, mepc, (8 << 60) | (pid << 44) | satp, Some(pid));
        } else {
            return (frame_addr, mepc, 0, Some(pid));
        }
    }
    (0, 0, 0, None)
}

/// The process order after one call of `schedule`.
pub open spec fn rotate(s: Seq<Process>) -> Seq<Process> {
    s.skip(1).push(s[0])
}

/// The order after `k` calls.
pub open spec fn rotate_n(s: Seq<Process>, k: nat) -> Seq<Process>
    decreases k,
{
    if k == 0 {
        s
    } else {
        rotate(rotate_n(s, (k - 1) as nat))
    }
}

/// Round robin: after `k` turns the first `k` processes have moved to the back
/// in order; after as many turns as there are processes, the order is back.
pub proof fn lemma_round_robin(s: Seq<Process>, k: nat)
    requires
        k <= s.len(),
        s.len() > 0,
    ensures
        rotate_n(s, k) == s.skip(k as int) + s.take(k as int),
        k == s.len() ==> rotate_n(s, k) == s,
    decreases k,
{
    if k > 0 {
        lemma_round_robin(s, (k - 1) as nat);
        let r = rotate_n(s, (k - 1) as nat);
        assert(r.len() == s.len());
        assert(rotate(r) =~= s.skip(k as int) + s.take(k as int));
    } else {
        assert(s.skip(0) + s.take(0) =~= s);
    }
    if k == s.len() {
        assert(s.skip(k as int) + s.take(k as int) =~= s);
    }
}

} // verus!
