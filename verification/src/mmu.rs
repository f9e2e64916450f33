use vstd::prelude::*;
use crate::page::{
    align_val, spare_at_least, PAGE_ORDER, first_fit, dealloc, run_to, clear_run, free_count, lemma_free_count_take, lemma_no_fit_one, mark_run, zalloc, zero_pages,
    PageAllocator, PAGE_SIZE, WORDS_PER_PAGE,
};

verus! {

/// Number of entries in one page table.
pub const TABLE_SIZE: u64 = 512;

/// Levels of redirection below the root table (Sv39 has three levels: 2, 1, 0).
pub const N_LEVELS: u64 = 2;

/// The bits of an Sv39 page table entry, alone and in the usual combinations.
#[derive(Clone, Copy, Debug, PartialEq, Eq, Structural)]
pub enum EntryBits {
    Empty,
    Valid,
    Read,
    Write,
    Exectue,
    User,
    Global,
    Access,
    Dirty,
    ReadWrite,
    ReadExecute,
    ReadWriteExecute,
    UserReadWrite,
    UserReadExecute,
    UserReadWriteExecute,
}

impl EntryBits {
    pub open spec fn spec_value(self) -> i64 {
        match self {
            EntryBits::Empty => 0,
            EntryBits::Valid => 1,
            EntryBits::Read => 2,
            EntryBits::Write => 4,
            EntryBits::Exectue => 8,
            EntryBits::User => 16,
            EntryBits::Global => 32,
            EntryBits::Access => 64,
            EntryBits::Dirty => 128,
            EntryBits::ReadWrite => 6,
            EntryBits::ReadExecute => 10,
            EntryBits::ReadWriteExecute => 14,
            EntryBits::UserReadWrite => 22,
            EntryBits::UserReadExecute => 26,
            EntryBits::UserReadWriteExecute => 30,
        }
    }

    pub fn value(self) -> (r: i64)
        ensures
            r == self.spec_value(),
    {
        match self {
            EntryBits::Empty => 0,
            EntryBits::Valid => 1,
            EntryBits::Read => 2,
            EntryBits::Write => 4,
            EntryBits::Exectue => 8,
            EntryBits::User => 16,
            EntryBits::Global => 32,
            EntryBits::Access => 64,
            EntryBits::Dirty => 128,
            EntryBits::ReadWrite => 6,
            EntryBits::ReadExecute => 10,
            EntryBits::ReadWriteExecute => 14,
            EntryBits::UserReadWrite => 22,
            EntryBits::UserReadExecute => 26,
            EntryBits::UserReadWriteExecute => 30,
        }
    }
}

/// The V bit is set.
pub open spec fn valid(e: i64) -> bool {
    e & 1 != 0
}

/// One of the R, W, X bits is set: the entry maps a page rather than pointing to a table.
pub open spec fn leaf(e: i64) -> bool {
    e & 14 != 0
}

/// A valid entry that points to the next table.
pub open spec fn branch(e: i64) -> bool {
    valid(e) && !leaf(e)
}

/// The address of the table a branch entry points to: its PPN field placed at bit 12.
pub open spec fn target(e: i64) -> u64 {
    ((e as u64) & !0x3ffu64) << 2u64
}

/// Index into the level-`level` table given by the virtual address `addr`.
pub open spec fn vpn_of(addr: u64, level: int) -> u64 {
    (addr >> ((12 + 9 * level) as u64)) & 0x1ff
}

/// Mask of the page offset of a page mapped at level `level`.
pub open spec fn offset_mask(level: int) -> u64 {
    ((1u64 << ((12 + 9 * level) as u64)) - 1) as u64
}

/// The physical address that a leaf entry at level `level` gives for `vaddr`.
pub open spec fn leaf_phys(e: i64, vaddr: u64, level: int) -> u64 {
    (((e as u64) << 2u64) & !offset_mask(level)) | (vaddr & offset_mask(level))
}

/// The leaf entry that maps the page holding `paddr` with the permission bits `bits`.
pub open spec fn leaf_entry(paddr: u64, bits: i64) -> i64 {
    ((((paddr >> 30u64) & 0x3ff_ffff) << 28u64) as i64) | ((((paddr >> 21u64) & 0x1ff)
        << 19u64) as i64) | ((((paddr >> 12u64) & 0x1ff) << 10u64) as i64) | bits | 1
}

/// A page table entry.
#[derive(Clone, Copy)]
pub struct Entry {
    pub entry: i64,
}

impl Entry {
    pub fn is_valid(&self) -> (r: bool)
        ensures
            r == valid(self.entry),
    {
        self.entry & EntryBits::Valid.value() != 0
    }

    pub fn is_invalid(&self) -> (r: bool)
        ensures
            r == !valid(self.entry),
    {
        !self.is_valid()
    }

    pub fn is_leaf(&self) -> (r: bool)
        ensures
            r == leaf(self.entry),
    {
        self.entry & EntryBits::ReadWriteExecute.value() != 0
    }

    pub fn is_branch(&self) -> (r: bool)
        ensures
            r == !leaf(self.entry),
    {
        !self.is_leaf()
    }

    pub fn get_entry(&self) -> (r: i64)
        ensures
            r == self.entry,
    {
        self.entry
    }

    pub fn set_entry(&mut self, val: i64)
        ensures
            final(self).entry == val,
    {
        self.entry = val;
    }
}

/// The three virtual page numbers of a virtual address, level 0 first.
fn vpn_from_address(addr: u64) -> (r: [u64; 3])
    ensures
        r@ == seq![vpn_of(addr, 0), vpn_of(addr, 1), vpn_of(addr, 2)],
        forall|l: int| 0 <= l < 3 ==> #[trigger] r@[l] < TABLE_SIZE,
{
    let r = [(addr >> 12) & 0x1ff, (addr >> 21) & 0x1ff, (addr >> 30) & 0x1ff];
    assert(r@ =~= seq![vpn_of(addr, 0), vpn_of(addr, 1), vpn_of(addr, 2)]);
    assert(forall|x: u64| (x & 0x1ff) < 512) by (bit_vector);
    r
}

/// The three physical page numbers of a physical address, level 0 first.
fn ppn_from_address(addr: u64) -> (r: [u64; 3])
    ensures
        r@ == seq![(addr >> 12u64) & 0x1ff, (addr >> 21u64) & 0x1ff, (addr >> 30u64) & 0x3ff_ffff],
{
    let r = [(addr >> 12) & 0x1ff, (addr >> 21) & 0x1ff, (addr >> 30) & 0x3ff_ffff];
    assert(r@ =~= seq![(addr >> 12u64) & 0x1ff, (addr >> 21u64) & 0x1ff, (addr >> 30u64) & 0x3ff_ffff]);
    r
}

/// `a` is the address of one of the heap's pages.
pub open spec fn is_table(h: &PageAllocator, a: u64) -> bool {
    &&& h.alloc_start() <= a
    &&& a < h.alloc_start() + PAGE_SIZE * h.num_pages()
    &&& a % PAGE_SIZE == 0
}

/// A table address is the address of the page it falls in.
pub proof fn lemma_table_addr(h: &PageAllocator, a: u64)
    requires
        h.wf(),
        is_table(h, a),
    ensures
        0 <= h.page_index(a as int) < h.num_pages(),
        a == h.page_addr(h.page_index(a as int)),
{
    let s = h.alloc_start() as int;
    let q = (a - s) / 4096;
    assert((a - s) % 4096 == 0);
    assert(a - s == 4096 * q);
    assert(q < h.num_pages()) by (nonlinear_arith)
        requires
            a - s == 4096 * q,
            a - s < 4096 * h.num_pages(),
    ;
}

/// Two tables in the same page are the same table.
pub proof fn lemma_table_addr_inj(h: &PageAllocator, a: u64, b: u64)
    requires
        h.wf(),
        is_table(h, a),
        is_table(h, b),
        h.page_index(a as int) == h.page_index(b as int),
    ensures
        a == b,
{
    lemma_table_addr(h, a);
    lemma_table_addr(h, b);
}

/// Entry `w` of the table at address `a`.
pub open spec fn slot(h: &PageAllocator, a: u64, w: int) -> i64 {
    h.mem()[h.page_index(a as int) * WORDS_PER_PAGE + w] as i64
}

/// Reads entry `w` of the table at address `a`.
fn read_entry(h: &PageAllocator, a: u64, w: u64) -> (r: i64)
    requires
        h.wf(),
        is_table(h, a),
        w < TABLE_SIZE,
    ensures
        r == slot(h, a, w as int),
{
    let p = (a - h.get_alloc_start()) / PAGE_SIZE;
    h.read_word(p, w) as i64
}

/// Where the hardware walk from entry `e` at level `level` ends for `vaddr`:
/// a leaf gives the address, an invalid entry or a branch at level 0 a fault.
pub open spec fn walk(h: &PageAllocator, e: i64, vaddr: u64, level: int) -> Option<u64>
    decreases level,
{
    if leaf(e) {
        Some(leaf_phys(e, vaddr, level))
    } else if !valid(e) || level <= 0 {
        None
    } else {
        walk(h, slot(h, target(e), vpn_of(vaddr, level - 1) as int), vaddr, level - 1)
    }
}

/// Every table that the walk from `e` visits is a page of the heap.
pub open spec fn walk_ok(h: &PageAllocator, e: i64, vaddr: u64, level: int) -> bool
    decreases level,
{
    if leaf(e) || !valid(e) || level <= 0 {
        true
    } else {
        is_table(h, target(e)) && walk_ok(
            h,
            slot(h, target(e), vpn_of(vaddr, level - 1) as int),
            vaddr,
            level - 1,
        )
    }
}

/// The physical address that the table rooted at `root` gives for `vaddr`, if any.
pub open spec fn translate(h: &PageAllocator, root: u64, vaddr: u64) -> Option<u64> {
    walk(h, slot(h, root, vpn_of(vaddr, 2) as int), vaddr, 2)
}

/// The walk for `vaddr` from the root at `root` stays in the heap.
pub open spec fn translate_ok(h: &PageAllocator, root: u64, vaddr: u64) -> bool {
    is_table(h, root) && walk_ok(h, slot(h, root, vpn_of(vaddr, 2) as int), vaddr, 2)
}

/// The entry a newly made table at address `page` is linked in with.
pub open spec fn dir_entry(page: u64) -> i64 {
    ((page as i64) >> 2i64) | 1
}

pub proof fn lemma_dir_entry(page: u64)
    requires
        page % 4096 == 0,
    ensures
        branch(dir_entry(page)),
        target(dir_entry(page)) == page,
        (dir_entry(page) as u64) as i64 == dir_entry(page),
{
    let e = dir_entry(page);
    assert(e & 1 != 0 && e & 14 == 0 && ((e as u64) & !0x3ffu64) << 2u64 == page
        && (e as u64) as i64 == e) by (bit_vector)
        requires
            page % 4096 == 0,
            e == ((page as i64) >> 2i64) | 1,
    ;
}

pub proof fn lemma_leaf_entry(paddr: u64, bits: i64)
    requires
        bits & 14 != 0,
    ensures
        leaf(leaf_entry(paddr, bits)),
        valid(leaf_entry(paddr, bits)),
        (leaf_entry(paddr, bits) as u64) as i64 == leaf_entry(paddr, bits),
{
    let e = leaf_entry(paddr, bits);
    assert(e & 14 != 0 && e & 1 != 0 && (e as u64) as i64 == e) by (bit_vector)
        requires
            bits & 14 != 0,
            e == ((((paddr >> 30u64) & 0x3ff_ffff) << 28u64) as i64) | ((((paddr >> 21u64)
                & 0x1ff) << 19u64) as i64) | ((((paddr >> 12u64) & 0x1ff) << 10u64) as i64)
                | bits | 1,
    ;
}

/// A leaf made with flag bits only (below bit 10) carries exactly those bits and V.
pub proof fn lemma_leaf_bits(paddr: u64, bits: i64)
    requires
        0 <= bits < 1024,
    ensures
        leaf_entry(paddr, bits) & 0x3ff == bits | 1,
{
    let e = leaf_entry(paddr, bits);
    assert(e & 0x3ff == bits | 1) by (bit_vector)
        requires
            0 <= bits < 1024,
            e == ((((paddr >> 30u64) & 0x3ff_ffff) << 28u64) as i64) | ((((paddr >> 21u64)
                & 0x1ff) << 19u64) as i64) | ((((paddr >> 12u64) & 0x1ff) << 10u64) as i64)
                | bits | 1,
    ;
}

/// A page of the heap that was handed out on its own: a table page.
pub open spec fn table_ok(h: &PageAllocator, a: u64) -> bool {
    is_table(h, a) && h.flags()[h.page_index(a as int)] == 3
}

/// Entry `i` of the root table.
pub open spec fn l2(h: &PageAllocator, root: u64, i: int) -> i64 {
    slot(h, root, i)
}

/// The level-1 table that root entry `i` points to.
pub open spec fn t1(h: &PageAllocator, root: u64, i: int) -> u64 {
    target(l2(h, root, i))
}

/// Entry `j` of the level-1 table under root entry `i`.
pub open spec fn l1(h: &PageAllocator, root: u64, i: int, j: int) -> i64 {
    slot(h, t1(h, root, i), j)
}

/// The level-0 table under root entry `i` and level-1 entry `j`.
pub open spec fn t0(h: &PageAllocator, root: u64, i: int, j: int) -> u64 {
    target(l1(h, root, i, j))
}

/// Entry `k` of the level-0 table under root entry `i` and level-1 entry `j`.
pub open spec fn l0(h: &PageAllocator, root: u64, i: int, j: int, k: int) -> i64 {
    slot(h, t0(h, root, i, j), k)
}

pub open spec fn idx(i: int) -> bool {
    0 <= i < TABLE_SIZE
}

/// The tables reachable from the root at `root` form a tree of table pages: every
/// branch entry points to a page handed out on its own, no page is reached twice,
/// and the level-0 tables hold no branch entries.
#[verifier::opaque]
pub open spec fn tree_wf(h: &PageAllocator, root: u64) -> bool {
    &&& table_ok(h, root)
    &&& forall|i: int| idx(i) ==> !leaf(#[trigger] l2(h, root, i))
    &&& forall|i: int|
        idx(i) && branch(l2(h, root, i)) ==> table_ok(h, #[trigger] t1(h, root, i)) && t1(
            h,
            root,
            i,
        ) != root
    &&& forall|i: int, j: int|
        idx(i) && idx(j) && branch(l2(h, root, i)) ==> !leaf(#[trigger] l1(h, root, i, j))
    &&& forall|i: int, i2: int|
        idx(i) && idx(i2) && i != i2 && branch(l2(h, root, i)) && branch(l2(h, root, i2))
            ==> #[trigger] t1(h, root, i) != #[trigger] t1(h, root, i2)
    &&& forall|i: int, j: int|
        idx(i) && idx(j) && branch(l2(h, root, i)) && branch(l1(h, root, i, j)) ==> table_ok(
            h,
            #[trigger] t0(h, root, i, j),
        ) && t0(h, root, i, j) != root
    &&& forall|i: int, j: int, k: int|
        idx(i) && idx(j) && idx(k) && branch(l2(h, root, i)) && branch(l1(h, root, i, j))
            && branch(l2(h, root, k)) ==> #[trigger] t0(h, root, i, j) != #[trigger] t1(h, root, k)
    &&& forall|i: int, j: int, i2: int, j2: int|
        idx(i) && idx(j) && idx(i2) && idx(j2) && (i != i2 || j != j2) && branch(l2(h, root, i))
            && branch(l1(h, root, i, j)) && branch(l2(h, root, i2)) && branch(
            l1(h, root, i2, j2),
        ) ==> #[trigger] t0(h, root, i, j) != #[trigger] t0(h, root, i2, j2)
    &&& forall|i: int, j: int, k: int|
        idx(i) && idx(j) && idx(k) && branch(l2(h, root, i)) && branch(l1(h, root, i, j))
            ==> !branch(#[trigger] l0(h, root, i, j, k))
}

/// How many tables a mapping of `vaddr` has to add.
pub open spec fn tables_needed(h: &PageAllocator, root: u64, vaddr: u64) -> nat {
    let i = vpn_of(vaddr, 2) as int;
    let j = vpn_of(vaddr, 1) as int;
    if !valid(l2(h, root, i)) {
        2
    } else if !valid(l1(h, root, i, j)) {
        1
    } else {
        0
    }
}

/// Free pages that a one-page allocation can take (it never takes the last page).
pub open spec fn spare_pages(h: &PageAllocator) -> nat {
    free_count(h.flags(), h.num_pages() - 1)
}

/// One of the first `k` mappings of `ms` lies under root entry `i`.
pub open spec fn seen_l2(ms: Seq<(u64, u64, i64)>, k: int, i: int) -> bool {
    exists|m: int| #![trigger ms[m]] 0 <= m < k && vpn_of(ms[m].0, 2) == i
}

/// One of the first `k` mappings of `ms` lies under root entry `i` and level-1 entry `j`.
pub open spec fn seen_l1(ms: Seq<(u64, u64, i64)>, k: int, i: int, j: int) -> bool {
    exists|m: int| #![trigger ms[m]] 0 <= m < k && vpn_of(ms[m].0, 2) == i && vpn_of(ms[m].0, 1) == j
}

/// The tables that mapping `ms[k]` adds to the tree at `root` of `h` once the
/// mappings before it were made: a level-1 table unless its root entry already
/// led to one, a level-0 table unless its level-1 entry already did.
pub open spec fn step_tables(h: &PageAllocator, root: u64, ms: Seq<(u64, u64, i64)>, k: int) -> nat {
    let i = vpn_of(ms[k].0, 2) as int;
    let j = vpn_of(ms[k].0, 1) as int;
    let has1 = branch(l2(h, root, i)) || seen_l2(ms, k, i);
    let has0 = (branch(l2(h, root, i)) && branch(l1(h, root, i, j))) || seen_l1(ms, k, i, j);
    (if has1 { 0nat } else { 1nat }) + (if has0 { 0nat } else { 1nat })
}

/// The tables that making the first `t` mappings of `ms`, in order, adds to the
/// tree at `root` of `h`.
pub open spec fn seq_tables(h: &PageAllocator, root: u64, ms: Seq<(u64, u64, i64)>, t: int) -> nat
    decreases t,
{
    if t <= 0 {
        0
    } else {
        seq_tables(h, root, ms, t - 1) + step_tables(h, root, ms, t - 1)
    }
}

/// `h1` is `h0` after the first `k` mappings of `ms` were made in the tree at
/// `root`: its root and level-1 entries lead to tables exactly where those of
/// `h0` did or a mapping passed, the only pages taken are new tables, and
/// the spare pages went down by the tables the mappings needed.
pub open spec fn grown_by(
    h0: &PageAllocator,
    h1: &PageAllocator,
    root: u64,
    ms: Seq<(u64, u64, i64)>,
    k: int,
) -> bool {
    &&& forall|i: int|
        idx(i) ==> (branch(#[trigger] l2(h1, root, i)) <==> branch(l2(h0, root, i)) || seen_l2(
            ms,
            k,
            i,
        ))
    &&& forall|i: int, j: int|
        idx(i) && idx(j) ==> ((branch(l2(h1, root, i)) && branch(#[trigger] l1(h1, root, i, j)))
            <==> (branch(l2(h0, root, i)) && branch(l1(h0, root, i, j))) || seen_l1(ms, k, i, j))
    &&& forall|q: int|
        0 <= q < h0.num_pages() && #[trigger] h1.flags()[q] != h0.flags()[q] ==> h0.flags()[q] == 0
            && h1.flags()[q] == 3
    &&& spare_pages(h1) + seq_tables(h0, root, ms, k) == spare_pages(h0)
}

/// A page table: the 512 entries of one page.
pub struct Table {
    pub entries: [Entry; 512],
}

impl Table {
    pub fn len() -> (r: u64)
        ensures
            r == TABLE_SIZE,
    {
        TABLE_SIZE
    }

    /// The table stored at address `root`.
    pub fn at(h: &PageAllocator, root: u64) -> (r: Table)
        requires
            h.wf(),
            is_table(h, root),
        ensures
            forall|w: int| 0 <= w < TABLE_SIZE ==> #[trigger] r.entries@[w].entry == slot(h, root, w),
    {
        let mut t = Table { entries: [Entry { entry: 0 }; 512] };
        let mut w: u64 = 0;
        while w < TABLE_SIZE
            invariant
                h.wf(),
                is_table(h, root),
                w <= TABLE_SIZE,
                t.entries@.len() == 512,
                forall|k: int| 0 <= k < w ==> #[trigger] t.entries@[k].entry == slot(h, root, k),
            decreases TABLE_SIZE - w,
        {
            let e = read_entry(h, root, w);
            t.entries[w as usize] = Entry { entry: e };
            w = w + 1;
        }
        t
    }

    /// The physical address that the table at `root` maps `vaddr` to, or `None`
    /// when the walk faults.
    pub fn virt_to_phys(h: &PageAllocator, root: u64, vaddr: u64) -> (r: Option<u64>)
        requires
            h.wf(),
            translate_ok(h, root, vaddr),
        ensures
            r == translate(h, root, vaddr),
    {
        let vpn = vpn_from_address(vaddr);
        let entry = read_entry(h, root, vpn[2]);
        Table::virt_to_phys_rec(h, entry, vaddr, N_LEVELS)
    }

    fn virt_to_phys_rec(h: &PageAllocator, current: i64, vaddr: u64, level: u64) -> (r: Option<u64>)
        requires
            h.wf(),
            level <= 2,
            walk_ok(h, current, vaddr, level as int),
        ensures
            r == walk(h, current, vaddr, level as int),
        decreases level,
    {
        let cur = Entry { entry: current };
        if cur.is_leaf() {
            assert(1u64 << ((12 + level * 9) as u64) >= 1) by (bit_vector)
                requires
                    level <= 2,
            ;
            let offset_mask: u64 = (1u64 << (12 + level * 9)) - 1;
            let vaddr_pgoff = vaddr & offset_mask;
            let addr = ((current as u64) << 2) & !offset_mask;
            return Some(addr | vaddr_pgoff);
        }
        if cur.is_invalid() || level == 0 {
            return None;
        }
        let vpn = vpn_from_address(vaddr);
        let next_table = ((current as u64) & !0x3ff) << 2;
        let next = read_entry(h, next_table, vpn[(level - 1) as usize]);
        Table::virt_to_phys_rec(h, next, vaddr, level - 1)
    }
}


/// Writes entry `w` of the table at address `a`.
fn write_entry(h: &mut PageAllocator, a: u64, w: u64, e: i64)
    requires
        old(h).wf(),
        is_table(&*old(h), a),
        w < TABLE_SIZE,
    ensures
        final(h).wf(),
        final(h).same_layout(&*old(h)),
        final(h).flags() == old(h).flags(),
        final(h).mem() == old(h).mem().update(
            old(h).page_index(a as int) * WORDS_PER_PAGE + w,
            e as u64,
        ),
{
    let p = (a - h.get_alloc_start()) / PAGE_SIZE;
    h.write_word(p, w, e as u64);
}

/// `hb` is `ha` after entry `index` of the table at `table` was made to point to
/// the table `child`: a valid entry is followed as it is; for an invalid one the
/// first free page (never the last one) is taken, zeroed and linked in.
pub open spec fn linked(ha: &PageAllocator, hb: &PageAllocator, table: u64, index: int, child: u64) -> bool {
    let e = slot(ha, table, index);
    &&& hb.wf()
    &&& hb.same_layout(ha)
    &&& valid(e) ==> {
        &&& hb.flags() == ha.flags()
        &&& hb.mem() == ha.mem()
        &&& child == target(e)
    }
    &&& !valid(e) ==> exists|f: int|
        #![trigger first_fit(ha.flags(), 1, f)]
        {
            &&& first_fit(ha.flags(), 1, f)
            &&& child == ha.page_addr(f)
            &&& hb.flags() == mark_run(ha.flags(), f, 1)
            &&& hb.mem() == zero_pages(ha.mem(), f, 1).update(
                ha.page_index(table as int) * WORDS_PER_PAGE + index,
                dir_entry(child) as u64,
            )
        }
}

/// The table that entry `index` of the table at `table` points to; when the entry
/// is not valid, a zeroed page is taken for a new table and the entry made to point to it.
fn next_table(h: &mut PageAllocator, table: u64, index: u64) -> (child: u64)
    requires
        old(h).wf(),
        is_table(&*old(h), table),
        index < TABLE_SIZE,
        !valid(slot(&*old(h), table, index as int)) ==> spare_pages(&*old(h)) >= 1,
    ensures
        linked(&*old(h), &*final(h), table, index as int, child),
        !valid(slot(&*old(h), table, index as int)) ==> spare_pages(&*final(h)) + 1 == spare_pages(
            &*old(h),
        ),
{
    let mut current = Entry { entry: read_entry(h, table, index) };
    if !current.is_valid() {
        proof {
            lemma_no_fit_one(h.flags());
        }
        let page = zalloc(h, 1);
        let ghost f = choose|f: int|
            #![trigger first_fit(old(h).flags(), 1, f)]
            {
                &&& first_fit(old(h).flags(), 1, f)
                &&& page == old(h).page_addr(f)
                &&& h.flags() == mark_run(old(h).flags(), f, 1)
                &&& h.mem() == zero_pages(old(h).mem(), f, 1)
            };
        proof {
            lemma_free_count_take(old(h).flags(), f, old(h).num_pages() - 1);
        }
        current.entry = ((page as i64) >> 2) | EntryBits::Valid.value();
        proof {
            lemma_dir_entry(page);
        }
        write_entry(h, table, index, current.entry);
    }
    ((current.entry as u64) & !0x3ff) << 2
}

/// The walk for `vaddr` can be followed by `map`: every valid entry on it above
/// level 0 points into the heap.
pub open spec fn path_defined(h: &PageAllocator, root: u64, vaddr: u64) -> bool {
    let i = vpn_of(vaddr, 2) as int;
    let j = vpn_of(vaddr, 1) as int;
    &&& is_table(h, root)
    &&& valid(l2(h, root, i)) ==> is_table(h, t1(h, root, i))
    &&& valid(l2(h, root, i)) && valid(l1(h, root, i, j)) ==> is_table(h, t0(h, root, i, j))
}

/// `v` and `w` lie in the same virtual page.
pub open spec fn same_vpage(v: u64, w: u64) -> bool {
    &&& vpn_of(v, 2) == vpn_of(w, 2)
    &&& vpn_of(v, 1) == vpn_of(w, 1)
    &&& vpn_of(v, 0) == vpn_of(w, 0)
}

/// `hc` is `ha` after `map(root, vaddr, paddr, bits)`: the root entry and then the
/// level-1 entry for `vaddr` are linked to tables (made when missing), and the
/// leaf entry is written into the level-0 table.
pub open spec fn mapped(ha: &PageAllocator, hc: &PageAllocator, root: u64, vaddr: u64, paddr: u64, bits: i64) -> bool {
    exists|h1: PageAllocator, h2: PageAllocator, tab1: u64, tab0: u64|
        {
            &&& #[trigger] linked(ha, &h1, root, vpn_of(vaddr, 2) as int, tab1)
            &&& #[trigger] linked(&h1, &h2, tab1, vpn_of(vaddr, 1) as int, tab0)
            &&& hc.wf()
            &&& hc.same_layout(&h2)
            &&& hc.flags() == h2.flags()
            &&& hc.mem() == h2.mem().update(
                h2.page_index(tab0 as int) * WORDS_PER_PAGE + vpn_of(vaddr, 0),
                leaf_entry(paddr, bits) as u64,
            )
        }
}

impl Table {
    /// Maps the page of `vaddr` to the page of `paddr` with the permissions `bits`
    /// in the table rooted at `root`, adding the missing tables on the way.
    pub fn map(h: &mut PageAllocator, root: u64, vaddr: u64, paddr: u64, bits: i64)
        requires
            old(h).wf(),
            bits & 14 != 0,
            path_defined(&*old(h), root, vaddr),
            spare_pages(&*old(h)) >= tables_needed(&*old(h), root, vaddr),
        ensures
            final(h).wf(),
            final(h).same_layout(&*old(h)),
            mapped(&*old(h), &*final(h), root, vaddr, paddr, bits),
            tree_wf(&*old(h), root) ==> {
                &&& tree_wf(&*final(h), root)
                &&& spare_pages(&*final(h)) + tables_needed(&*old(h), root, vaddr) == spare_pages(
                    &*old(h),
                )
                &&& forall|v: u64|
                    #[trigger] translate(&*final(h), root, v) == if same_vpage(v, vaddr) {
                        Some(leaf_phys(leaf_entry(paddr, bits), v, 0))
                    } else {
                        translate(&*old(h), root, v)
                    }
                &&& forall|v: u64|
                    #[trigger] leaf_of(&*final(h), root, v) == if same_vpage(v, vaddr) {
                        Some(leaf_entry(paddr, bits))
                    } else {
                        leaf_of(&*old(h), root, v)
                    }
                &&& !valid(l2(&*old(h), root, vpn_of(vaddr, 2) as int)) ==> l2(
                    &*final(h),
                    root,
                    vpn_of(vaddr, 2) as int,
                ) & 0x3ff == 1
                &&& (!valid(l2(&*old(h), root, vpn_of(vaddr, 2) as int)) || !valid(
                    l1(&*old(h), root, vpn_of(vaddr, 2) as int, vpn_of(vaddr, 1) as int),
                )) ==> l1(&*final(h), root, vpn_of(vaddr, 2) as int, vpn_of(vaddr, 1) as int)
                    & 0x3ff == 1
            },
    {
        let vpn = vpn_from_address(vaddr);
        let ghost h0 = *h;
        let ghost i = vpn_of(vaddr, 2) as int;
        let ghost j = vpn_of(vaddr, 1) as int;
        let tab1 = next_table(h, root, vpn[2]);
        let ghost h1 = *h;
        proof {
            if !valid(l2(&h0, root, i)) {
                let f = choose|f: int|
                    #![trigger first_fit(h0.flags(), 1, f)]
                    {
                        &&& first_fit(h0.flags(), 1, f)
                        &&& tab1 == h0.page_addr(f)
                        &&& h1.flags() == mark_run(h0.flags(), f, 1)
                        &&& h1.mem() == zero_pages(h0.mem(), f, 1).update(
                            h0.page_index(root as int) * WORDS_PER_PAGE + i,
                            dir_entry(tab1) as u64,
                        )
                    };
                assert(h1.page_index(tab1 as int) == f);
                assert(is_table(&h1, tab1));
                if h0.page_index(root as int) == f && i == j {
                    lemma_dir_entry(tab1);
                    assert(valid(slot(&h1, tab1, j)));
                } else {
                    assert(slot(&h1, tab1, j) == 0);
                    assert(0i64 & 1 == 0) by (bit_vector);
                }
            }
        }
        let tab0 = next_table(h, tab1, vpn[1]);
        let ghost h2 = *h;
        proof {
            assert(is_table(&h2, tab0)) by {
                if !valid(slot(&h1, tab1, j)) {
                    let g = choose|g: int|
                        #![trigger first_fit(h1.flags(), 1, g)]
                        {
                            &&& first_fit(h1.flags(), 1, g)
                            &&& tab0 == h1.page_addr(g)
                            &&& h2.flags() == mark_run(h1.flags(), g, 1)
                            &&& h2.mem() == zero_pages(h1.mem(), g, 1).update(
                                h1.page_index(tab1 as int) * WORDS_PER_PAGE + j,
                                dir_entry(tab0) as u64,
                            )
                        };
                }
            }
        }
        let ppn = ppn_from_address(paddr);
        let leaf = ((ppn[2] << 28) as i64) | ((ppn[1] << 19) as i64) | ((ppn[0] << 10) as i64) | bits
            | EntryBits::Valid.value();
        write_entry(h, tab0, vpn[0], leaf);
        assert(linked(&h0, &h1, root, vpn_of(vaddr, 2) as int, tab1));
        assert(linked(&h1, &h2, tab1, vpn_of(vaddr, 1) as int, tab0));
        proof {
            if tree_wf(&h0, root) {
                crate::table_laws::lemma_map_steps(&h0, h, root, vaddr, paddr, bits);
                crate::table_laws::lemma_map_keeps_tree(&h0, h, root, vaddr, paddr, bits);
                assert forall|v: u64|
                    #[trigger] translate(h, root, v) == if same_vpage(v, vaddr) {
                        Some(leaf_phys(leaf_entry(paddr, bits), v, 0))
                    } else {
                        translate(&h0, root, v)
                    } by {
                    crate::table_laws::lemma_map_translate(&h0, h, root, vaddr, paddr, bits, v);
                }
                assert forall|v: u64|
                    #[trigger] leaf_of(h, root, v) == if same_vpage(v, vaddr) {
                        Some(leaf_entry(paddr, bits))
                    } else {
                        leaf_of(&h0, root, v)
                    } by {
                    crate::table_laws::lemma_map_leaf(&h0, h, root, vaddr, paddr, bits, v);
                }
                crate::table_laws::lemma_vpn_bound(vaddr);
                crate::table_laws::lemma_map_view(&h0, h, root, vaddr, paddr, bits, i, j, 0);
                let (t1n, t0n) = crate::table_laws::map_tables(&h0, h, root, vaddr, paddr, bits);
                crate::table_laws::lemma_dir_entry_flags(t1n);
                crate::table_laws::lemma_dir_entry_flags(t0n);
            }
        }
    }
}

/// The level-0 entry that the walk for `v` through the tree at `root` ends at,
/// when the walk reaches a valid one: the entry with the page and permission
/// bits of the mapping of `v`.
pub open spec fn leaf_of(h: &PageAllocator, root: u64, v: u64) -> Option<i64> {
    let i = vpn_of(v, 2) as int;
    let j = vpn_of(v, 1) as int;
    let k = vpn_of(v, 0) as int;
    if branch(l2(h, root, i)) && branch(l1(h, root, i, j)) && valid(l0(h, root, i, j, k)) {
        Some(l0(h, root, i, j, k))
    } else {
        None
    }
}

/// The level-0 entry that a sequence of mappings `(vaddr, paddr, bits)`, applied
/// in order, leaves for the page of `v`: that of the last one made for it; with
/// none, `base`.
pub open spec fn mapped_entry(ms: Seq<(u64, u64, i64)>, v: u64, base: Option<i64>) -> Option<i64>
    decreases ms.len(),
{
    if ms.len() == 0 {
        base
    } else {
        let m = ms.last();
        if same_vpage(v, m.0) {
            Some(leaf_entry(m.1, m.2))
        } else {
            mapped_entry(ms.drop_last(), v, base)
        }
    }
}

/// What a sequence of mappings `(vaddr, paddr, bits)`, applied in order, gives
/// for `v`: the last one made for the page of `v` wins; with none, `base`.
pub open spec fn mapped_seq(ms: Seq<(u64, u64, i64)>, v: u64, base: Option<u64>) -> Option<u64>
    decreases ms.len(),
{
    if ms.len() == 0 {
        base
    } else {
        let m = ms.last();
        if same_vpage(v, m.0) {
            Some(leaf_phys(leaf_entry(m.1, m.2), v, 0))
        } else {
            mapped_seq(ms.drop_last(), v, base)
        }
    }
}

/// The first `t` identity mappings of the pages from `first` on.
pub open spec fn range_maps(first: u64, t: int, bits: i64) -> Seq<(u64, u64, i64)> {
    Seq::new(
        t as nat,
        |s: int| ((first + PAGE_SIZE * s) as u64, (first + PAGE_SIZE * s) as u64, bits),
    )
}

/// The page boundary at or below `a`.
pub open spec fn page_floor(a: u64) -> u64 {
    a & !0xfffu64
}

/// The page boundary at or above `a`.
pub open spec fn page_ceil(a: u64) -> u64 {
    ((a + 0xfff) as u64) & !0xfffu64
}

/// Number of pages from the page of `start` to the end of the page of `end - 1`.
pub open spec fn range_pages(start: u64, end: u64) -> int {
    (page_ceil(end) - page_floor(start)) / (PAGE_SIZE as int)
}

/// How many tables a mapping of `vaddr` has to add.
pub(crate) fn needed_tables(h: &PageAllocator, root: u64, vaddr: u64) -> (r: u64)
    requires
        h.wf(),
        path_defined(h, root, vaddr),
    ensures
        r == tables_needed(h, root, vaddr),
{
    let vpn = vpn_from_address(vaddr);
    let e2 = Entry { entry: read_entry(h, root, vpn[2]) };
    if !e2.is_valid() {
        return 2;
    }
    let t1 = ((e2.entry as u64) & !0x3ff) << 2;
    let e1 = Entry { entry: read_entry(h, t1, vpn[1]) };
    if !e1.is_valid() {
        1
    } else {
        0
    }
}

impl Table {
    /// Maps every page from the page of `start` to the page of `end - 1` to
    /// itself with the permissions `bits`, in order: the walk for each of them
    /// ends at a leaf entry of its page and `bits`. The only pages it takes are
    /// the new tables, and it writes only into the tree. Gives false, and stops there, when the next page needs
    /// more new tables than there are free pages, that is when the heap before
    /// the call had fewer spare pages than the mappings up to that page need.
    pub fn map_range(h: &mut PageAllocator, root: u64, start: u64, end: u64, bits: i64) -> (r: bool)
        requires
            old(h).wf(),
            tree_wf(&*old(h), root),
            end + 0xfff <= u64::MAX,
            page_floor(start) <= page_ceil(end),
            range_pages(start, end) > 0 ==> bits & 14 != 0,
        ensures
            final(h).wf(),
            final(h).same_layout(&*old(h)),
            tree_wf(&*final(h), root),
            only_tree_changed(&*old(h), &*final(h), root),
            r && page_ceil(end) <= 0x80_0000_0000 && 0 <= bits < 1024 ==> forall|v: u64|
                v < 0x80_0000_0000 ==> {
                    &&& page_floor(start) <= v < page_ceil(end) ==> {
                        &&& #[trigger] translate(&*final(h), root, v) == Some(v)
                        &&& leaf_of(&*final(h), root, v) is Some
                        &&& leaf_of(&*final(h), root, v).unwrap() & 0x3ff == bits | 1
                    }
                    &&& !(page_floor(start) <= v < page_ceil(end)) ==> {
                        &&& translate(&*final(h), root, v) == translate(&*old(h), root, v)
                        &&& leaf_of(&*final(h), root, v) == leaf_of(&*old(h), root, v)
                    }
                },
            exists|t: int|
                #![trigger range_maps(page_floor(start), t, bits)]
                {
                    &&& 0 <= t <= range_pages(start, end)
                    &&& forall|v: u64|
                        #[trigger] leaf_of(&*final(h), root, v) == mapped_entry(
                            range_maps(page_floor(start), t, bits),
                            v,
                            leaf_of(&*old(h), root, v),
                        )
                    &&& r <==> t == range_pages(start, end)
                    &&& grown_by(
                        &*old(h),
                        &*final(h),
                        root,
                        range_maps(page_floor(start), range_pages(start, end), bits),
                        t,
                    )
                    &&& !r ==> spare_pages(&*old(h)) < seq_tables(
                        &*old(h),
                        root,
                        range_maps(page_floor(start), range_pages(start, end), bits),
                        t + 1,
                    )
                    &&& forall|v: u64|
                        #[trigger] translate(&*final(h), root, v) == mapped_seq(
                            range_maps(page_floor(start), t, bits),
                            v,
                            translate(&*old(h), root, v),
                        )
                },
    {
        let mut memaddr = start & !(PAGE_SIZE - 1);
        assert(1u64 << 12u64 == 4096) by (bit_vector);
        let ceil = align_val(end, PAGE_ORDER);
        assert(ceil == page_ceil(end) && memaddr == page_floor(start) && ceil % 4096 == 0 && memaddr
            % 4096 == 0) by (bit_vector)
            requires
                ceil % (1u64 << 12u64) == 0,
                end <= ceil,
                ceil - end < (1u64 << 12u64),
                end + 0xfff <= u64::MAX,
                memaddr == start & !4095u64,
        ;
        let num_kb_pages = (ceil - memaddr) / PAGE_SIZE;
        assert(memaddr + PAGE_SIZE * num_kb_pages == ceil);
        let ghost h0 = *h;
        let ghost first = memaddr;
        let ghost all = range_maps(first, num_kb_pages as int, bits);
        proof {
            crate::table_laws::lemma_grown_start(&h0, root, all);
            assert(only_tree_changed(&h0, &h0, root));
        }
        let mut t: u64 = 0;
        while t < num_kb_pages
            invariant
                h.wf(),
                h.same_layout(&h0),
                h0 == *old(h),
                tree_wf(&*h, root),
                h0.wf(),
                all == range_maps(first, num_kb_pages as int, bits),
                grown_by(&h0, &*h, root, all, t as int),
                only_tree_changed(&h0, &*h, root),
                forall|v: u64|
                    #[trigger] leaf_of(&*h, root, v) == mapped_entry(
                        range_maps(first, t as int, bits),
                        v,
                        leaf_of(&h0, root, v),
                    ),
                t <= num_kb_pages,
                num_kb_pages == range_pages(start, end),
                first == page_floor(start),
                memaddr == first + PAGE_SIZE * t,
                first + PAGE_SIZE * num_kb_pages <= u64::MAX,
                num_kb_pages > 0 ==> bits & 14 != 0,
                forall|v: u64|
                    #[trigger] translate(&*h, root, v) == mapped_seq(
                        range_maps(first, t as int, bits),
                        v,
                        translate(&h0, root, v),
                    ),
            decreases num_kb_pages - t,
        {
            proof {
                crate::table_laws::lemma_tree_path_defined(&*h, root, memaddr);
            }
            let needed = needed_tables(h, root, memaddr);
            proof {
                assert(all[t as int].0 == memaddr);
                crate::table_laws::lemma_grown_needs(&h0, &*h, root, all, t as int);
            }
            if !spare_at_least(h, needed) {
                assert(seq_tables(&h0, root, all, t + 1) == seq_tables(&h0, root, all, t as int)
                    + step_tables(&h0, root, all, t as int));
                assert(forall|v: u64|
                    #[trigger] translate(&*h, root, v) == mapped_seq(
                        range_maps(page_floor(start), t as int, bits),
                        v,
                        translate(&h0, root, v),
                    ));
                return false;
            }
            let ghost hp = *h;
            Table::map(h, root, memaddr, memaddr, bits);
            proof {
                crate::table_laws::lemma_grow_step(&h0, &hp, &*h, root, all, t as int, memaddr, bits);
                crate::table_laws::lemma_map_frame(&hp, &*h, root, memaddr, memaddr, bits);
                crate::table_laws::lemma_only_tree_trans(&h0, &hp, &*h, root);
                let ms = range_maps(first, t as int, bits);
                let ms2 = range_maps(first, t + 1, bits);
                assert(ms2.drop_last() =~= ms);
                assert(ms2.last() == (memaddr, memaddr, bits));
                assert forall|v: u64|
                    #[trigger] translate(&*h, root, v) == mapped_seq(ms2, v, translate(&h0, root, v)) by {
                    assert(translate(&*h, root, v) == if same_vpage(v, memaddr) {
                        Some(leaf_phys(leaf_entry(memaddr, bits), v, 0))
                    } else {
                        translate(&hp, root, v)
                    });
                }
                assert forall|v: u64|
                    #[trigger] leaf_of(&*h, root, v) == mapped_entry(ms2, v, leaf_of(&h0, root, v)) by {
                    assert(leaf_of(&*h, root, v) == if same_vpage(v, memaddr) {
                        Some(leaf_entry(memaddr, bits))
                    } else {
                        leaf_of(&hp, root, v)
                    });
                }
            }
            t = t + 1;
            memaddr = memaddr + PAGE_SIZE;
        }
        assert(forall|v: u64|
            #[trigger] translate(&*h, root, v) == mapped_seq(
                range_maps(page_floor(start), t as int, bits),
                v,
                translate(&h0, root, v),
            ));
        proof {
            if page_ceil(end) <= 0x80_0000_0000 && 0 <= bits < 1024 {
                assert(first & !0xfffu64 == first) by (bit_vector)
                    requires
                        first % 4096 == 0,
                ;
                assert forall|v: u64| v < 0x80_0000_0000 implies {
                    &&& page_floor(start) <= v < page_ceil(end) ==> {
                        &&& #[trigger] translate(&*h, root, v) == Some(v)
                        &&& leaf_of(&*h, root, v) is Some
                        &&& leaf_of(&*h, root, v).unwrap() & 0x3ff == bits | 1
                    }
                    &&& !(page_floor(start) <= v < page_ceil(end)) ==> {
                        &&& translate(&*h, root, v) == translate(&h0, root, v)
                        &&& leaf_of(&*h, root, v) == leaf_of(&h0, root, v)
                    }
                } by {
                    crate::table_laws::lemma_range_maps_at(
                        first,
                        t as int,
                        bits,
                        v,
                        translate(&h0, root, v),
                        leaf_of(&h0, root, v),
                    );
                    assert(leaf_of(&*h, root, v) == mapped_entry(
                        range_maps(first, t as int, bits),
                        v,
                        leaf_of(&h0, root, v),
                    ));
                }
            }
        }
        true
    }
}

/// `h1` differs from `h0` only in the tree at `root`: the only flags that change
/// are free pages becoming tables; a taken page that is neither the root nor one
/// of its tables stays outside the tree and keeps its words, and so does every
/// page that is free in both.
pub open spec fn only_tree_changed(h0: &PageAllocator, h1: &PageAllocator, root: u64) -> bool {
    &&& forall|q: int|
        0 <= q < h0.num_pages() && #[trigger] h1.flags()[q] != h0.flags()[q] ==> h0.flags()[q] == 0
            && h1.flags()[q] == 3
    &&& forall|q: int|
        0 <= q < h0.num_pages() && h0.flags()[q] != 0 && q != h0.page_index(root as int)
            && outside_tree(h0, root, q, TABLE_SIZE as int) ==> #[trigger] outside_tree(
            h1,
            root,
            q,
            TABLE_SIZE as int,
        )
    &&& forall|q: int, w: int|
        0 <= q < h0.num_pages() && 0 <= w < WORDS_PER_PAGE && q != h0.page_index(root as int) && ((
        h0.flags()[q] != 0 && outside_tree(h0, root, q, TABLE_SIZE as int)) || (h0.flags()[q] == 0
            && h1.flags()[q] == 0)) ==> #[trigger] h1.mem()[q * WORDS_PER_PAGE + w] == h0.mem()[q
            * WORDS_PER_PAGE + w]
}

/// Page `q` is none of the tables below the root entries `0 .. lim`.
pub open spec fn outside_tree(h: &PageAllocator, root: u64, q: int, lim: int) -> bool {
    &&& forall|a: int|
        idx(a) && a < lim && branch(l2(h, root, a)) ==> h.page_index(#[trigger] t1(h, root, a) as int)
            != q
    &&& forall|a: int, b: int|
        idx(a) && a < lim && idx(b) && branch(l2(h, root, a)) && branch(l1(h, root, a, b))
            ==> h.page_index(#[trigger] t0(h, root, a, b) as int) != q
}

/// Gives back the single page at the table address `t`.
fn free_table(h: &mut PageAllocator, t: u64)
    requires
        old(h).wf(),
        is_table(&*old(h), t),
        old(h).flags()[old(h).page_index(t as int)] == 3,
    ensures
        final(h).wf(),
        final(h).same_layout(&*old(h)),
        final(h).mem() == old(h).mem(),
        final(h).flags() == old(h).flags().update(old(h).page_index(t as int), 0u8),
{
    proof {
        lemma_table_addr(&*old(h), t);
        let q = old(h).page_index(t as int);
        assert(run_to(old(h).flags(), q, q));
    }
    dealloc(h, t);
    proof {
        let q = old(h).page_index(t as int);
        let e = choose|e: int|
            {
                &&& #[trigger] run_to(old(h).flags(), q, e)
                &&& h.flags() == clear_run(old(h).flags(), q, e)
            };
        if e > q {
            assert(old(h).flags()[q] == 1);
        }
        assert(h.flags() =~= old(h).flags().update(q, 0u8));
    }
}

impl Table {
    /// Gives back the tables under root entry `a`: its level-0 tables, then its level-1 table.
    fn unmap_rec(h: &mut PageAllocator, Ghost(h0): Ghost<PageAllocator>, root: u64, a: u64)
        requires
            old(h).wf(),
            h0.wf(),
            tree_wf(&h0, root),
            old(h).same_layout(&h0),
            old(h).mem() == h0.mem(),
            a < TABLE_SIZE,
            branch(l2(&h0, root, a as int)),
            old(h).flags()[h0.page_index(t1(&h0, root, a as int) as int)] == 3,
            forall|b: int|
                idx(b) && branch(l1(&h0, root, a as int, b)) ==> old(h).flags()[h0.page_index(
                    #[trigger] t0(&h0, root, a as int, b) as int,
                )] == 3,
        ensures
            final(h).wf(),
            final(h).same_layout(&h0),
            final(h).mem() == h0.mem(),
            final(h).flags()[h0.page_index(t1(&h0, root, a as int) as int)] == 0,
            forall|b: int|
                idx(b) && branch(l1(&h0, root, a as int, b)) ==> final(h).flags()[h0.page_index(
                    #[trigger] t0(&h0, root, a as int, b) as int,
                )] == 0,
            forall|q: int|
                0 <= q < h0.num_pages() && q != h0.page_index(t1(&h0, root, a as int) as int) && (
                forall|b: int|
                    idx(b) && branch(l1(&h0, root, a as int, b)) ==> h0.page_index(
                        #[trigger] t0(&h0, root, a as int, b) as int,
                    ) != q) ==> #[trigger] final(h).flags()[q] == old(h).flags()[q],
    {
        let ghost ai = a as int;
        proof {
            crate::table_laws::lemma_tree_pages(&h0, root, ai, 0, ai, 0);
        }
        let table = ((read_entry(h, root, a) as u64) & !0x3ff) << 2;
        assert(table == t1(&h0, root, ai));
        let ghost h1 = *h;
        let mut b: u64 = 0;
        while b < TABLE_SIZE
            invariant
                h.wf(),
                h.same_layout(&h0),
                h.mem() == h0.mem(),
                h1 == *old(h),
                h0.wf(),
                tree_wf(&h0, root),
                ai == a,
                a < TABLE_SIZE,
                branch(l2(&h0, root, ai)),
                table == t1(&h0, root, ai),
                table_ok(&h0, table),
                b <= TABLE_SIZE,
                h.flags()[h0.page_index(table as int)] == 3,
                forall|b2: int|
                    idx(b2) && b <= b2 && branch(l1(&h0, root, ai, b2)) ==> h.flags()[h0.page_index(
                        #[trigger] t0(&h0, root, ai, b2) as int,
                    )] == 3,
                forall|b2: int|
                    idx(b2) && b2 < b && branch(l1(&h0, root, ai, b2)) ==> h.flags()[h0.page_index(
                        #[trigger] t0(&h0, root, ai, b2) as int,
                    )] == 0,
                forall|q: int|
                    0 <= q < h0.num_pages() && (forall|b2: int|
                        idx(b2) && b2 < b && branch(l1(&h0, root, ai, b2)) ==> h0.page_index(
                            #[trigger] t0(&h0, root, ai, b2) as int,
                        ) != q) ==> #[trigger] h.flags()[q] == h1.flags()[q],
            decreases TABLE_SIZE - b,
        {
            let entry = Entry { entry: read_entry(h, table, b) };
            assert(entry.entry == l1(&h0, root, ai, b as int));
            if entry.is_valid() && entry.is_branch() {
                let memaddr = ((entry.entry as u64) & !0x3ff) << 2;
                let ghost bi = b as int;
                assert(memaddr == t0(&h0, root, ai, bi));
                proof {
                    crate::table_laws::lemma_tree_pages(&h0, root, ai, bi, ai, bi);
                }
                let ghost hp = *h;
                free_table(h, memaddr);
                proof {
                    let pm = h0.page_index(memaddr as int);
                    assert forall|b2: int|
                        idx(b2) && b2 != bi && branch(l1(&h0, root, ai, b2)) implies h.flags()[h0.page_index(
                        #[trigger] t0(&h0, root, ai, b2) as int,
                    )] == hp.flags()[h0.page_index(t0(&h0, root, ai, b2) as int)] by {
                        crate::table_laws::lemma_tree_pages(&h0, root, ai, b2, ai, bi);
                    }
                }
            }
            b = b + 1;
        }
        let ghost hl = *h;
        free_table(h, table);
        proof {
            assert forall|b2: int|
                idx(b2) && branch(l1(&h0, root, ai, b2)) implies h.flags()[h0.page_index(
                #[trigger] t0(&h0, root, ai, b2) as int,
            )] == 0 by {
                crate::table_laws::lemma_tree_pages(&h0, root, ai, b2, ai, 0);
            }
        }
    }
}

impl Table {
    /// Gives back every table below the root at `root` (the root page itself stays taken).
    pub fn unmap(h: &mut PageAllocator, root: u64)
        requires
            old(h).wf(),
            tree_wf(&*old(h), root),
        ensures
            final(h).wf(),
            final(h).same_layout(&*old(h)),
            final(h).mem() == old(h).mem(),
            forall|a: int|
                idx(a) && branch(l2(&*old(h), root, a)) ==> final(h).flags()[old(h).page_index(
                    #[trigger] t1(&*old(h), root, a) as int,
                )] == 0,
            forall|a: int, b: int|
                idx(a) && idx(b) && branch(l2(&*old(h), root, a)) && branch(l1(&*old(h), root, a, b))
                    ==> final(h).flags()[old(h).page_index(
                    #[trigger] t0(&*old(h), root, a, b) as int,
                )] == 0,
            forall|q: int|
                0 <= q < old(h).num_pages() && outside_tree(&*old(h), root, q, TABLE_SIZE as int)
                    ==> #[trigger] final(h).flags()[q] == old(h).flags()[q],
    {
        let ghost h0 = *h;
        proof {
            crate::table_laws::lemma_tree_pages(&h0, root, 0, 0, 0, 0);
            assert forall|a2: int|
                idx(a2) && branch(l2(&h0, root, a2)) implies h0.flags()[h0.page_index(
                #[trigger] t1(&h0, root, a2) as int,
            )] == 3 by {
                crate::table_laws::lemma_tree_pages(&h0, root, a2, 0, a2, 0);
            }
            assert forall|a2: int, b: int|
                idx(a2) && idx(b) && branch(l2(&h0, root, a2)) && branch(l1(&h0, root, a2, b)) implies h0.flags()[h0.page_index(
                #[trigger] t0(&h0, root, a2, b) as int,
            )] == 3 by {
                crate::table_laws::lemma_tree_pages(&h0, root, a2, b, a2, b);
            }
        }
        let mut a: u64 = 0;
        while a < TABLE_SIZE
            invariant
                h.wf(),
                h.same_layout(&h0),
                h.mem() == h0.mem(),
                h0 == *old(h),
                h0.wf(),
                tree_wf(&h0, root),
                table_ok(&h0, root),
                a <= TABLE_SIZE,
                forall|a2: int|
                    idx(a2) && a2 < a && branch(l2(&h0, root, a2)) ==> h.flags()[h0.page_index(
                        #[trigger] t1(&h0, root, a2) as int,
                    )] == 0,
                forall|a2: int, b: int|
                    idx(a2) && a2 < a && idx(b) && branch(l2(&h0, root, a2)) && branch(
                        l1(&h0, root, a2, b),
                    ) ==> h.flags()[h0.page_index(#[trigger] t0(&h0, root, a2, b) as int)] == 0,
                forall|a2: int|
                    idx(a2) && a <= a2 && branch(l2(&h0, root, a2)) ==> h.flags()[h0.page_index(
                        #[trigger] t1(&h0, root, a2) as int,
                    )] == 3,
                forall|a2: int, b: int|
                    idx(a2) && a <= a2 && idx(b) && branch(l2(&h0, root, a2)) && branch(
                        l1(&h0, root, a2, b),
                    ) ==> h.flags()[h0.page_index(#[trigger] t0(&h0, root, a2, b) as int)] == 3,
                forall|q: int|
                    0 <= q < h0.num_pages() && outside_tree(&h0, root, q, a as int)
                        ==> #[trigger] h.flags()[q] == h0.flags()[q],
            decreases TABLE_SIZE - a,
        {
            let entry = Entry { entry: read_entry(h, root, a) };
            let ghost ai = a as int;
            assert(entry.entry == l2(&h0, root, ai));
            if entry.is_valid() && entry.is_branch() {
                let ghost hp = *h;
                proof {
                    assert forall|b: int|
                        idx(b) && branch(l1(&h0, root, ai, b)) implies hp.flags()[h0.page_index(
                        #[trigger] t0(&h0, root, ai, b) as int,
                    )] == 3 by {}
                }
                Table::unmap_rec(h, Ghost(h0), root, a);
                proof {
                    let p1 = h0.page_index(t1(&h0, root, ai) as int);
                    assert forall|a2: int|
                        idx(a2) && a2 != ai && branch(l2(&h0, root, a2)) implies h.flags()[h0.page_index(
                        #[trigger] t1(&h0, root, a2) as int,
                    )] == hp.flags()[h0.page_index(t1(&h0, root, a2) as int)] by {
                        crate::table_laws::lemma_tree_pages(&h0, root, a2, 0, ai, 0);
                        let q = h0.page_index(t1(&h0, root, a2) as int);
                        assert forall|b: int|
                            idx(b) && branch(l1(&h0, root, ai, b)) implies h0.page_index(
                            #[trigger] t0(&h0, root, ai, b) as int,
                        ) != q by {
                            crate::table_laws::lemma_tree_pages(&h0, root, ai, b, a2, 0);
                        }
                    }
                    assert forall|a2: int, b2: int|
                        idx(a2) && a2 != ai && idx(b2) && branch(l2(&h0, root, a2)) && branch(
                            l1(&h0, root, a2, b2),
                        ) implies h.flags()[h0.page_index(
                        #[trigger] t0(&h0, root, a2, b2) as int,
                    )] == hp.flags()[h0.page_index(t0(&h0, root, a2, b2) as int)] by {
                        crate::table_laws::lemma_tree_pages(&h0, root, a2, b2, ai, 0);
                        let q = h0.page_index(t0(&h0, root, a2, b2) as int);
                        assert forall|b: int|
                            idx(b) && branch(l1(&h0, root, ai, b)) implies h0.page_index(
                            #[trigger] t0(&h0, root, ai, b) as int,
                        ) != q by {
                            crate::table_laws::lemma_tree_pages(&h0, root, ai, b, a2, b2);
                        }
                    }
                    assert forall|q: int|
                        0 <= q < h0.num_pages() && outside_tree(&h0, root, q, ai + 1) implies #[trigger] h.flags()[q]
                        == h0.flags()[q] by {
                        assert(h0.page_index(t1(&h0, root, ai) as int) != q);
                        assert(outside_tree(&h0, root, q, ai));
                    }
                }
            } else {
                proof {
                    assert forall|q: int|
                        0 <= q < h0.num_pages() && outside_tree(&h0, root, q, ai + 1) implies #[trigger] h.flags()[q]
                        == h0.flags()[q] by {
                        assert(outside_tree(&h0, root, q, ai));
                    }
                }
            }
            a = a + 1;
        }
    }
}

} // verus!
