use vstd::prelude::*;
use crate::mmu::{
    branch, dir_entry, is_table, l0, l1, l2, leaf, leaf_entry, leaf_phys, lemma_dir_entry,
    lemma_leaf_entry, lemma_table_addr, lemma_table_addr_inj, linked, mapped, same_vpage, slot, spare_pages, t0, t1, table_ok,
    tables_needed, translate, tree_wf, valid, vpn_of, walk, idx, TABLE_SIZE, path_defined,
    translate_ok, walk_ok, outside_tree, offset_mask, grown_by, seen_l1, seen_l2, seq_tables,
    step_tables, mapped_seq, range_maps, leaf_of, only_tree_changed, mapped_entry, lemma_leaf_bits,
};
use crate::page::{
    first_fit, lemma_free_count_take, mark_run, zero_pages, PageAllocator, PAGE_SIZE,
    WORDS_PER_PAGE,
};

verus! {

pub proof fn lemma_vpn_bound(vaddr: u64)
    ensures
        vpn_of(vaddr, 2) < 512,
        vpn_of(vaddr, 1) < 512,
        vpn_of(vaddr, 0) < 512,
{
    assert(forall|x: u64| (x & 0x1ff) < 512) by (bit_vector);
}

/// What the tree shape says about the path of `vaddr`.
pub proof fn lemma_tree_path(h: &PageAllocator, root: u64, i: int, j: int)
    requires
        tree_wf(h, root),
        0 <= i < 512,
        0 <= j < 512,
    ensures
        table_ok(h, root),
        !leaf(l2(h, root, i)),
        branch(l2(h, root, i)) ==> table_ok(h, t1(h, root, i)) && t1(h, root, i) != root && !leaf(
            l1(h, root, i, j),
        ),
        branch(l2(h, root, i)) && branch(l1(h, root, i, j)) ==> {
            &&& table_ok(h, t0(h, root, i, j))
            &&& t0(h, root, i, j) != root
            &&& t0(h, root, i, j) != t1(h, root, i)
        },
{
    reveal(tree_wf);
    assert(idx(i) && idx(j));
    if branch(l2(h, root, i)) && branch(l1(h, root, i, j)) {
        assert(t0(h, root, i, j) != t1(h, root, i));
    }
}

/// The memory after the two links and the leaf write of one `map`.
pub open spec fn map_mem(
    m0: Seq<u64>,
    pr: int,
    p1: int,
    p0: int,
    i: int,
    j: int,
    k: int,
    fresh1: bool,
    fresh0: bool,
    e1: i64,
    e0: i64,
    leaf: i64,
) -> Seq<u64> {
    let m1 = if fresh1 {
        zero_pages(m0, p1, 1).update(pr * 512 + i, e1 as u64)
    } else {
        m0
    };
    let m2 = if fresh0 {
        zero_pages(m1, p0, 1).update(p1 * 512 + j, e0 as u64)
    } else {
        m1
    };
    m2.update(p0 * 512 + k, leaf as u64)
}

/// The level-1 and level-0 tables on the path of one `map` from `h0` to `h3`.
pub open spec fn map_tables(
    h0: &PageAllocator,
    h3: &PageAllocator,
    root: u64,
    vaddr: u64,
    paddr: u64,
    bits: i64,
) -> (u64, u64) {
    let t = choose|h1: PageAllocator, h2: PageAllocator, tab1: u64, tab0: u64|
        {
            &&& #[trigger] linked(h0, &h1, root, vpn_of(vaddr, 2) as int, tab1)
            &&& #[trigger] linked(&h1, &h2, tab1, vpn_of(vaddr, 1) as int, tab0)
            &&& h3.wf()
            &&& h3.same_layout(&h2)
            &&& h3.flags() == h2.flags()
            &&& h3.mem() == h2.mem().update(
                h2.page_index(tab0 as int) * WORDS_PER_PAGE + vpn_of(vaddr, 0),
                leaf_entry(paddr, bits) as u64,
            )
        };
    (t.2, t.3)
}

/// What one call of `map` did to a heap whose table at `root` is a tree: the
/// addresses of the level-1 and level-0 tables on the path, whether each was made
/// anew, the flags and the words afterwards.
#[verifier::spinoff_prover]
#[verifier::rlimit(40)]
pub proof fn lemma_map_steps(
    h0: &PageAllocator,
    h3: &PageAllocator,
    root: u64,
    vaddr: u64,
    paddr: u64,
    bits: i64,
)
    requires
        h0.wf(),
        tree_wf(h0, root),
        bits & 14 != 0,
        mapped(h0, h3, root, vaddr, paddr, bits),
    ensures
        ({
            let (tab1, tab0) = map_tables(h0, h3, root, vaddr, paddr, bits);
            let i = vpn_of(vaddr, 2) as int;
            let j = vpn_of(vaddr, 1) as int;
            let k = vpn_of(vaddr, 0) as int;
            let e2 = l2(h0, root, i);
            let fresh1 = !valid(e2);
            let fresh0 = !valid(e2) || !valid(l1(h0, root, i, j));
            let pr = h0.page_index(root as int);
            let p1 = h0.page_index(tab1 as int);
            let p0 = h0.page_index(tab0 as int);
            &&& h3.wf()
            &&& h3.same_layout(h0)
            &&& !fresh1 ==> tab1 == t1(h0, root, i) && branch(e2)
            &&& !fresh0 ==> tab0 == t0(h0, root, i, j) && branch(l1(h0, root, i, j))
            &&& table_ok(h0, root)
            &&& is_table(h0, tab1) && is_table(h0, tab0)
            &&& tab1 % PAGE_SIZE == 0 && tab0 % PAGE_SIZE == 0
            &&& pr != p1 && pr != p0 && p1 != p0
            &&& fresh1 ==> h0.flags()[p1] == 0
            &&& fresh0 ==> h0.flags()[p0] == 0
            &&& !fresh1 ==> table_ok(h0, tab1) && tab1 != root
            &&& !fresh0 ==> table_ok(h0, tab0) && tab0 != root && tab0 != tab1
            &&& forall|q: int|
                0 <= q < h0.num_pages() ==> #[trigger] h3.flags()[q] == if (fresh1 && q == p1) || (
                fresh0 && q == p0) {
                    3u8
                } else {
                    h0.flags()[q]
                }
            &&& spare_pages(h3) + tables_needed(h0, root, vaddr) == spare_pages(h0)
            &&& h3.mem() == map_mem(
                h0.mem(),
                pr,
                p1,
                p0,
                i,
                j,
                k,
                fresh1,
                fresh0,
                dir_entry(tab1),
                dir_entry(tab0),
                leaf_entry(paddr, bits),
            )
        }),
{
    let (h1, h2, tab1, tab0) = choose|h1: PageAllocator, h2: PageAllocator, tab1: u64, tab0: u64|
        {
            &&& #[trigger] linked(h0, &h1, root, vpn_of(vaddr, 2) as int, tab1)
            &&& #[trigger] linked(&h1, &h2, tab1, vpn_of(vaddr, 1) as int, tab0)
            &&& h3.wf()
            &&& h3.same_layout(&h2)
            &&& h3.flags() == h2.flags()
            &&& h3.mem() == h2.mem().update(
                h2.page_index(tab0 as int) * WORDS_PER_PAGE + vpn_of(vaddr, 0),
                leaf_entry(paddr, bits) as u64,
            )
        };
    let i = vpn_of(vaddr, 2) as int;
    let j = vpn_of(vaddr, 1) as int;
    let k = vpn_of(vaddr, 0) as int;
    lemma_vpn_bound(vaddr);
    let n = h0.num_pages();
    let d0 = h0.flags();
    let pr = h0.page_index(root as int);
    let p1 = h0.page_index(tab1 as int);
    let p0 = h0.page_index(tab0 as int);
    let e2 = l2(h0, root, i);
    let fresh1 = !valid(e2);
    assert(0i64 & 1 == 0 && 0i64 & 14 == 0) by (bit_vector);
    lemma_tree_path(h0, root, i, j);
    // step 1
    if fresh1 {
        let f = choose|f: int|
            #![trigger first_fit(h0.flags(), 1, f)]
            {
                &&& first_fit(h0.flags(), 1, f)
                &&& tab1 == h0.page_addr(f)
                &&& h1.flags() == mark_run(h0.flags(), f, 1)
                &&& h1.mem() == zero_pages(h0.mem(), f, 1).update(
                    pr * WORDS_PER_PAGE + i,
                    dir_entry(tab1) as u64,
                )
            };
        assert(p1 == f);
        assert(h1.flags() =~= d0.update(p1, 3u8));
        lemma_free_count_take(d0, f, n - 1);
    } else {
        assert(tab1 == t1(h0, root, i));
    }
    assert(is_table(h0, tab1));
    if p1 == pr {
        lemma_table_addr_inj(h0, tab1, root);
    }
    let e1 = slot(&h1, tab1, j);
    assert(e1 == if fresh1 { 0i64 } else { l1(h0, root, i, j) });
    let fresh0 = !valid(e1);
    // step 2
    if fresh0 {
        let g = choose|g: int|
            #![trigger first_fit(h1.flags(), 1, g)]
            {
                &&& first_fit(h1.flags(), 1, g)
                &&& tab0 == h1.page_addr(g)
                &&& h2.flags() == mark_run(h1.flags(), g, 1)
                &&& h2.mem() == zero_pages(h1.mem(), g, 1).update(
                    p1 * WORDS_PER_PAGE + j,
                    dir_entry(tab0) as u64,
                )
            };
        assert(p0 == g);
        assert(h2.flags() =~= h1.flags().update(p0, 3u8));
        lemma_free_count_take(h1.flags(), g, n - 1);
    } else {
        assert(tab0 == t0(h0, root, i, j));
    }
    assert(is_table(h0, tab0));
    if p0 == pr {
        lemma_table_addr_inj(h0, tab0, root);
    }
    if p0 == p1 {
        lemma_table_addr_inj(h0, tab0, tab1);
    }
    assert(h3.flags() == h2.flags());
    assert forall|q: int| 0 <= q < n implies #[trigger] h3.flags()[q] == if (fresh1 && q == p1) || (
    fresh0 && q == p0) {
        3u8
    } else {
        d0[q]
    } by {}
}

/// Entry `w` of the table at `a` in the memory that `map_mem` describes.
pub proof fn lemma_slot_map_mem(
    h0: &PageAllocator,
    h3: &PageAllocator,
    a: u64,
    w: int,
    pr: int,
    p1: int,
    p0: int,
    i: int,
    j: int,
    k: int,
    fresh1: bool,
    fresh0: bool,
    e1: i64,
    e0: i64,
    leaf: i64,
)
    requires
        h0.wf(),
        h3.same_layout(h0),
        h3.mem() == map_mem(h0.mem(), pr, p1, p0, i, j, k, fresh1, fresh0, e1, e0, leaf),
        is_table(h0, a),
        0 <= w < 512,
        0 <= pr < h0.num_pages(),
        0 <= p1 < h0.num_pages(),
        0 <= p0 < h0.num_pages(),
        0 <= i < 512,
        0 <= j < 512,
        0 <= k < 512,
        pr != p1 && pr != p0 && p1 != p0,
        (e1 as u64) as i64 == e1,
        (e0 as u64) as i64 == e0,
        (leaf as u64) as i64 == leaf,
    ensures
        ({
            let pa = h0.page_index(a as int);
            slot(h3, a, w) == if pa == p0 && w == k {
                leaf
            } else if fresh0 && pa == p1 && w == j {
                e0
            } else if fresh0 && pa == p0 {
                0i64
            } else if fresh1 && pa == pr && w == i {
                e1
            } else if fresh1 && pa == p1 {
                0i64
            } else {
                slot(h0, a, w)
            }
        }),
{
    lemma_table_addr(h0, a);
    let pa = h0.page_index(a as int);
    let x = pa * 512 + w;
    assert(0 <= x < h0.num_pages() * 512) by (nonlinear_arith)
        requires
            x == pa * 512 + w,
            0 <= pa < h0.num_pages(),
            0 <= w < 512,
    ;
    assert(0u64 as i64 == 0i64);
}

/// The distinctness facts of a tree, for two given paths.
pub proof fn lemma_tree_distinct(h: &PageAllocator, root: u64, a: int, b: int, c: int, i: int, j: int)
    requires
        tree_wf(h, root),
        idx(a) && idx(b) && idx(c) && idx(i) && idx(j),
    ensures
        branch(l2(h, root, a)) && branch(l2(h, root, i)) && a != i ==> t1(h, root, a) != t1(
            h,
            root,
            i,
        ),
        branch(l2(h, root, a)) && branch(l1(h, root, a, b)) && branch(l2(h, root, i)) ==> t0(
            h,
            root,
            a,
            b,
        ) != t1(h, root, i),
        branch(l2(h, root, i)) && branch(l1(h, root, i, j)) && branch(l2(h, root, a)) ==> t0(
            h,
            root,
            i,
            j,
        ) != t1(h, root, a),
        branch(l2(h, root, a)) && branch(l1(h, root, a, b)) && branch(l2(h, root, i)) && branch(
            l1(h, root, i, j),
        ) && (a != i || b != j) ==> t0(h, root, a, b) != t0(h, root, i, j),
        branch(l2(h, root, a)) && branch(l1(h, root, a, b)) ==> !branch(l0(h, root, a, b, c)),
        branch(l2(h, root, a)) ==> table_ok(h, t1(h, root, a)) && t1(h, root, a) != root && !leaf(
            l1(h, root, a, b),
        ),
        branch(l2(h, root, a)) && branch(l1(h, root, a, b)) ==> table_ok(h, t0(h, root, a, b))
            && t0(h, root, a, b) != root,
        !leaf(l2(h, root, a)),
{
    reveal(tree_wf);
    if branch(l2(h, root, a)) && branch(l2(h, root, i)) && a != i {
        assert(t1(h, root, a) != t1(h, root, i));
    }
    if branch(l2(h, root, a)) && branch(l1(h, root, a, b)) && branch(l2(h, root, i)) {
        assert(t0(h, root, a, b) != t1(h, root, i));
    }
    if branch(l2(h, root, i)) && branch(l1(h, root, i, j)) && branch(l2(h, root, a)) {
        assert(t0(h, root, i, j) != t1(h, root, a));
    }
    if branch(l2(h, root, a)) && branch(l1(h, root, a, b)) && branch(l2(h, root, i)) && branch(
        l1(h, root, i, j),
    ) && (a != i || b != j) {
        assert(t0(h, root, a, b) != t0(h, root, i, j));
    }
    if branch(l2(h, root, a)) && branch(l1(h, root, a, b)) {
        assert(!branch(l0(h, root, a, b, c)));
    }
    if branch(l2(h, root, a)) {
        assert(table_ok(h, t1(h, root, a)));
        assert(!leaf(l1(h, root, a, b)));
    }
    if branch(l2(h, root, a)) && branch(l1(h, root, a, b)) {
        assert(table_ok(h, t0(h, root, a, b)));
    }
    assert(!leaf(l2(h, root, a)));
}

/// The tree after one `map`, entry by entry, against the tree before.
pub proof fn lemma_map_view(
    h0: &PageAllocator,
    h3: &PageAllocator,
    root: u64,
    vaddr: u64,
    paddr: u64,
    bits: i64,
    a: int,
    b: int,
    c: int,
)
    requires
        h0.wf(),
        tree_wf(h0, root),
        bits & 14 != 0,
        mapped(h0, h3, root, vaddr, paddr, bits),
        idx(a) && idx(b) && idx(c),
    ensures
        ({
            let (tab1, tab0) = map_tables(h0, h3, root, vaddr, paddr, bits);
            let i = vpn_of(vaddr, 2) as int;
            let j = vpn_of(vaddr, 1) as int;
            let k = vpn_of(vaddr, 0) as int;
            let fresh1 = !valid(l2(h0, root, i));
            let fresh0 = fresh1 || !valid(l1(h0, root, i, j));
            &&& l2(h3, root, a) == if a == i && fresh1 {
                dir_entry(tab1)
            } else {
                l2(h0, root, a)
            }
            &&& branch(l2(h3, root, a)) <==> (a == i || branch(l2(h0, root, a)))
            &&& branch(l2(h3, root, a)) ==> t1(h3, root, a) == if a == i {
                tab1
            } else {
                t1(h0, root, a)
            }
            &&& branch(l2(h3, root, a)) ==> l1(h3, root, a, b) == if a == i && b == j && fresh0 {
                dir_entry(tab0)
            } else if a == i && fresh1 {
                0i64
            } else {
                l1(h0, root, a, b)
            }
            &&& branch(l2(h3, root, a)) ==> (branch(l1(h3, root, a, b)) <==> ((a == i && b == j) || (
            branch(l2(h0, root, a)) && branch(l1(h0, root, a, b)))))
            &&& branch(l2(h3, root, a)) && branch(l1(h3, root, a, b)) ==> t0(h3, root, a, b) == if a
                == i && b == j {
                tab0
            } else {
                t0(h0, root, a, b)
            }
            &&& branch(l2(h3, root, a)) && branch(l1(h3, root, a, b)) ==> l0(h3, root, a, b, c) == if a
                == i && b == j && c == k {
                leaf_entry(paddr, bits)
            } else if a == i && b == j && fresh0 {
                0i64
            } else {
                l0(h0, root, a, b, c)
            }
        }),
{
    lemma_map_steps(h0, h3, root, vaddr, paddr, bits);
    lemma_vpn_bound(vaddr);
    let (tab1, tab0) = map_tables(h0, h3, root, vaddr, paddr, bits);
    let i = vpn_of(vaddr, 2) as int;
    let j = vpn_of(vaddr, 1) as int;
    let k = vpn_of(vaddr, 0) as int;
    let fresh1 = !valid(l2(h0, root, i));
    let fresh0 = fresh1 || !valid(l1(h0, root, i, j));
    let pr = h0.page_index(root as int);
    let p1 = h0.page_index(tab1 as int);
    let p0 = h0.page_index(tab0 as int);
    let e1 = dir_entry(tab1);
    let e0 = dir_entry(tab0);
    let lf = leaf_entry(paddr, bits);
    lemma_dir_entry(tab1);
    lemma_dir_entry(tab0);
    lemma_leaf_entry(paddr, bits);
    lemma_table_addr(h0, root);
    lemma_table_addr(h0, tab1);
    lemma_table_addr(h0, tab0);
    lemma_tree_distinct(h0, root, a, b, c, i, j);
    assert(0i64 & 1 == 0 && 0i64 & 14 == 0) by (bit_vector);
    // the root table
    lemma_slot_map_mem(h0, h3, root, a, pr, p1, p0, i, j, k, fresh1, fresh0, e1, e0, lf);
    if branch(l2(h3, root, a)) {
        let ta = t1(h3, root, a);
        if a == i {
            assert(ta == tab1);
            lemma_slot_map_mem(h0, h3, tab1, b, pr, p1, p0, i, j, k, fresh1, fresh0, e1, e0, lf);
            if branch(l1(h3, root, a, b)) {
                if b == j {
                    assert(t0(h3, root, a, b) == tab0);
                    lemma_slot_map_mem(h0, h3, tab0, c, pr, p1, p0, i, j, k, fresh1, fresh0, e1, e0, lf);
                } else {
                    let u = t0(h0, root, a, b);
                    assert(t0(h3, root, a, b) == u);
                    lemma_table_addr(h0, u);
                    let pu = h0.page_index(u as int);
                    if pu == pr {
                        lemma_table_addr_inj(h0, u, root);
                    }
                    if pu == p1 {
                        lemma_table_addr_inj(h0, u, tab1);
                    }
                    if pu == p0 {
                        lemma_table_addr_inj(h0, u, tab0);
                    }
                    lemma_slot_map_mem(h0, h3, u, c, pr, p1, p0, i, j, k, fresh1, fresh0, e1, e0, lf);
                }
            }
        } else {
            let ta0 = t1(h0, root, a);
            assert(ta == ta0);
            lemma_table_addr(h0, ta0);
            let pa = h0.page_index(ta0 as int);
            if pa == pr {
                lemma_table_addr_inj(h0, ta0, root);
            }
            if pa == p1 {
                lemma_table_addr_inj(h0, ta0, tab1);
            }
            if pa == p0 {
                lemma_table_addr_inj(h0, ta0, tab0);
            }
            lemma_slot_map_mem(h0, h3, ta0, b, pr, p1, p0, i, j, k, fresh1, fresh0, e1, e0, lf);
            if branch(l1(h3, root, a, b)) {
                let u = t0(h0, root, a, b);
                assert(t0(h3, root, a, b) == u);
                lemma_table_addr(h0, u);
                let pu = h0.page_index(u as int);
                if pu == pr {
                    lemma_table_addr_inj(h0, u, root);
                }
                if pu == p1 {
                    lemma_table_addr_inj(h0, u, tab1);
                }
                if pu == p0 {
                    lemma_table_addr_inj(h0, u, tab0);
                }
                lemma_slot_map_mem(h0, h3, u, c, pr, p1, p0, i, j, k, fresh1, fresh0, e1, e0, lf);
            }
        }
    }
}

/// A page taken before `map` is still taken after it; the new tables are taken.
proof fn lemma_map_table_ok(h0: &PageAllocator, h3: &PageAllocator, root: u64, vaddr: u64, paddr: u64, bits: i64, x: u64)
    requires
        h0.wf(),
        tree_wf(h0, root),
        bits & 14 != 0,
        mapped(h0, h3, root, vaddr, paddr, bits),
        table_ok(h0, x) || x == map_tables(h0, h3, root, vaddr, paddr, bits).0 || x == map_tables(
            h0,
            h3,
            root,
            vaddr,
            paddr,
            bits,
        ).1,
    ensures
        table_ok(h3, x),
{
    lemma_map_steps(h0, h3, root, vaddr, paddr, bits);
    lemma_table_addr(h0, x);
}

/// Two tables of `h0` are different when one was taken and the other free.
proof fn lemma_taken_free_differ(h: &PageAllocator, x: u64, y: u64)
    requires
        h.wf(),
        table_ok(h, x),
        is_table(h, y),
        h.flags()[h.page_index(y as int)] == 0,
    ensures
        x != y,
{
}

/// `map` keeps the tables at `root` a tree.
pub proof fn lemma_map_keeps_tree(
    h0: &PageAllocator,
    h3: &PageAllocator,
    root: u64,
    vaddr: u64,
    paddr: u64,
    bits: i64,
)
    requires
        h0.wf(),
        tree_wf(h0, root),
        bits & 14 != 0,
        mapped(h0, h3, root, vaddr, paddr, bits),
    ensures
        tree_wf(h3, root),
{
    lemma_map_steps(h0, h3, root, vaddr, paddr, bits);
    lemma_vpn_bound(vaddr);
    let (tab1, tab0) = map_tables(h0, h3, root, vaddr, paddr, bits);
    let i = vpn_of(vaddr, 2) as int;
    let j = vpn_of(vaddr, 1) as int;
    let k = vpn_of(vaddr, 0) as int;
    let fresh1 = !valid(l2(h0, root, i));
    let fresh0 = fresh1 || !valid(l1(h0, root, i, j));
    lemma_dir_entry(tab1);
    lemma_dir_entry(tab0);
    lemma_leaf_entry(paddr, bits);
    assert(0i64 & 1 == 0 && 0i64 & 14 == 0) by (bit_vector);
    lemma_tree_distinct(h0, root, i, j, k, i, j);
    lemma_map_table_ok(h0, h3, root, vaddr, paddr, bits, root);
    reveal(tree_wf);
    assert forall|a: int| idx(a) implies !leaf(#[trigger] l2(h3, root, a)) by {
        lemma_map_view(h0, h3, root, vaddr, paddr, bits, a, 0, 0);
        lemma_tree_distinct(h0, root, a, 0, 0, i, j);
    }
    assert forall|a: int| idx(a) && branch(l2(h3, root, a)) implies table_ok(
        h3,
        #[trigger] t1(h3, root, a),
    ) && t1(h3, root, a) != root by {
        lemma_map_view(h0, h3, root, vaddr, paddr, bits, a, 0, 0);
        lemma_tree_distinct(h0, root, a, 0, 0, i, j);
        lemma_map_table_ok(h0, h3, root, vaddr, paddr, bits, t1(h3, root, a));
    }
    assert forall|a: int, b: int| idx(a) && idx(b) && branch(l2(h3, root, a)) implies !leaf(
        #[trigger] l1(h3, root, a, b),
    ) by {
        lemma_map_view(h0, h3, root, vaddr, paddr, bits, a, b, 0);
        lemma_tree_distinct(h0, root, a, b, 0, i, j);
    }
    assert forall|a: int, a2: int|
        idx(a) && idx(a2) && a != a2 && branch(l2(h3, root, a)) && branch(l2(h3, root, a2)) implies #[trigger] t1(
        h3,
        root,
        a,
    ) != #[trigger] t1(h3, root, a2) by {
        lemma_map_view(h0, h3, root, vaddr, paddr, bits, a, 0, 0);
        lemma_map_view(h0, h3, root, vaddr, paddr, bits, a2, 0, 0);
        lemma_tree_distinct(h0, root, a, 0, 0, a2, 0);
        lemma_tree_distinct(h0, root, a, 0, 0, i, j);
        lemma_tree_distinct(h0, root, a2, 0, 0, i, j);
        if a == i && fresh1 {
            lemma_taken_free_differ(h0, t1(h0, root, a2), tab1);
        }
        if a2 == i && fresh1 {
            lemma_taken_free_differ(h0, t1(h0, root, a), tab1);
        }
    }
    assert forall|a: int, b: int|
        idx(a) && idx(b) && branch(l2(h3, root, a)) && branch(l1(h3, root, a, b)) implies table_ok(
        h3,
        #[trigger] t0(h3, root, a, b),
    ) && t0(h3, root, a, b) != root by {
        lemma_map_view(h0, h3, root, vaddr, paddr, bits, a, b, 0);
        lemma_tree_distinct(h0, root, a, b, 0, i, j);
        lemma_map_table_ok(h0, h3, root, vaddr, paddr, bits, t0(h3, root, a, b));
    }
    assert forall|a: int, b: int, c: int|
        idx(a) && idx(b) && idx(c) && branch(l2(h3, root, a)) && branch(l1(h3, root, a, b)) && branch(
            l2(h3, root, c),
        ) implies #[trigger] t0(h3, root, a, b) != #[trigger] t1(h3, root, c) by {
        lemma_map_view(h0, h3, root, vaddr, paddr, bits, a, b, 0);
        lemma_map_view(h0, h3, root, vaddr, paddr, bits, c, 0, 0);
        lemma_tree_distinct(h0, root, a, b, 0, c, 0);
        lemma_tree_distinct(h0, root, c, 0, 0, i, j);
        lemma_tree_distinct(h0, root, a, b, 0, i, j);
        lemma_tree_distinct(h0, root, i, j, 0, c, 0);
        if (a != i || b != j) && fresh1 && c == i {
            lemma_taken_free_differ(h0, t0(h0, root, a, b), tab1);
        }
        if a == i && b == j && fresh0 && c != i {
            lemma_taken_free_differ(h0, t1(h0, root, c), tab0);
        }
    }
    assert forall|a: int, b: int, a2: int, b2: int|
        idx(a) && idx(b) && idx(a2) && idx(b2) && (a != a2 || b != b2) && branch(l2(h3, root, a))
            && branch(l1(h3, root, a, b)) && branch(l2(h3, root, a2)) && branch(
            l1(h3, root, a2, b2),
        ) implies #[trigger] t0(h3, root, a, b) != #[trigger] t0(h3, root, a2, b2) by {
        lemma_map_view(h0, h3, root, vaddr, paddr, bits, a, b, 0);
        lemma_map_view(h0, h3, root, vaddr, paddr, bits, a2, b2, 0);
        lemma_tree_distinct(h0, root, a, b, 0, a2, b2);
        lemma_tree_distinct(h0, root, a, b, 0, i, j);
        lemma_tree_distinct(h0, root, a2, b2, 0, i, j);
        if a == i && b == j && fresh0 {
            lemma_taken_free_differ(h0, t0(h0, root, a2, b2), tab0);
        }
        if a2 == i && b2 == j && fresh0 {
            lemma_taken_free_differ(h0, t0(h0, root, a, b), tab0);
        }
    }
    assert forall|a: int, b: int, c: int|
        idx(a) && idx(b) && idx(c) && branch(l2(h3, root, a)) && branch(l1(h3, root, a, b)) implies !branch(
        #[trigger] l0(h3, root, a, b, c),
    ) by {
        lemma_map_view(h0, h3, root, vaddr, paddr, bits, a, b, c);
        lemma_tree_distinct(h0, root, a, b, c, i, j);
    }
}

/// After `map`, the table gives the new mapping for the mapped page and what it
/// gave before for every other page.
pub proof fn lemma_map_translate(
    h0: &PageAllocator,
    h3: &PageAllocator,
    root: u64,
    vaddr: u64,
    paddr: u64,
    bits: i64,
    v: u64,
)
    requires
        h0.wf(),
        tree_wf(h0, root),
        bits & 14 != 0,
        mapped(h0, h3, root, vaddr, paddr, bits),
    ensures
        translate(h3, root, v) == if same_vpage(v, vaddr) {
            Some(leaf_phys(leaf_entry(paddr, bits), v, 0))
        } else {
            translate(h0, root, v)
        },
{
    lemma_vpn_bound(vaddr);
    lemma_vpn_bound(v);
    let i = vpn_of(vaddr, 2) as int;
    let j = vpn_of(vaddr, 1) as int;
    let a = vpn_of(v, 2) as int;
    let b = vpn_of(v, 1) as int;
    let c = vpn_of(v, 0) as int;
    let (tab1, tab0) = map_tables(h0, h3, root, vaddr, paddr, bits);
    lemma_map_steps(h0, h3, root, vaddr, paddr, bits);
    lemma_map_view(h0, h3, root, vaddr, paddr, bits, a, b, c);
    lemma_map_keeps_tree(h0, h3, root, vaddr, paddr, bits);
    lemma_tree_distinct(h0, root, a, b, c, i, j);
    lemma_tree_distinct(h3, root, a, b, c, i, j);
    lemma_dir_entry(tab1);
    lemma_dir_entry(tab0);
    lemma_leaf_entry(paddr, bits);
    assert(0i64 & 1 == 0 && 0i64 & 14 == 0) by (bit_vector);
    reveal_with_fuel(walk, 3);
}

/// After `map`, the walk for the mapped page ends at the new leaf entry, and the
/// walk for every other page ends where it did.
pub proof fn lemma_map_leaf(
    h0: &PageAllocator,
    h3: &PageAllocator,
    root: u64,
    vaddr: u64,
    paddr: u64,
    bits: i64,
    v: u64,
)
    requires
        h0.wf(),
        tree_wf(h0, root),
        bits & 14 != 0,
        mapped(h0, h3, root, vaddr, paddr, bits),
    ensures
        leaf_of(h3, root, v) == if same_vpage(v, vaddr) {
            Some(leaf_entry(paddr, bits))
        } else {
            leaf_of(h0, root, v)
        },
{
    lemma_vpn_bound(vaddr);
    lemma_vpn_bound(v);
    let a = vpn_of(v, 2) as int;
    let b = vpn_of(v, 1) as int;
    let c = vpn_of(v, 0) as int;
    lemma_map_view(h0, h3, root, vaddr, paddr, bits, a, b, c);
    lemma_leaf_entry(paddr, bits);
    assert(0i64 & 1 == 0 && 0i64 & 14 == 0) by (bit_vector);
}

/// In a tree, `map` can follow the path of any address.
pub proof fn lemma_tree_path_defined(h: &PageAllocator, root: u64, vaddr: u64)
    requires
        h.wf(),
        tree_wf(h, root),
    ensures
        path_defined(h, root, vaddr),
{
    lemma_vpn_bound(vaddr);
    lemma_tree_path(h, root, vpn_of(vaddr, 2) as int, vpn_of(vaddr, 1) as int);
}

/// In a tree, the walk of any address stays in the heap.
pub proof fn lemma_tree_translate_ok(h: &PageAllocator, root: u64, v: u64)
    requires
        h.wf(),
        tree_wf(h, root),
    ensures
        translate_ok(h, root, v),
{
    lemma_vpn_bound(v);
    lemma_tree_path(h, root, vpn_of(v, 2) as int, vpn_of(v, 1) as int);
    reveal_with_fuel(walk_ok, 3);
}

/// A table page holding only zeros is a tree that maps nothing.
pub proof fn lemma_zero_table_tree(h: &PageAllocator, root: u64)
    requires
        h.wf(),
        table_ok(h, root),
        forall|w: int| 0 <= w < 512 ==> #[trigger] slot(h, root, w) == 0,
    ensures
        tree_wf(h, root),
        forall|v: u64| #[trigger] translate(h, root, v) == None::<u64>,
{
    assert(0i64 & 1 == 0 && 0i64 & 14 == 0) by (bit_vector);
    reveal(tree_wf);
    assert forall|a: int| idx(a) implies !leaf(#[trigger] l2(h, root, a)) && !valid(l2(h, root, a)) by {
        assert(slot(h, root, a) == 0);
    }
    assert forall|v: u64| #[trigger] translate(h, root, v) == None::<u64> by {
        lemma_vpn_bound(v);
        assert(slot(h, root, vpn_of(v, 2) as int) == 0);
    }
}

/// The tables of a tree lie in different pages.
pub proof fn lemma_tree_pages(h: &PageAllocator, root: u64, a: int, b: int, a2: int, b2: int)
    requires
        h.wf(),
        tree_wf(h, root),
        idx(a) && idx(b) && idx(a2) && idx(b2),
    ensures
        ({
            let pg = |x: u64| h.page_index(x as int);
            &&& branch(l2(h, root, a)) && branch(l2(h, root, a2)) && a != a2 ==> pg(t1(h, root, a))
                != pg(t1(h, root, a2))
            &&& branch(l2(h, root, a)) && branch(l1(h, root, a, b)) && branch(l2(h, root, a2)) ==> pg(
                t0(h, root, a, b),
            ) != pg(t1(h, root, a2))
            &&& branch(l2(h, root, a)) && branch(l1(h, root, a, b)) && branch(l2(h, root, a2))
                && branch(l1(h, root, a2, b2)) && (a != a2 || b != b2) ==> pg(t0(h, root, a, b)) != pg(
                t0(h, root, a2, b2),
            )
            &&& branch(l2(h, root, a)) ==> pg(t1(h, root, a)) != pg(root) && table_ok(
                h,
                t1(h, root, a),
            )
            &&& branch(l2(h, root, a)) && branch(l1(h, root, a, b)) ==> pg(t0(h, root, a, b)) != pg(
                root,
            ) && table_ok(h, t0(h, root, a, b))
            &&& table_ok(h, root)
        }),
{
    lemma_tree_distinct(h, root, a, b, 0, a2, b2);
    lemma_tree_distinct(h, root, a2, b2, 0, a, b);
    lemma_tree_path(h, root, a, b);
    lemma_table_addr(h, root);
    if branch(l2(h, root, a)) {
        lemma_table_addr(h, t1(h, root, a));
        if h.page_index(t1(h, root, a) as int) == h.page_index(root as int) {
            lemma_table_addr_inj(h, t1(h, root, a), root);
        }
        if branch(l1(h, root, a, b)) {
            lemma_table_addr(h, t0(h, root, a, b));
            if h.page_index(t0(h, root, a, b) as int) == h.page_index(root as int) {
                lemma_table_addr_inj(h, t0(h, root, a, b), root);
            }
        }
    }
    if branch(l2(h, root, a2)) {
        lemma_tree_path(h, root, a2, b2);
        lemma_table_addr(h, t1(h, root, a2));
        if branch(l2(h, root, a)) && h.page_index(t1(h, root, a) as int) == h.page_index(
            t1(h, root, a2) as int,
        ) {
            lemma_table_addr_inj(h, t1(h, root, a), t1(h, root, a2));
        }
        if branch(l2(h, root, a)) && branch(l1(h, root, a, b)) && h.page_index(
            t0(h, root, a, b) as int,
        ) == h.page_index(t1(h, root, a2) as int) {
            lemma_table_addr_inj(h, t0(h, root, a, b), t1(h, root, a2));
        }
        if branch(l1(h, root, a2, b2)) {
            lemma_table_addr(h, t0(h, root, a2, b2));
            if branch(l2(h, root, a)) && branch(l1(h, root, a, b)) && h.page_index(
                t0(h, root, a, b) as int,
            ) == h.page_index(t0(h, root, a2, b2) as int) {
                lemma_table_addr_inj(h, t0(h, root, a, b), t0(h, root, a2, b2));
            }
        }
    }
}

/// A taken page outside the tree at `root` keeps its words and its flag through
/// `map`, and stays outside the tree.
pub proof fn lemma_map_keeps_outside(
    h0: &PageAllocator,
    h3: &PageAllocator,
    root: u64,
    vaddr: u64,
    paddr: u64,
    bits: i64,
    x: u64,
)
    requires
        h0.wf(),
        tree_wf(h0, root),
        bits & 14 != 0,
        mapped(h0, h3, root, vaddr, paddr, bits),
        is_table(h0, x),
        x != root,
        h0.flags()[h0.page_index(x as int)] != 0,
        outside_tree(h0, root, h0.page_index(x as int), TABLE_SIZE as int),
    ensures
        forall|w: int| 0 <= w < TABLE_SIZE ==> #[trigger] slot(h3, x, w) == slot(h0, x, w),
        h3.flags()[h0.page_index(x as int)] == h0.flags()[h0.page_index(x as int)],
        outside_tree(h3, root, h0.page_index(x as int), TABLE_SIZE as int),
{
    lemma_map_steps(h0, h3, root, vaddr, paddr, bits);
    lemma_vpn_bound(vaddr);
    let (tab1, tab0) = map_tables(h0, h3, root, vaddr, paddr, bits);
    let i = vpn_of(vaddr, 2) as int;
    let j = vpn_of(vaddr, 1) as int;
    let px = h0.page_index(x as int);
    lemma_table_addr(h0, x);
    assert(x != tab1);
    assert(x != tab0);
    assert forall|a: int|
        idx(a) && a < TABLE_SIZE && branch(l2(h3, root, a)) implies h3.page_index(
        #[trigger] t1(h3, root, a) as int,
    ) != px by {
        lemma_map_view(h0, h3, root, vaddr, paddr, bits, a, 0, 0);
        lemma_table_addr(h0, tab1);
    }
    assert forall|a: int, b: int|
        idx(a) && a < TABLE_SIZE && idx(b) && branch(l2(h3, root, a)) && branch(l1(h3, root, a, b)) implies h3.page_index(
        #[trigger] t0(h3, root, a, b) as int,
    ) != px by {
        lemma_map_view(h0, h3, root, vaddr, paddr, bits, a, b, 0);
        lemma_table_addr(h0, tab0);
    }
}

/// A tree stays a tree when the memory stays and its pages stay taken.
pub proof fn lemma_tree_same_tables(h: &PageAllocator, h2: &PageAllocator, root: u64)
    requires
        h.wf(),
        h2.wf(),
        h2.same_layout(h),
        h2.mem() == h.mem(),
        tree_wf(h, root),
        h2.flags()[h.page_index(root as int)] == h.flags()[h.page_index(root as int)],
        forall|a: int|
            idx(a) && branch(l2(h, root, a)) ==> h2.flags()[h.page_index(
                #[trigger] t1(h, root, a) as int,
            )] == h.flags()[h.page_index(t1(h, root, a) as int)],
        forall|a: int, b: int|
            idx(a) && idx(b) && branch(l2(h, root, a)) && branch(l1(h, root, a, b)) ==> h2.flags()[h.page_index(
                #[trigger] t0(h, root, a, b) as int,
            )] == h.flags()[h.page_index(t0(h, root, a, b) as int)],
    ensures
        tree_wf(h2, root),
{
    reveal(tree_wf);
    assert forall|a: int| #[trigger] l2(h2, root, a) == l2(h, root, a) by {}
    assert forall|a: int| #[trigger] t1(h2, root, a) == t1(h, root, a) by {}
    assert forall|a: int, b: int| #[trigger] l1(h2, root, a, b) == l1(h, root, a, b) by {}
    assert forall|a: int, b: int| #[trigger] t0(h2, root, a, b) == t0(h, root, a, b) by {}
    assert forall|a: int, b: int, c: int| #[trigger] l0(h2, root, a, b, c) == l0(h, root, a, b, c) by {}
}

/// A 4 KiB leaf made from `paddr` with flag bits only (below bit 10) gives the
/// page of `paddr` with the offset of `v`; for `v` in that same page (and a
/// physical address of at most 56 bits) it gives `v` itself.
pub proof fn lemma_leaf_page(paddr: u64, bits: i64, v: u64)
    requires
        0 <= bits < 1024,
    ensures
        leaf_phys(leaf_entry(paddr, bits), v, 0) == (paddr & 0x00ff_ffff_ffff_f000) | (v & 0xfff),
        paddr < 0x0100_0000_0000_0000 && v & !0xfffu64 == paddr & !0xfffu64 ==> leaf_phys(
            leaf_entry(paddr, bits),
            v,
            0,
        ) == v,
{
    let e = leaf_entry(paddr, bits);
    let m = offset_mask(0);
    assert(m == 0xfff) by (bit_vector)
        requires
            m == ((1u64 << 12u64) - 1) as u64,
    ;
    assert((((e as u64) << 2u64) & !m) | (v & m) == (paddr & 0x00ff_ffff_ffff_f000) | (v & 0xfff))
        by (bit_vector)
        requires
            0 <= bits < 1024,
            m == 0xfff,
            e == ((((paddr >> 30u64) & 0x3ff_ffff) << 28u64) as i64) | ((((paddr >> 21u64) & 0x1ff)
                << 19u64) as i64) | ((((paddr >> 12u64) & 0x1ff) << 10u64) as i64) | bits | 1,
    ;
    assert(paddr < 0x0100_0000_0000_0000 && v & !0xfffu64 == paddr & !0xfffu64 ==> (paddr
        & 0x00ff_ffff_ffff_f000) | (v & 0xfff) == v) by (bit_vector);
}


/// Before any mapping the tree has grown by nothing.
pub proof fn lemma_grown_start(h: &PageAllocator, root: u64, ms: Seq<(u64, u64, i64)>)
    ensures
        grown_by(h, h, root, ms, 0),
{
}

/// Making more of the mappings never needs fewer tables.
pub proof fn lemma_seq_tables_mono(h: &PageAllocator, root: u64, ms: Seq<(u64, u64, i64)>, t1: int, t2: int)
    requires
        0 <= t1 <= t2,
    ensures
        seq_tables(h, root, ms, t1) <= seq_tables(h, root, ms, t2),
    decreases t2 - t1,
{
    if t1 < t2 {
        lemma_seq_tables_mono(h, root, ms, t1, t2 - 1);
    }
}

/// The next mapping of `ms` needs, in the grown tree, the tables `step_tables` counts.
pub proof fn lemma_grown_needs(h0: &PageAllocator, h1: &PageAllocator, root: u64, ms: Seq<(u64, u64, i64)>, k: int)
    requires
        tree_wf(h1, root),
        0 <= k < ms.len(),
        grown_by(h0, h1, root, ms, k),
    ensures
        tables_needed(h1, root, ms[k].0) == step_tables(h0, root, ms, k),
{
    let v = ms[k].0;
    lemma_vpn_bound(v);
    let i = vpn_of(v, 2) as int;
    let j = vpn_of(v, 1) as int;
    lemma_tree_path(h1, root, i, j);
    assert(idx(i) && idx(j));
    assert(branch(l2(h1, root, i)) <==> branch(l2(h0, root, i)) || seen_l2(ms, k, i));
    assert((branch(l2(h1, root, i)) && branch(l1(h1, root, i, j))) <==> (branch(l2(h0, root, i))
        && branch(l1(h0, root, i, j))) || seen_l1(ms, k, i, j));
}

/// One more `map` of the next address of `ms`: it needs exactly the tables that
/// `step_tables` counts, and the tree has then grown by one more mapping.
#[verifier::rlimit(40)]
pub proof fn lemma_grow_step(
    h0: &PageAllocator,
    h1: &PageAllocator,
    h2: &PageAllocator,
    root: u64,
    ms: Seq<(u64, u64, i64)>,
    k: int,
    paddr: u64,
    bits: i64,
)
    requires
        h0.wf(),
        h1.wf(),
        h1.same_layout(h0),
        tree_wf(h1, root),
        bits & 14 != 0,
        0 <= k < ms.len(),
        grown_by(h0, h1, root, ms, k),
        mapped(h1, h2, root, ms[k].0, paddr, bits),
    ensures
        tables_needed(h1, root, ms[k].0) == step_tables(h0, root, ms, k),
        grown_by(h0, h2, root, ms, k + 1),
{
    let v = ms[k].0;
    lemma_vpn_bound(v);
    let i = vpn_of(v, 2) as int;
    let j = vpn_of(v, 1) as int;
    lemma_map_steps(h1, h2, root, v, paddr, bits);
    lemma_grown_needs(h0, h1, root, ms, k);
    assert forall|a: int| idx(a) implies (branch(#[trigger] l2(h2, root, a)) <==> branch(l2(h0, root, a))
        || seen_l2(ms, k + 1, a)) by {
        lemma_map_view(h1, h2, root, v, paddr, bits, a, 0, 0);
        assert(branch(l2(h1, root, a)) <==> branch(l2(h0, root, a)) || seen_l2(ms, k, a));
        if seen_l2(ms, k + 1, a) && !seen_l2(ms, k, a) {
            let m = choose|m: int| #![trigger ms[m]] 0 <= m < k + 1 && vpn_of(ms[m].0, 2) == a;
            assert(m == k);
        }
        if a == i {
            assert(ms[k] == ms[k] && vpn_of(ms[k].0, 2) == a);
        }
    }
    assert forall|a: int, b: int| idx(a) && idx(b) implies ((branch(l2(h2, root, a)) && branch(
        #[trigger] l1(h2, root, a, b),
    )) <==> (branch(l2(h0, root, a)) && branch(l1(h0, root, a, b))) || seen_l1(ms, k + 1, a, b)) by {
        lemma_map_view(h1, h2, root, v, paddr, bits, a, b, 0);
        assert(branch(l2(h1, root, a)) <==> branch(l2(h0, root, a)) || seen_l2(ms, k, a));
        assert((branch(l2(h1, root, a)) && branch(l1(h1, root, a, b))) <==> (branch(l2(h0, root, a))
            && branch(l1(h0, root, a, b))) || seen_l1(ms, k, a, b));
        if seen_l1(ms, k + 1, a, b) && !seen_l1(ms, k, a, b) {
            let m = choose|m: int|
                #![trigger ms[m]]
                0 <= m < k + 1 && vpn_of(ms[m].0, 2) == a && vpn_of(ms[m].0, 1) == b;
            assert(m == k);
        }
        if a == i && b == j {
            assert(ms[k] == ms[k] && vpn_of(ms[k].0, 2) == a && vpn_of(ms[k].0, 1) == b);
        }
    }
    assert forall|q: int|
        0 <= q < h0.num_pages() && #[trigger] h2.flags()[q] != h0.flags()[q] implies h0.flags()[q] == 0
            && h2.flags()[q] == 3 by {
        if h1.flags()[q] != h0.flags()[q] {
        }
    }
    assert(seq_tables(h0, root, ms, k + 1) == seq_tables(h0, root, ms, k) + step_tables(h0, root, ms, k));
}


/// The identity mappings of `n` pages from the page boundary `first` on, all
/// below 2^39 and with flag bits only, give every address of those pages itself
/// and leave every other address below 2^39 as `base` gives it. With the
/// `ensures` of `Table::map_range` this is its identity map over its range.
pub proof fn lemma_range_identity(first: u64, n: int, bits: i64, v: u64, base: Option<u64>)
    requires
        first % 4096 == 0,
        0 <= n,
        first + 4096 * n <= 0x80_0000_0000,
        v < 0x80_0000_0000,
        0 <= bits < 1024,
    ensures
        mapped_seq(range_maps(first, n, bits), v, base) == if first <= v < first + 4096 * n {
            Some(v)
        } else {
            base
        },
    decreases n,
{
    if n > 0 {
        let ms = range_maps(first, n, bits);
        assert(ms.drop_last() =~= range_maps(first, n - 1, bits));
        lemma_range_identity(first, n - 1, bits, v, base);
        let a = (first + 4096 * (n - 1)) as u64;
        assert(ms.last() == (a, a, bits));
        assert(a % 4096 == 0);
        assert(a < 0x80_0000_0000);
        assert(((v >> 30u64) & 0x1ff == (a >> 30u64) & 0x1ff && (v >> 21u64) & 0x1ff == (a >> 21u64)
            & 0x1ff && (v >> 12u64) & 0x1ff == (a >> 12u64) & 0x1ff) <==> (a <= v && v < a + 4096))
            by (bit_vector)
            requires
                v < 0x80_0000_0000,
                a < 0x80_0000_0000,
                a % 4096 == 0,
        ;
        assert(same_vpage(v, a) <==> (a <= v && v < a + 4096));
        if a <= v && v < a + 4096 {
            assert(v & !0xfffu64 == a & !0xfffu64) by (bit_vector)
                requires
                    a <= v,
                    v < a + 4096,
                    a % 4096 == 0,
            ;
            lemma_leaf_page(a, bits, v);
        }
    }
}


/// One `map` changes the heap only in the tree.
#[verifier::rlimit(40)]
pub proof fn lemma_map_frame(h0: &PageAllocator, h3: &PageAllocator, root: u64, vaddr: u64, paddr: u64, bits: i64)
    requires
        h0.wf(),
        tree_wf(h0, root),
        bits & 14 != 0,
        mapped(h0, h3, root, vaddr, paddr, bits),
    ensures
        only_tree_changed(h0, h3, root),
{
    lemma_map_steps(h0, h3, root, vaddr, paddr, bits);
    lemma_vpn_bound(vaddr);
    let (tab1, tab0) = map_tables(h0, h3, root, vaddr, paddr, bits);
    let i = vpn_of(vaddr, 2) as int;
    let j = vpn_of(vaddr, 1) as int;
    let k = vpn_of(vaddr, 0) as int;
    let e2 = l2(h0, root, i);
    let fresh1 = !valid(e2);
    let fresh0 = !valid(e2) || !valid(l1(h0, root, i, j));
    let pr = h0.page_index(root as int);
    let p1 = h0.page_index(tab1 as int);
    let p0 = h0.page_index(tab0 as int);
    lemma_table_addr(h0, root);
    assert forall|q: int|
        0 <= q < h0.num_pages() && h0.flags()[q] != 0 && q != h0.page_index(root as int)
            && outside_tree(h0, root, q, TABLE_SIZE as int) implies #[trigger] outside_tree(
        h3,
        root,
        q,
        TABLE_SIZE as int,
    ) && forall|w: int|
        0 <= w < WORDS_PER_PAGE ==> #[trigger] h3.mem()[q * WORDS_PER_PAGE + w] == h0.mem()[q
            * WORDS_PER_PAGE + w] by {
        let x = h0.page_addr(q) as u64;
        assert(is_table(h0, x));
        assert(h0.page_index(x as int) == q);
        lemma_map_keeps_outside(h0, h3, root, vaddr, paddr, bits, x);
        assert forall|w: int| 0 <= w < WORDS_PER_PAGE implies #[trigger] h3.mem()[q * WORDS_PER_PAGE + w]
            == h0.mem()[q * WORDS_PER_PAGE + w] by {
            assert(slot(h3, x, w) == slot(h0, x, w));
            crate::page::lemma_word_index(q, w, h0.num_pages());
            let a = h3.mem()[q * WORDS_PER_PAGE + w];
            let b = h0.mem()[q * WORDS_PER_PAGE + w];
            assert(a as i64 == b as i64 ==> a == b) by (bit_vector);
        }
    }
    assert forall|q: int, w: int|
        0 <= q < h0.num_pages() && 0 <= w < WORDS_PER_PAGE && q != h0.page_index(root as int)
            && h0.flags()[q] == 0 && h3.flags()[q] == 0 implies #[trigger] h3.mem()[q * WORDS_PER_PAGE
        + w] == h0.mem()[q * WORDS_PER_PAGE + w] by {
        assert(q != p1);
        assert(q != p0);
        crate::page::lemma_word_index(q, w, h0.num_pages());
        assert(q * 512 + w != pr * 512 + i);
        assert(q * 512 + w != p1 * 512 + j);
        assert(q * 512 + w != p0 * 512 + k);
        assert(!(p1 * 512 <= q * 512 + w < (p1 + 1) * 512));
        assert(!(p0 * 512 <= q * 512 + w < (p0 + 1) * 512));
    }
}

/// Two heap changes that each touch only the tree together touch only the tree.
pub proof fn lemma_only_tree_trans(h0: &PageAllocator, h1: &PageAllocator, h2: &PageAllocator, root: u64)
    requires
        h1.same_layout(h0),
        h2.same_layout(h0),
        only_tree_changed(h0, h1, root),
        only_tree_changed(h1, h2, root),
    ensures
        only_tree_changed(h0, h2, root),
{
    assert forall|q: int|
        0 <= q < h0.num_pages() && #[trigger] h2.flags()[q] != h0.flags()[q] implies h0.flags()[q] == 0
            && h2.flags()[q] == 3 by {
        if h1.flags()[q] != h0.flags()[q] {
        }
        if h2.flags()[q] != h1.flags()[q] {
        }
    }
    assert forall|q: int|
        0 <= q < h0.num_pages() && h0.flags()[q] != 0 && q != h0.page_index(root as int)
            && outside_tree(h0, root, q, TABLE_SIZE as int) implies #[trigger] outside_tree(
        h2,
        root,
        q,
        TABLE_SIZE as int,
    ) by {
        if h1.flags()[q] != h0.flags()[q] {
        }
        assert(outside_tree(h1, root, q, TABLE_SIZE as int));
    }
    assert forall|q: int, w: int|
        0 <= q < h0.num_pages() && 0 <= w < WORDS_PER_PAGE && q != h0.page_index(root as int) && ((
        h0.flags()[q] != 0 && outside_tree(h0, root, q, TABLE_SIZE as int)) || (h0.flags()[q] == 0
            && h2.flags()[q] == 0)) implies #[trigger] h2.mem()[q * WORDS_PER_PAGE + w] == h0.mem()[q
        * WORDS_PER_PAGE + w] by {
        if h1.flags()[q] != h0.flags()[q] {
        }
        if h2.flags()[q] != h1.flags()[q] {
        }
        if h0.flags()[q] != 0 {
            assert(outside_tree(h1, root, q, TABLE_SIZE as int));
        }
        assert(h1.mem()[q * WORDS_PER_PAGE + w] == h0.mem()[q * WORDS_PER_PAGE + w]);
    }
}


/// Making the mappings `x` and then `y` gives for `v` what `y` gives on top of
/// what `x` gives.
pub proof fn lemma_mapped_concat(
    x: Seq<(u64, u64, i64)>,
    y: Seq<(u64, u64, i64)>,
    v: u64,
    base: Option<u64>,
    ebase: Option<i64>,
)
    ensures
        mapped_seq(x + y, v, base) == mapped_seq(y, v, mapped_seq(x, v, base)),
        mapped_entry(x + y, v, ebase) == mapped_entry(y, v, mapped_entry(x, v, ebase)),
    decreases y.len(),
{
    if y.len() == 0 {
        assert(x + y =~= x);
    } else {
        assert((x + y).last() == y.last());
        assert((x + y).drop_last() =~= x + y.drop_last());
        lemma_mapped_concat(x, y.drop_last(), v, base, ebase);
    }
}

/// The `n` mappings of the consecutive pages from `first` on, each to itself with
/// the flag bits `bits`, all below 2^39: an address `v` below 2^39 in one of those
/// pages translates to itself through a leaf that carries `bits` and V; any other
/// address keeps what it had.
pub proof fn lemma_range_maps_at(
    first: u64,
    n: int,
    bits: i64,
    v: u64,
    base: Option<u64>,
    ebase: Option<i64>,
)
    requires
        0 <= n,
        first + 4096 * n <= 0x80_0000_0000,
        v < 0x80_0000_0000,
        0 <= bits < 1024,
    ensures
        ((first & !0xfffu64) <= v < (first & !0xfffu64) + 4096 * n) ==> {
            &&& mapped_seq(range_maps(first, n, bits), v, base) == Some(v)
            &&& mapped_entry(range_maps(first, n, bits), v, ebase) is Some
            &&& mapped_entry(range_maps(first, n, bits), v, ebase).unwrap() & 0x3ff == bits | 1
        },
        !((first & !0xfffu64) <= v < (first & !0xfffu64) + 4096 * n) ==> {
            &&& mapped_seq(range_maps(first, n, bits), v, base) == base
            &&& mapped_entry(range_maps(first, n, bits), v, ebase) == ebase
        },
    decreases n,
{
    if n > 0 {
        let ms = range_maps(first, n, bits);
        assert(ms.drop_last() =~= range_maps(first, n - 1, bits));
        lemma_range_maps_at(first, n - 1, bits, v, base, ebase);
        let a = (first + 4096 * (n - 1)) as u64;
        let dd = (4096 * (n - 1)) as u64;
        assert(ms.last() == (a, a, bits));
        assert(a == first + dd);
        assert(dd % 4096 == 0);
        assert((a & !0xfffu64) == (first & !0xfffu64) + dd) by (bit_vector)
            requires
                a == first + dd,
                dd % 4096 == 0,
                first + dd < 0x80_0000_0000,
        ;
        assert(((v >> 30u64) & 0x1ff == (a >> 30u64) & 0x1ff && (v >> 21u64) & 0x1ff == (a >> 21u64)
            & 0x1ff && (v >> 12u64) & 0x1ff == (a >> 12u64) & 0x1ff) <==> ((a & !0xfffu64) <= v && v
            < (a & !0xfffu64) + 4096)) by (bit_vector)
            requires
                v < 0x80_0000_0000,
                a < 0x80_0000_0000,
        ;
        assert(same_vpage(v, a) <==> ((a & !0xfffu64) <= v && v < (a & !0xfffu64) + 4096));
        if same_vpage(v, a) {
            assert(v & !0xfffu64 == a & !0xfffu64) by (bit_vector)
                requires
                    (a & !0xfffu64) <= v,
                    v < (a & !0xfffu64) + 4096,
            ;
            lemma_leaf_page(a, bits, v);
            lemma_leaf_bits(a, bits);
        }
    }
}

/// A table entry that links a table page carries no flag but V: its low ten bits
/// are exactly 0x001, and it leads to the page.
pub proof fn lemma_dir_entry_flags(page: u64)
    requires
        page % 4096 == 0,
    ensures
        dir_entry(page) & 0x3ff == 1,
        crate::mmu::target(dir_entry(page)) == page,
{
    lemma_dir_entry(page);
    let e = dir_entry(page);
    assert(e & 0x3ff == 1) by (bit_vector)
        requires
            page % 4096 == 0,
            e == ((page as i64) >> 2i64) | 1,
    ;
}

} // verus!
