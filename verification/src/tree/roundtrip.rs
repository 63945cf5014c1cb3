//! Flattening the forest built from a BOM gives back each of its items
//! once, when material numbers are distinct and parent references form no
//! cycle.
use vstd::prelude::*;
use crate::bom::{BomItem, distinct_materials};
use crate::bom::parser::opt_text;
use crate::tree::{
    BomTreeNode, carries, child_numbers, finite_descent, flat_items, forest_matches, item_of, last_of, node_matches, pre_nodes, has_material, is_descent, is_orphan_item, is_top_item, lemma_chain_bound,
    lemma_children, lemma_picked, lemma_roots_have_material, lemma_repeat_is_cycle, linked_at, picked_numbers, root_numbers,
    top_numbers_upto, orphan_numbers_upto,
};
use crate::validation::cycles::{has_reference_cycle, parent_edge};

verus! {

/// A chain of children leads from `x` down to `m` (`x` itself included).
pub open spec fn reaches(items: Seq<BomItem>, x: Seq<char>, m: Seq<char>) -> bool {
    exists|p: Seq<Seq<char>>| is_descent(items, p) && p[0] == x && p.last() == m
}

/// The number of nodes with material number `m`.
pub open spec fn count_named(s: Seq<BomTreeNode>, m: Seq<char>) -> nat
    decreases s.len(),
{
    if s.len() == 0 {
        0
    } else {
        count_named(s.drop_last(), m) + if s.last().material_no@ == m {
            1nat
        } else {
            0nat
        }
    }
}

proof fn lemma_count_named_concat(a: Seq<BomTreeNode>, b: Seq<BomTreeNode>, m: Seq<char>)
    ensures
        count_named(a + b, m) == count_named(a, m) + count_named(b, m),
    decreases b.len(),
{
    if b.len() == 0 {
        assert(a + b =~= a);
    } else {
        assert((a + b).drop_last() =~= a + b.drop_last());
        lemma_count_named_concat(a, b.drop_last(), m);
    }
}

/// With distinct material numbers, a material number has one parent.
proof fn lemma_single_parent(items: Seq<BomItem>, u: Seq<char>, w: Seq<char>, v: Seq<char>)
    requires
        distinct_materials(items),
        parent_edge(items, u, v),
        parent_edge(items, w, v),
    ensures
        u == w,
{
    let j1 = choose|j: int|
        0 <= j < items.len() && #[trigger] items[j].material_no@ == v && opt_text(items[j].parent_material_no)
            == Some(u);
    let j2 = choose|j: int|
        0 <= j < items.len() && #[trigger] items[j].material_no@ == v && opt_text(items[j].parent_material_no)
            == Some(w);
    if j1 != j2 {
        assert(items[j1].material_no@ != items[j2].material_no@);
    }
}

proof fn lemma_common_end(items: Seq<BomItem>, p: Seq<Seq<char>>, q: Seq<Seq<char>>, i: int)
    requires
        distinct_materials(items),
        is_descent(items, p),
        is_descent(items, q),
        p.last() == q.last(),
        p.len() <= q.len(),
        0 <= i < p.len(),
    ensures
        p[p.len() - 1 - i] == q[q.len() - 1 - i],
    decreases i,
{
    if i > 0 {
        lemma_common_end(items, p, q, i - 1);
        let a = p.len() - 1 - i;
        let b = q.len() - 1 - i;
        assert(linked_at(items, p, a));
        assert(linked_at(items, q, b));
        lemma_single_parent(items, p[a], q[b], p[a + 1]);
    }
}

proof fn lemma_prepend(items: Seq<BomItem>, x: Seq<char>, p: Seq<Seq<char>>)
    requires
        is_descent(items, p),
        parent_edge(items, x, p[0]),
    ensures
        is_descent(items, seq![x] + p),
        (seq![x] + p)[0] == x,
        (seq![x] + p).last() == p.last(),
{
    let q = seq![x] + p;
    assert forall|i: int| 0 <= i < q.len() - 1 implies #[trigger] linked_at(items, q, i) by {
        if i > 0 {
            assert(linked_at(items, p, i - 1));
            assert(q[i] == p[i - 1] && q[i + 1] == p[i]);
        }
    }
}

proof fn lemma_drop_first(items: Seq<BomItem>, p: Seq<Seq<char>>)
    requires
        is_descent(items, p),
        p.len() >= 2,
    ensures
        is_descent(items, p.drop_first()),
        p.drop_first()[0] == p[1],
        p.drop_first().last() == p.last(),
{
    let q = p.drop_first();
    assert forall|i: int| 0 <= i < q.len() - 1 implies #[trigger] linked_at(items, q, i) by {
        assert(linked_at(items, p, i + 1));
    }
}

/// Without a cycle, a chain of children repeats no material number.
proof fn lemma_no_repeat(items: Seq<BomItem>, p: Seq<Seq<char>>)
    requires
        is_descent(items, p),
        !has_reference_cycle(items),
    ensures
        p.no_duplicates(),
{
    if !p.no_duplicates() {
        lemma_repeat_is_cycle(items, p);
    }
}

/// The material numbers picked from items with distinct numbers are distinct.
proof fn lemma_picked_distinct(items: Seq<BomItem>, n: int, keep: spec_fn(BomItem) -> bool)
    requires
        distinct_materials(items),
        0 <= n <= items.len(),
    ensures
        picked_numbers(items, n, keep).no_duplicates(),
    decreases n,
{
    if n > 0 {
        lemma_picked_distinct(items, n - 1, keep);
        if keep(items[n - 1]) {
            let prev = picked_numbers(items, n - 1, keep);
            let y = items[n - 1].material_no@;
            lemma_picked(items, n - 1, keep, y);
            if prev.contains(y) {
                let j = choose|j: int| 0 <= j < n - 1 && keep(items[j]) && (#[trigger] items[j]).material_no@ == y;
                assert(items[j].material_no@ != items[n - 1].material_no@);
            }
            let cur = prev.push(y);
            assert forall|a: int, b: int| 0 <= a < cur.len() && 0 <= b < cur.len() && a != b implies cur[a] != cur[b] by {
                if a < prev.len() && b < prev.len() {
                    assert(cur[a] == prev[a] && cur[b] == prev[b]);
                } else if a < prev.len() {
                    assert(cur[a] == prev[a]);
                    assert(prev.contains(prev[a]));
                } else {
                    assert(cur[b] == prev[b]);
                    assert(prev.contains(prev[b]));
                }
            }
        }
    }
}

/// The elements of a chain of children from a material number are material
/// numbers.
proof fn lemma_chain_materials(items: Seq<BomItem>, p: Seq<Seq<char>>)
    requires
        is_descent(items, p),
        has_material(items, p[0]),
    ensures
        forall|i: int| 0 <= i < p.len() ==> has_material(items, #[trigger] p[i]),
{
    assert forall|i: int| 0 <= i < p.len() implies has_material(items, #[trigger] p[i]) by {
        if i > 0 {
            assert(linked_at(items, p, i - 1));
            let j = choose|j: int|
                0 <= j < items.len() && #[trigger] items[j].material_no@ == p[i] && opt_text(
                    items[j].parent_material_no,
                ) == Some(p[i - 1]);
        }
    }
}

/// Below `x` (other than `m`), `m` is reached exactly when one of the
/// children of `x` reaches it.
proof fn lemma_kid_reach(items: Seq<BomItem>, x: Seq<char>, m: Seq<char>)
    requires
        x != m,
    ensures
        reaches(items, x, m) <==> exists|j: int|
            0 <= j < child_numbers(items, x).len() && reaches(items, #[trigger] child_numbers(items, x)[j], m),
{
    let kids = child_numbers(items, x);
    if reaches(items, x, m) {
        let p = choose|p: Seq<Seq<char>>| is_descent(items, p) && p[0] == x && p.last() == m;
        assert(p.len() >= 2);
        assert(linked_at(items, p, 0));
        lemma_children(items, x, p[1]);
        let j = choose|j: int| 0 <= j < kids.len() && kids[j] == p[1];
        lemma_drop_first(items, p);
        assert(reaches(items, kids[j], m));
    }
    if exists|j: int| 0 <= j < kids.len() && reaches(items, #[trigger] kids[j], m) {
        let j = choose|j: int| 0 <= j < kids.len() && reaches(items, #[trigger] kids[j], m);
        let p = choose|p: Seq<Seq<char>>| is_descent(items, p) && p[0] == kids[j] && p.last() == m;
        lemma_children(items, x, kids[j]);
        lemma_prepend(items, x, p);
    }
}

/// Without a cycle, no child of `x` reaches `x`.
proof fn lemma_not_below_itself(items: Seq<BomItem>, x: Seq<char>, j: int)
    requires
        !has_reference_cycle(items),
        0 <= j < child_numbers(items, x).len(),
    ensures
        !reaches(items, child_numbers(items, x)[j], x),
{
    let c = child_numbers(items, x)[j];
    if reaches(items, c, x) {
        let p = choose|p: Seq<Seq<char>>| is_descent(items, p) && p[0] == c && p.last() == x;
        lemma_children(items, x, c);
        assert(child_numbers(items, x).contains(c));
        lemma_prepend(items, x, p);
        let q = seq![x] + p;
        lemma_no_repeat(items, q);
        assert(q[0] == q[q.len() - 1]);
    }
}

/// Two chains of children from `x` ending at `m`, through different first
/// children, would make `x` repeat on the longer one.
proof fn lemma_one_kid_reaches(items: Seq<BomItem>, x: Seq<char>, m: Seq<char>, a: int, b: int)
    requires
        distinct_materials(items),
        !has_reference_cycle(items),
        0 <= a < child_numbers(items, x).len(),
        0 <= b < child_numbers(items, x).len(),
        a != b,
    ensures
        !(reaches(items, child_numbers(items, x)[a], m) && reaches(items, child_numbers(items, x)[b], m)),
{
    let kids = child_numbers(items, x);
    if reaches(items, kids[a], m) && reaches(items, kids[b], m) {
        lemma_picked_distinct(items, items.len() as int, |it: BomItem| crate::tree::is_child_of(it, x));
        assert(kids[a] != kids[b]);
        let pa = choose|p: Seq<Seq<char>>| is_descent(items, p) && p[0] == kids[a] && p.last() == m;
        let pb = choose|p: Seq<Seq<char>>| is_descent(items, p) && p[0] == kids[b] && p.last() == m;
        lemma_children(items, x, kids[a]);
        lemma_children(items, x, kids[b]);
        assert(kids.contains(kids[a]) && kids.contains(kids[b]));
        lemma_prepend(items, x, pa);
        lemma_prepend(items, x, pb);
        let qa = seq![x] + pa;
        let qb = seq![x] + pb;
        lemma_no_repeat(items, qa);
        lemma_no_repeat(items, qb);
        if qa.len() <= qb.len() {
            lemma_common_end(items, qa, qb, qa.len() - 1);
            let d = qb.len() - qa.len();
            if d == 0 {
                lemma_common_end(items, qa, qb, qa.len() - 2);
                assert(qa[1] == kids[a] && qb[1] == kids[b]);
            } else {
                assert(qb[d] == x && qb[0] == x);
            }
        } else {
            lemma_common_end(items, qb, qa, qb.len() - 1);
            let d = qa.len() - qb.len();
            assert(qa[d] == x && qa[0] == x);
        }
    }
}

/// The subtree grown for `x` holds one node numbered `m` when `x` reaches
/// `m`, and none otherwise.
proof fn lemma_subtree_count(
    items: Seq<BomItem>,
    n: BomTreeNode,
    x: Seq<char>,
    level: int,
    path: Seq<char>,
    m: Seq<char>,
)
    requires
        distinct_materials(items),
        !has_reference_cycle(items),
        node_matches(items, n, x, level, path),
    ensures
        count_named(pre_nodes(seq![n]), m) == if reaches(items, x, m) {
            1nat
        } else {
            0nat
        },
    decreases n, 1int, 0int,
{
    let kids = child_numbers(items, x);
    let len = n.children@.len() as int;
    lemma_children_count(items, n, x, level, path, m, len);
    assert(n.children@.take(len) =~= n.children@);
    let s = seq![n];
    assert(s.subrange(0, 0) =~= Seq::<BomTreeNode>::empty());
    assert(s[0] == n);
    assert(pre_nodes(s) == pre_nodes(s.subrange(0, 0)) + seq![n] + pre_nodes(n.children@));
    assert(pre_nodes(Seq::<BomTreeNode>::empty()) =~= Seq::<BomTreeNode>::empty());
    assert(pre_nodes(s) =~= seq![n] + pre_nodes(n.children@));
    lemma_count_named_concat(seq![n], pre_nodes(n.children@), m);
    assert(seq![n].drop_last() =~= Seq::<BomTreeNode>::empty());
    assert(seq![n].last() == n);
    assert(count_named(Seq::<BomTreeNode>::empty(), m) == 0);
    assert(count_named(seq![n], m) == if n.material_no@ == m {
        1nat
    } else {
        0nat
    });
    let j = choose|j: int| last_of(items, x, j) && carries(n, items[j]);
    assert(n.material_no@ == x);
    assert(pre_nodes(n.children@.take(len)) == pre_nodes(n.children@));
    if x == m {
        let p = seq![x];
        assert(p[0] == x && p.last() == x);
        assert(is_descent(items, p));
        assert(reaches(items, x, m));
        assert forall|q: int| 0 <= q < kids.len() implies !reaches(items, #[trigger] kids[q], m) by {
            lemma_not_below_itself(items, x, q);
        }
    } else {
        lemma_kid_reach(items, x, m);
    }
}

/// The subtrees of the first `k` children of the node grown for `x` hold
/// one node numbered `m` when one of those children reaches `m`, and none
/// otherwise.
proof fn lemma_children_count(
    items: Seq<BomItem>,
    n: BomTreeNode,
    x: Seq<char>,
    level: int,
    path: Seq<char>,
    m: Seq<char>,
    k: int,
)
    requires
        distinct_materials(items),
        !has_reference_cycle(items),
        node_matches(items, n, x, level, path),
        0 <= k <= n.children@.len(),
    ensures
        count_named(pre_nodes(n.children@.take(k)), m) == if exists|j: int|
            0 <= j < k && reaches(items, #[trigger] child_numbers(items, x)[j], m) {
            1nat
        } else {
            0nat
        },
    decreases n, 0int, k,
{
    let kids = child_numbers(items, x);
    if k == 0 {
        assert(n.children@.take(0) =~= Seq::<BomTreeNode>::empty());
        assert(pre_nodes(Seq::<BomTreeNode>::empty()) =~= Seq::<BomTreeNode>::empty());
    } else {
        lemma_children_count(items, n, x, level, path, m, k - 1);
        let c = n.children[k - 1];
        assert(node_matches(items, c, kids[k - 1], level + 1, path + "/"@ + kids[k - 1]));
        lemma_subtree_count(items, c, kids[k - 1], level + 1, path + "/"@ + kids[k - 1], m);
        crate::tree::lemma_pre_nodes_step(n.children@, k - 1);
        let before = pre_nodes(n.children@.take(k - 1));
        let s = seq![c];
        assert(s.subrange(0, 0) =~= Seq::<BomTreeNode>::empty());
        assert(s[0] == c);
        assert(pre_nodes(Seq::<BomTreeNode>::empty()) =~= Seq::<BomTreeNode>::empty());
        assert(pre_nodes(s) =~= seq![c] + pre_nodes(c.children@));
        assert(pre_nodes(n.children@.take(k)) =~= before + pre_nodes(s));
        lemma_count_named_concat(before, pre_nodes(s), m);
        if reaches(items, kids[k - 1], m) {
            assert forall|j: int| 0 <= j < k - 1 implies !reaches(items, #[trigger] kids[j], m) by {
                lemma_one_kid_reaches(items, x, m, j, k - 1);
            }
        }
    }
}

/// `r` is the material number of an item without parent or with a parent
/// that no item has.
proof fn lemma_root_item(items: Seq<BomItem>, r: Seq<char>)
    requires
        root_numbers(items).contains(r),
    ensures
        exists|j: int|
            0 <= j < items.len() && (#[trigger] items[j]).material_no@ == r && (is_top_item(items[j])
                || is_orphan_item(items, items[j])),
{
    let n = items.len() as int;
    let a = top_numbers_upto(items, n);
    let b = orphan_numbers_upto(items, n);
    let i = choose|i: int| 0 <= i < (a + b).len() && (a + b)[i] == r;
    if i < a.len() {
        assert(a[i] == r);
        lemma_picked(items, n, |it: BomItem| is_top_item(it), r);
    } else {
        assert(b[i - a.len()] == r);
        lemma_picked(items, n, |it: BomItem| is_orphan_item(items, it), r);
    }
}

/// No material number leads to a root.
proof fn lemma_root_no_incoming(items: Seq<BomItem>, r: Seq<char>, u: Seq<char>)
    requires
        distinct_materials(items),
        root_numbers(items).contains(r),
        has_material(items, u),
    ensures
        !parent_edge(items, u, r),
{
    lemma_root_item(items, r);
    let j = choose|j: int|
        0 <= j < items.len() && (#[trigger] items[j]).material_no@ == r && (is_top_item(items[j])
            || is_orphan_item(items, items[j]));
    if parent_edge(items, u, r) {
        let k = choose|k: int|
            0 <= k < items.len() && #[trigger] items[k].material_no@ == r && opt_text(
                items[k].parent_material_no,
            ) == Some(u);
        if j != k {
            assert(items[j].material_no@ != items[k].material_no@);
        }
    }
}

/// With distinct material numbers, the roots are distinct.
proof fn lemma_roots_distinct(items: Seq<BomItem>)
    requires
        distinct_materials(items),
    ensures
        root_numbers(items).no_duplicates(),
{
    let n = items.len() as int;
    let a = top_numbers_upto(items, n);
    let b = orphan_numbers_upto(items, n);
    lemma_picked_distinct(items, n, |it: BomItem| is_top_item(it));
    lemma_picked_distinct(items, n, |it: BomItem| is_orphan_item(items, it));
    let ab = a + b;
    assert forall|x: int, y: int| 0 <= x < ab.len() && 0 <= y < ab.len() && x != y implies ab[x] != ab[y] by {
        if x < a.len() && y >= a.len() {
            let v = ab[x];
            assert(a[x] == v);
            if b[y - a.len()] == v {
                lemma_picked(items, n, |it: BomItem| is_top_item(it), v);
                lemma_picked(items, n, |it: BomItem| is_orphan_item(items, it), v);
                let j = choose|j: int| 0 <= j < n && is_top_item(items[j]) && (#[trigger] items[j]).material_no@ == v;
                let k = choose|k: int| 0 <= k < n && is_orphan_item(items, items[k]) && (#[trigger] items[k]).material_no@ == v;
                if j != k {
                    assert(items[j].material_no@ != items[k].material_no@);
                }
            }
        } else if y < a.len() && x >= a.len() {
            let v = ab[y];
            assert(a[y] == v);
            if b[x - a.len()] == v {
                lemma_picked(items, n, |it: BomItem| is_top_item(it), v);
                lemma_picked(items, n, |it: BomItem| is_orphan_item(items, it), v);
                let j = choose|j: int| 0 <= j < n && is_top_item(items[j]) && (#[trigger] items[j]).material_no@ == v;
                let k = choose|k: int| 0 <= k < n && is_orphan_item(items, items[k]) && (#[trigger] items[k]).material_no@ == v;
                if j != k {
                    assert(items[j].material_no@ != items[k].material_no@);
                }
            }
        } else if x < a.len() {
            assert(ab[x] == a[x] && ab[y] == a[y]);
        } else {
            assert(ab[x] == b[x - a.len()] && ab[y] == b[y - a.len()]);
        }
    }
}

/// At most one root reaches a material number.
proof fn lemma_unique_root(items: Seq<BomItem>, r1: Seq<char>, r2: Seq<char>, m: Seq<char>)
    requires
        distinct_materials(items),
        root_numbers(items).contains(r1),
        root_numbers(items).contains(r2),
        reaches(items, r1, m),
        reaches(items, r2, m),
    ensures
        r1 == r2,
{
    let q1 = choose|p: Seq<Seq<char>>| is_descent(items, p) && p[0] == r1 && p.last() == m;
    let q2 = choose|p: Seq<Seq<char>>| is_descent(items, p) && p[0] == r2 && p.last() == m;
    crate::tree::lemma_roots_have_material(items, r1);
    crate::tree::lemma_roots_have_material(items, r2);
    lemma_chain_materials(items, q1);
    lemma_chain_materials(items, q2);
    if q1.len() <= q2.len() {
        lemma_common_end(items, q1, q2, q1.len() - 1);
        let d = q2.len() - q1.len();
        if d > 0 {
            assert(linked_at(items, q2, d - 1));
            assert(has_material(items, q2[d - 1]));
            lemma_root_no_incoming(items, r1, q2[d - 1]);
        }
    } else {
        lemma_common_end(items, q2, q1, q2.len() - 1);
        let d = q1.len() - q2.len();
        assert(linked_at(items, q1, d - 1));
        assert(has_material(items, q1[d - 1]));
        lemma_root_no_incoming(items, r2, q1[d - 1]);
    }
}

/// Going up from a chain of children through parents ends at a root.
proof fn lemma_root_above(items: Seq<BomItem>, p: Seq<Seq<char>>)
    requires
        distinct_materials(items),
        !has_reference_cycle(items),
        is_descent(items, p),
        has_material(items, p[0]),
    ensures
        exists|r: Seq<char>| root_numbers(items).contains(r) && reaches(items, r, p.last()),
    decreases items.len() - p.len(),
{
    lemma_chain_materials(items, p);
    lemma_no_repeat(items, p);
    lemma_chain_bound(items, p);
    let h = p[0];
    let j = choose|j: int| 0 <= j < items.len() && (#[trigger] items[j]).material_no@ == h;
    let it = items[j];
    let n = items.len() as int;
    if is_top_item(it) {
        lemma_picked(items, n, |x: BomItem| is_top_item(x), h);
        assert(top_numbers_upto(items, n).contains(h));
        assert(root_numbers(items)[top_numbers_upto(items, n).index_of(h)] == h);
        assert(root_numbers(items).contains(h));
    } else if is_orphan_item(items, it) {
        lemma_picked(items, n, |x: BomItem| is_orphan_item(items, x), h);
        let b = orphan_numbers_upto(items, n);
        let a = top_numbers_upto(items, n);
        assert(b.contains(h));
        let k = b.index_of(h);
        assert((a + b)[a.len() + k] == h);
        assert(root_numbers(items).contains(h));
    } else {
        let u = it.parent_material_no.unwrap()@;
        assert(parent_edge(items, u, h));
        lemma_prepend(items, u, p);
        let q = seq![u] + p;
        lemma_no_repeat(items, q);
        assert(has_material(items, u));
        lemma_chain_materials(items, q);
        lemma_chain_bound(items, q);
        lemma_root_above(items, q);
    }
}

proof fn lemma_forest_count(items: Seq<BomItem>, t: Seq<BomTreeNode>, m: Seq<char>, k: int)
    requires
        distinct_materials(items),
        !has_reference_cycle(items),
        forest_matches(items, t),
        0 <= k <= t.len(),
    ensures
        count_named(pre_nodes(t.take(k)), m) == if exists|i: int|
            0 <= i < k && reaches(items, #[trigger] root_numbers(items)[i], m) {
            1nat
        } else {
            0nat
        },
    decreases k,
{
    let roots = root_numbers(items);
    if k == 0 {
        assert(t.take(0) =~= Seq::<BomTreeNode>::empty());
        assert(pre_nodes(Seq::<BomTreeNode>::empty()) =~= Seq::<BomTreeNode>::empty());
    } else {
        lemma_forest_count(items, t, m, k - 1);
        let c = t[k - 1];
        assert(node_matches(items, c, roots[k - 1], 0, roots[k - 1]));
        lemma_subtree_count(items, c, roots[k - 1], 0, roots[k - 1], m);
        crate::tree::lemma_pre_nodes_step(t, k - 1);
        let before = pre_nodes(t.take(k - 1));
        let s = seq![c];
        assert(s.subrange(0, 0) =~= Seq::<BomTreeNode>::empty());
        assert(s[0] == c);
        assert(pre_nodes(Seq::<BomTreeNode>::empty()) =~= Seq::<BomTreeNode>::empty());
        assert(pre_nodes(s) =~= seq![c] + pre_nodes(c.children@));
        assert(pre_nodes(t.take(k)) =~= before + pre_nodes(s));
        lemma_count_named_concat(before, pre_nodes(s), m);
        if reaches(items, roots[k - 1], m) {
            assert forall|i: int| 0 <= i < k - 1 implies !reaches(items, #[trigger] roots[i], m) by {
                if reaches(items, roots[i], m) {
                    assert(roots.contains(roots[i]) && roots.contains(roots[k - 1]));
                    lemma_unique_root(items, roots[i], roots[k - 1], m);
                    lemma_roots_distinct(items);
                }
            }
        }
    }
}

proof fn lemma_count_named_multiset(s: Seq<BomTreeNode>, m: Seq<char>)
    ensures
        count_named(s, m) == s.map_values(|n: BomTreeNode| n.material_no@).to_multiset().count(m),
    decreases s.len(),
{
    broadcast use vstd::multiset::group_multiset_axioms;

    let f = |n: BomTreeNode| n.material_no@;
    if s.len() == 0 {
        assert(s.map_values(f) =~= Seq::<Seq<char>>::empty());
        vstd::seq_lib::to_multiset_contains(s.map_values(f), m);
    } else {
        lemma_count_named_multiset(s.drop_last(), m);
        assert(s.map_values(f) =~= s.drop_last().map_values(f).push(s.last().material_no@));
        vstd::seq_lib::to_multiset_build(s.drop_last().map_values(f), s.last().material_no@);
    }
}

proof fn lemma_item_numbers_multiset(items: Seq<BomItem>, n: int, m: Seq<char>)
    requires
        distinct_materials(items),
        0 <= n <= items.len(),
    ensures
        items.take(n).map_values(|it: BomItem| it.material_no@).to_multiset().count(m) == if exists|j: int|
            0 <= j < n && (#[trigger] items[j]).material_no@ == m {
            1nat
        } else {
            0nat
        },
    decreases n,
{
    broadcast use vstd::multiset::group_multiset_axioms;

    let f = |it: BomItem| it.material_no@;
    if n == 0 {
        assert(items.take(0).map_values(f) =~= Seq::<Seq<char>>::empty());
        vstd::seq_lib::to_multiset_contains(items.take(0).map_values(f), m);
    } else {
        lemma_item_numbers_multiset(items, n - 1, m);
        assert(items.take(n).map_values(f) =~= items.take(n - 1).map_values(f).push(items[n - 1].material_no@));
        vstd::seq_lib::to_multiset_build(items.take(n - 1).map_values(f), items[n - 1].material_no@);
        if items[n - 1].material_no@ == m {
            assert forall|j: int| 0 <= j < n - 1 implies (#[trigger] items[j]).material_no@ != m by {
                assert(items[j].material_no@ != items[n - 1].material_no@);
            }
        }
    }
}

/// Flattening the forest built from items with distinct material numbers
/// and no circular parent reference gives the items back: each material
/// number of the items is on exactly one node of the forest and no other
/// number is, there are as many flattened entries as items, every entry
/// holds the data of an item, and every item comes back with its data and
/// the parent it keeps (its own where that names an item, none otherwise).
pub proof fn lemma_flatten_keeps_items(items: Seq<BomItem>, t: Seq<BomTreeNode>)
    requires
        distinct_materials(items),
        !has_reference_cycle(items),
        forest_matches(items, t),
    ensures
        forall|m: Seq<char>|
            #[trigger] count_named(pre_nodes(t), m) == if has_material(items, m) {
                1nat
            } else {
                0nat
            },
        flat_items(t, None).len() == items.len(),
        all_from_items(items, flat_items(t, None)),
        forall|j: int|
            0 <= j < items.len() ==> exists|k: int|
                0 <= k < flat_items(t, None).len() && flattened_from(
                    items,
                    #[trigger] flat_items(t, None)[k],
                    #[trigger] items[j],
                ),
{
    broadcast use vstd::multiset::group_multiset_axioms;

    let roots = root_numbers(items);
    let f = |n: BomTreeNode| n.material_no@;
    let g = |it: BomItem| it.material_no@;
    assert(t.take(t.len() as int) =~= t);
    assert(items.take(items.len() as int) =~= items);
    assert forall|m: Seq<char>|
        #[trigger] count_named(pre_nodes(t), m) == if has_material(items, m) {
            1nat
        } else {
            0nat
        } by {
        lemma_forest_count(items, t, m, t.len() as int);
        if has_material(items, m) {
            let j = choose|j: int| 0 <= j < items.len() && (#[trigger] items[j]).material_no@ == m;
            let p = seq![m];
            assert(p[0] == m && p.last() == m);
            assert(is_descent(items, p));
            lemma_root_above(items, p);
            let r = choose|r: Seq<char>| roots.contains(r) && reaches(items, r, m);
            let i = choose|i: int| 0 <= i < roots.len() && roots[i] == r;
            assert(reaches(items, roots[i], m));
        } else {
            assert forall|i: int| 0 <= i < t.len() implies !reaches(items, #[trigger] roots[i], m) by {
                if reaches(items, roots[i], m) {
                    let q = choose|q: Seq<Seq<char>>| is_descent(items, q) && q[0] == roots[i] && q.last() == m;
                    assert(roots.contains(roots[i]));
                    lemma_roots_have_material(items, roots[i]);
                    lemma_chain_materials(items, q);
                    assert(has_material(items, q[q.len() - 1]));
                }
            }
        }
    }
    let a = pre_nodes(t).map_values(f).to_multiset();
    let b = items.map_values(g).to_multiset();
    assert forall|m: Seq<char>| a.count(m) == b.count(m) by {
        lemma_count_named_multiset(pre_nodes(t), m);
        lemma_item_numbers_multiset(items, items.len() as int, m);
        assert(count_named(pre_nodes(t), m) == if has_material(items, m) {
            1nat
        } else {
            0nat
        });
    }
    assert(a =~= b);
    vstd::seq_lib::to_multiset_len(pre_nodes(t).map_values(f));
    vstd::seq_lib::to_multiset_len(items.map_values(g));
    crate::tree::lemma_flatten_follows_pre_order(t, None);
    assert(t.take(t.len() as int) =~= t);
    lemma_forest_flat(items, t, t.len() as int);
    let flat = flat_items(t, None);
    assert forall|j: int| 0 <= j < items.len() implies exists|k: int|
        0 <= k < flat.len() && flattened_from(items, #[trigger] flat[k], #[trigger] items[j]) by {
        let m = items[j].material_no@;
        assert(has_material(items, m));
        assert(count_named(pre_nodes(t), m) == 1nat);
        lemma_count_named_witness(pre_nodes(t), m);
        let k = choose|k: int| 0 <= k < pre_nodes(t).len() && (#[trigger] pre_nodes(t)[k]).material_no@ == m;
        assert(flat[k] == item_of(pre_nodes(t)[k], flat[k].parent_material_no));
        assert(from_some_item(items, flat[k]));
        let w = choose|w: int| 0 <= w < items.len() && flattened_from(items, flat[k], #[trigger] items[w]);
        if w != j {
            assert(items[w].material_no@ != items[j].material_no@);
        }
        assert(flattened_from(items, flat[k], items[j]));
    }
}

proof fn lemma_count_named_witness(s: Seq<BomTreeNode>, m: Seq<char>)
    requires
        count_named(s, m) > 0,
    ensures
        exists|k: int| 0 <= k < s.len() && (#[trigger] s[k]).material_no@ == m,
    decreases s.len(),
{
    if s.last().material_no@ == m {
        assert(s[s.len() - 1].material_no@ == m);
    } else {
        lemma_count_named_witness(s.drop_last(), m);
        let k = choose|k: int| 0 <= k < s.drop_last().len() && (#[trigger] s.drop_last()[k]).material_no@ == m;
        assert(s[k] == s.drop_last()[k]);
    }
}

/// The parent an item keeps once its BOM is built and flattened: its own
/// when it names an item, none otherwise.
pub open spec fn kept_parent(items: Seq<BomItem>, it: BomItem) -> Option<Seq<char>> {
    match it.parent_material_no {
        Some(p) => if p@.len() > 0 && has_material(items, p@) {
            Some(p@)
        } else {
            None
        },
        None => None,
    }
}

/// The flattened item `e` holds the data of item `it`, with the parent it
/// keeps.
pub open spec fn flattened_from(items: Seq<BomItem>, e: BomItem, it: BomItem) -> bool {
    &&& e.material_no@ == it.material_no@
    &&& e.material_name@ == it.material_name@
    &&& e.specification@ == it.specification@
    &&& e.bom_type == it.bom_type
    &&& e.quantity == it.quantity
    &&& e.unit@ == it.unit@
    &&& e.loss_rate == it.loss_rate
    &&& e.supplier@ == it.supplier@
    &&& e.unit_price == it.unit_price
    &&& e.source == it.source
    &&& e.effective_date@ == it.effective_date@
    &&& e.expiry_date@ == it.expiry_date@
    &&& e.remark@ == it.remark@
    &&& opt_text(e.parent_material_no) == kept_parent(items, it)
}

/// The entry is the flattened form of some item.
pub open spec fn from_some_item(items: Seq<BomItem>, e: BomItem) -> bool {
    exists|j: int| 0 <= j < items.len() && flattened_from(items, e, #[trigger] items[j])
}

/// Every entry is the flattened form of some item.
pub open spec fn all_from_items(items: Seq<BomItem>, s: Seq<BomItem>) -> bool {
    forall|k: int| 0 <= k < s.len() ==> from_some_item(items, #[trigger] s[k])
}

proof fn lemma_all_from_concat(items: Seq<BomItem>, a: Seq<BomItem>, b: Seq<BomItem>)
    requires
        all_from_items(items, a),
        all_from_items(items, b),
    ensures
        all_from_items(items, a + b),
{
    assert forall|k: int| 0 <= k < (a + b).len() implies from_some_item(items, #[trigger] (a + b)[k]) by {
        if k < a.len() {
            assert((a + b)[k] == a[k]);
        } else {
            assert((a + b)[k] == b[k - a.len()]);
        }
    }
}

/// The subtree grown for `x`, flattened under a parent that the items of
/// `x` keep, holds flattened forms of items only.
proof fn lemma_subtree_flat(
    items: Seq<BomItem>,
    n: BomTreeNode,
    x: Seq<char>,
    level: int,
    path: Seq<char>,
    parent: Option<String>,
)
    requires
        distinct_materials(items),
        node_matches(items, n, x, level, path),
        forall|j: int|
            0 <= j < items.len() && (#[trigger] items[j]).material_no@ == x ==> opt_text(parent)
                == kept_parent(items, items[j]),
    ensures
        all_from_items(items, flat_items(seq![n], parent)),
    decreases n, 1int, 0int,
{
    let len = n.children@.len() as int;
    let above = Some(n.material_no);
    let j = choose|j: int| last_of(items, x, j) && carries(n, items[j]);
    assert(n.material_no@ == x);
    assert(has_material(items, x));
    lemma_children_flat(items, n, x, level, path, len);
    assert(n.children@.take(len) =~= n.children@);
    let s = seq![n];
    assert(s.subrange(0, 0) =~= Seq::<BomTreeNode>::empty());
    assert(s[0] == n);
    assert(flat_items(Seq::<BomTreeNode>::empty(), parent) =~= Seq::<BomItem>::empty());
    assert(flat_items(s, parent) =~= seq![item_of(n, parent)] + flat_items(n.children@, above));
    let head = seq![item_of(n, parent)];
    assert(flattened_from(items, head[0], items[j]));
    assert(from_some_item(items, head[0]));
    assert(all_from_items(items, head));
    lemma_all_from_concat(items, head, flat_items(n.children@, above));
}

proof fn lemma_children_flat(
    items: Seq<BomItem>,
    n: BomTreeNode,
    x: Seq<char>,
    level: int,
    path: Seq<char>,
    k: int,
)
    requires
        distinct_materials(items),
        node_matches(items, n, x, level, path),
        n.material_no@ == x,
        has_material(items, x),
        0 <= k <= n.children@.len(),
    ensures
        all_from_items(items, flat_items(n.children@.take(k), Some(n.material_no))),
    decreases n, 0int, k,
{
    let kids = child_numbers(items, x);
    let above = Some(n.material_no);
    if k == 0 {
        assert(n.children@.take(0) =~= Seq::<BomTreeNode>::empty());
        assert(flat_items(Seq::<BomTreeNode>::empty(), above) =~= Seq::<BomItem>::empty());
    } else {
        lemma_children_flat(items, n, x, level, path, k - 1);
        let c = n.children[k - 1];
        let cn = kids[k - 1];
        assert(node_matches(items, c, cn, level + 1, path + "/"@ + cn));
        assert(kids.contains(cn));
        lemma_children(items, x, cn);
        let w = choose|w: int|
            0 <= w < items.len() && #[trigger] items[w].material_no@ == cn && opt_text(items[w].parent_material_no)
                == Some(x);
        assert forall|j: int|
            0 <= j < items.len() && (#[trigger] items[j]).material_no@ == cn implies opt_text(above)
                == kept_parent(items, items[j]) by {
            if j != w {
                assert(items[j].material_no@ != items[w].material_no@);
            }
        }
        lemma_subtree_flat(items, c, cn, level + 1, path + "/"@ + cn, above);
        crate::tree::lemma_flat_step(n.children@, above, k - 1);
        let s = seq![c];
        assert(s.subrange(0, 0) =~= Seq::<BomTreeNode>::empty());
        assert(s[0] == c);
        assert(flat_items(Seq::<BomTreeNode>::empty(), above) =~= Seq::<BomItem>::empty());
        assert(flat_items(s, above) =~= seq![item_of(c, above)] + flat_items(c.children@, Some(c.material_no)));
        assert(flat_items(n.children@.take(k), above) =~= flat_items(n.children@.take(k - 1), above)
            + flat_items(s, above));
        lemma_all_from_concat(items, flat_items(n.children@.take(k - 1), above), flat_items(s, above));
    }
}


/// A root's item keeps no parent.
proof fn lemma_root_keeps_none(items: Seq<BomItem>, r: Seq<char>, j: int)
    requires
        distinct_materials(items),
        root_numbers(items).contains(r),
        0 <= j < items.len(),
        items[j].material_no@ == r,
    ensures
        kept_parent(items, items[j]) == None::<Seq<char>>,
{
    let n = items.len() as int;
    let a = top_numbers_upto(items, n);
    let b = orphan_numbers_upto(items, n);
    let i = choose|i: int| 0 <= i < (a + b).len() && (a + b)[i] == r;
    if i < a.len() {
        assert(a[i] == r);
        assert(a.contains(r));
        lemma_picked(items, n, |it: BomItem| is_top_item(it), r);
        let w = choose|w: int| 0 <= w < n && is_top_item(items[w]) && (#[trigger] items[w]).material_no@ == r;
        if w != j {
            assert(items[w].material_no@ != items[j].material_no@);
        }
    } else {
        assert(b[i - a.len()] == r);
        assert(b.contains(r));
        lemma_picked(items, n, |it: BomItem| is_orphan_item(items, it), r);
        let w = choose|w: int| 0 <= w < n && is_orphan_item(items, items[w]) && (#[trigger] items[w]).material_no@ == r;
        if w != j {
            assert(items[w].material_no@ != items[j].material_no@);
        }
    }
}

proof fn lemma_forest_flat(items: Seq<BomItem>, t: Seq<BomTreeNode>, k: int)
    requires
        distinct_materials(items),
        forest_matches(items, t),
        0 <= k <= t.len(),
    ensures
        all_from_items(items, flat_items(t.take(k), None)),
    decreases k,
{
    let roots = root_numbers(items);
    if k == 0 {
        assert(t.take(0) =~= Seq::<BomTreeNode>::empty());
        assert(flat_items(Seq::<BomTreeNode>::empty(), None) =~= Seq::<BomItem>::empty());
    } else {
        lemma_forest_flat(items, t, k - 1);
        let c = t[k - 1];
        let r = roots[k - 1];
        assert(node_matches(items, c, r, 0, r));
        assert(roots.contains(r));
        assert forall|j: int|
            0 <= j < items.len() && (#[trigger] items[j]).material_no@ == r implies opt_text(None::<String>)
                == kept_parent(items, items[j]) by {
            lemma_root_keeps_none(items, r, j);
        }
        lemma_subtree_flat(items, c, r, 0, r, None);
        crate::tree::lemma_flat_step(t, None, k - 1);
        let s = seq![c];
        assert(s.subrange(0, 0) =~= Seq::<BomTreeNode>::empty());
        assert(s[0] == c);
        assert(flat_items(Seq::<BomTreeNode>::empty(), None) =~= Seq::<BomItem>::empty());
        assert(flat_items(s, None) =~= seq![item_of(c, None)] + flat_items(c.children@, Some(c.material_no)));
        assert(flat_items(t.take(k), None) =~= flat_items(t.take(k - 1), None) + flat_items(s, None));
        lemma_all_from_concat(items, flat_items(t.take(k - 1), None), flat_items(s, None));
    }
}


/// A prefix of a chain of children is a chain of children.
proof fn lemma_descent_prefix(items: Seq<BomItem>, p: Seq<Seq<char>>, n: int)
    requires
        is_descent(items, p),
        1 <= n <= p.len(),
    ensures
        is_descent(items, p.take(n)),
{
    let q = p.take(n);
    assert forall|i: int| 0 <= i < q.len() - 1 implies #[trigger] linked_at(items, q, i) by {
        assert(linked_at(items, p, i));
        assert(q[i] == p[i] && q[i + 1] == p[i + 1]);
    }
}

/// Items with distinct material numbers build into a finite forest: a chain
/// of children from a root never comes back to a material number, since each
/// material number has one parent and a root has none among the items.
pub proof fn lemma_distinct_builds(items: Seq<BomItem>)
    requires
        distinct_materials(items),
    ensures
        finite_descent(items),
{
    assert forall|p: Seq<Seq<char>>|
        is_descent(items, p) && root_numbers(items).contains(#[trigger] p[0]) implies p.no_duplicates() by {
        if !p.no_duplicates() {
            let (a0, b0) = choose|a: int, b: int| 0 <= a < p.len() && 0 <= b < p.len() && a != b && p[a] == p[b];
            let a = if a0 < b0 { a0 } else { b0 };
            let b = if a0 < b0 { b0 } else { a0 };
            let q1 = p.take(a + 1);
            let q2 = p.take(b + 1);
            lemma_descent_prefix(items, p, a + 1);
            lemma_descent_prefix(items, p, b + 1);
            assert(q1.last() == p[a] && q2.last() == p[b]);
            lemma_common_end(items, q1, q2, a);
            let d = b - a;
            assert(q1[0] == p[0] && q2[d] == p[d]);
            assert(linked_at(items, p, d - 1));
            lemma_roots_have_material(items, p[0]);
            lemma_chain_materials(items, p);
            assert(has_material(items, p[d - 1]));
            lemma_root_no_incoming(items, p[0], p[d - 1]);
        }
    }
}


/// Each item names no parent, or the non-empty material number of an item.
pub open spec fn parents_resolved(items: Seq<BomItem>) -> bool {
    forall|j: int|
        0 <= j < items.len() ==> match (#[trigger] items[j]).parent_material_no {
            Some(p) => p@.len() > 0 && has_material(items, p@),
            None => true,
        }
}

/// The entry `e` holds exactly the data of item `it`, its parent included.
pub open spec fn same_item(e: BomItem, it: BomItem) -> bool {
    &&& e.material_no@ == it.material_no@
    &&& e.material_name@ == it.material_name@
    &&& e.specification@ == it.specification@
    &&& e.bom_type == it.bom_type
    &&& e.quantity == it.quantity
    &&& e.unit@ == it.unit@
    &&& e.loss_rate == it.loss_rate
    &&& e.supplier@ == it.supplier@
    &&& e.unit_price == it.unit_price
    &&& e.source == it.source
    &&& e.effective_date@ == it.effective_date@
    &&& e.expiry_date@ == it.expiry_date@
    &&& e.remark@ == it.remark@
    &&& opt_text(e.parent_material_no) == opt_text(it.parent_material_no)
}

/// When every item's parent is an item, flattening the forest built from
/// items with distinct material numbers and no circular reference gives
/// the items back, each exactly once, with all their data: as many entries
/// as items, every entry equal to an item, every item equal to an entry.
pub proof fn lemma_flatten_gives_items_back(items: Seq<BomItem>, t: Seq<BomTreeNode>)
    requires
        distinct_materials(items),
        !has_reference_cycle(items),
        parents_resolved(items),
        forest_matches(items, t),
    ensures
        flat_items(t, None).len() == items.len(),
        forall|k: int|
            0 <= k < flat_items(t, None).len() ==> exists|j: int|
                0 <= j < items.len() && same_item(#[trigger] flat_items(t, None)[k], #[trigger] items[j]),
        forall|j: int|
            0 <= j < items.len() ==> exists|k: int|
                0 <= k < flat_items(t, None).len() && same_item(#[trigger] flat_items(t, None)[k], #[trigger] items[j]),
{
    lemma_flatten_keeps_items(items, t);
    let flat = flat_items(t, None);
    assert forall|j: int| 0 <= j < items.len() implies kept_parent(items, #[trigger] items[j]) == opt_text(
        items[j].parent_material_no,
    ) by {
        match items[j].parent_material_no {
            Some(p) => {
                assert(p@.len() > 0 && has_material(items, p@));
            },
            None => {},
        }
    }
    assert forall|k: int| 0 <= k < flat.len() implies exists|j: int|
        0 <= j < items.len() && same_item(#[trigger] flat[k], #[trigger] items[j]) by {
        assert(from_some_item(items, flat[k]));
        let j = choose|j: int| 0 <= j < items.len() && flattened_from(items, flat[k], #[trigger] items[j]);
        assert(kept_parent(items, items[j]) == opt_text(items[j].parent_material_no));
        assert(same_item(flat[k], items[j]));
    }
    assert forall|j: int| 0 <= j < items.len() implies exists|k: int|
        0 <= k < flat.len() && same_item(#[trigger] flat[k], #[trigger] items[j]) by {
        let k = choose|k: int| 0 <= k < flat.len() && flattened_from(items, #[trigger] flat[k], items[j]);
        assert(kept_parent(items, items[j]) == opt_text(items[j].parent_material_no));
        assert(same_item(flat[k], items[j]));
    }
}

} // verus!
