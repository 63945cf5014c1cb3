//! The BOM as a forest: building it from the parent references of the
//! items, flattening it back, and the queries over it.
pub mod roundtrip;

use vstd::prelude::*;
use crate::bom::{BomItem, BomType, SourceType, copy_opt_string};
use crate::bom::parser::opt_text;
use crate::number::Number;
use crate::validation::{IssueLevel, IssueModel, ValidationResult, count_level, issue_views};
use crate::validation::cycles::{
    cycle_issue, cycle_report, has_reference_cycle, has_text, is_reference_cycle, next_in,
    parent_edge, parent_is,
};
use crate::bom::parser::texts;
use crate::text::{concat3, str_equal};

verus! {

/// A node of the BOM forest: the data of an item, its children, its depth
/// (roots are at level 0) and the `/`-separated material numbers from its
/// root down to it.
#[derive(Debug)]
pub struct BomTreeNode {
    pub material_no: String,
    pub material_name: String,
    pub specification: String,
    pub bom_type: BomType,
    pub quantity: Number,
    pub unit: String,
    pub loss_rate: Number,
    pub supplier: String,
    pub unit_price: Number,
    pub source: SourceType,
    pub effective_date: String,
    pub expiry_date: String,
    pub remark: String,
    pub children: Vec<BomTreeNode>,
    pub level: usize,
    pub path: String,
}

/// The node carries the data fields of the item.
pub open spec fn carries(n: BomTreeNode, it: BomItem) -> bool {
    &&& n.material_no@ == it.material_no@
    &&& n.material_name@ == it.material_name@
    &&& n.specification@ == it.specification@
    &&& n.bom_type == it.bom_type
    &&& n.quantity == it.quantity
    &&& n.unit@ == it.unit@
    &&& n.loss_rate == it.loss_rate
    &&& n.supplier@ == it.supplier@
    &&& n.unit_price == it.unit_price
    &&& n.source == it.source
    &&& n.effective_date@ == it.effective_date@
    &&& n.expiry_date@ == it.expiry_date@
    &&& n.remark@ == it.remark@
}

/// `j` is the last item with material number `m`.
pub open spec fn last_of(items: Seq<BomItem>, m: Seq<char>, j: int) -> bool {
    &&& 0 <= j < items.len()
    &&& items[j].material_no@ == m
    &&& forall|k: int| j < k < items.len() ==> (#[trigger] items[k]).material_no@ != m
}

/// The item names `m` (non-empty) as its parent.
pub open spec fn is_child_of(it: BomItem, m: Seq<char>) -> bool {
    m.len() > 0 && opt_text(it.parent_material_no) == Some(m)
}

/// The item has no parent (none, or an empty one).
pub open spec fn is_top_item(it: BomItem) -> bool {
    match it.parent_material_no {
        Some(p) => p@.len() == 0,
        None => true,
    }
}

/// Some item has material number `m`.
pub open spec fn has_material(items: Seq<BomItem>, m: Seq<char>) -> bool {
    exists|j: int| 0 <= j < items.len() && (#[trigger] items[j]).material_no@ == m
}

/// The item names a non-empty parent that no item has as material number.
pub open spec fn is_orphan_item(items: Seq<BomItem>, it: BomItem) -> bool {
    match it.parent_material_no {
        Some(p) => p@.len() > 0 && !has_material(items, p@),
        None => false,
    }
}

/// The material numbers of the first `n` items that `keep` selects, in
/// item order.
pub open spec fn picked_numbers(
    items: Seq<BomItem>,
    n: int,
    keep: spec_fn(BomItem) -> bool,
) -> Seq<Seq<char>>
    decreases n,
{
    if n <= 0 {
        seq![]
    } else if keep(items[n - 1]) {
        picked_numbers(items, n - 1, keep).push(items[n - 1].material_no@)
    } else {
        picked_numbers(items, n - 1, keep)
    }
}

/// The material numbers of the children of `m` among the first `n` items.
pub open spec fn child_numbers_upto(items: Seq<BomItem>, m: Seq<char>, n: int) -> Seq<Seq<char>> {
    picked_numbers(items, n, |it: BomItem| is_child_of(it, m))
}

/// The material numbers of the children of `m`, in item order.
pub open spec fn child_numbers(items: Seq<BomItem>, m: Seq<char>) -> Seq<Seq<char>> {
    child_numbers_upto(items, m, items.len() as int)
}

/// The material numbers of the items without parent among the first `n`.
pub open spec fn top_numbers_upto(items: Seq<BomItem>, n: int) -> Seq<Seq<char>> {
    picked_numbers(items, n, |it: BomItem| is_top_item(it))
}

/// The material numbers of the items with a missing parent among the first `n`.
pub open spec fn orphan_numbers_upto(items: Seq<BomItem>, n: int) -> Seq<Seq<char>> {
    picked_numbers(items, n, |it: BomItem| is_orphan_item(items, it))
}

/// The material numbers the forest grows from, in order: first those of
/// the items without parent, then those of the items whose parent is no
/// item's material number.
pub open spec fn root_numbers(items: Seq<BomItem>) -> Seq<Seq<char>> {
    top_numbers_upto(items, items.len() as int) + orphan_numbers_upto(items, items.len() as int)
}

/// The parent relation leads from `p[i]` to `p[i + 1]`.
pub open spec fn linked_at(items: Seq<BomItem>, p: Seq<Seq<char>>, i: int) -> bool {
    parent_edge(items, p[i], p[i + 1])
}

/// `p` is a chain of material numbers, each a child of the one before.
pub open spec fn is_descent(items: Seq<BomItem>, p: Seq<Seq<char>>) -> bool {
    &&& p.len() >= 1
    &&& forall|i: int| 0 <= i < p.len() - 1 ==> #[trigger] linked_at(items, p, i)
}

/// Every chain of children followed down from a root is free of repeats:
/// the forest is finite.
pub open spec fn finite_descent(items: Seq<BomItem>) -> bool {
    forall|p: Seq<Seq<char>>|
        is_descent(items, p) && root_numbers(items).contains(#[trigger] p[0]) ==> p.no_duplicates()
}

/// `p` continues the chain `a` (non-empty) by children.
pub open spec fn extends(items: Seq<BomItem>, a: Seq<Seq<char>>, p: Seq<Seq<char>>) -> bool {
    &&& 1 <= a.len() <= p.len()
    &&& p.subrange(0, a.len() as int) == a
    &&& forall|i: int| a.len() - 1 <= i < p.len() - 1 ==> #[trigger] linked_at(items, p, i)
}

/// The node is the subtree that the items give for material `m` at the
/// given level and path: it carries the last item numbered `m`, and its
/// children are, in order, the subtrees of the children of `m`.
pub open spec fn node_matches(
    items: Seq<BomItem>,
    n: BomTreeNode,
    m: Seq<char>,
    level: int,
    path: Seq<char>,
) -> bool
    decreases n,
{
    let kids = child_numbers(items, m);
    &&& exists|j: int| last_of(items, m, j) && carries(n, items[j])
    &&& n.level == level
    &&& n.path@ == path
    &&& n.children@.len() == kids.len()
    &&& forall|k: int|
        0 <= k < n.children@.len() ==> node_matches(
            items,
            #[trigger] n.children[k],
            kids[k],
            level + 1,
            path + "/"@ + kids[k],
        )
}

/// The nodes are, in order, the trees grown from the roots of the items.
pub open spec fn forest_matches(items: Seq<BomItem>, t: Seq<BomTreeNode>) -> bool {
    let roots = root_numbers(items);
    &&& t.len() == roots.len()
    &&& forall|k: int| 0 <= k < t.len() ==> node_matches(items, #[trigger] t[k], roots[k], 0, roots[k])
}

pub(crate) proof fn lemma_picked(items: Seq<BomItem>, n: int, keep: spec_fn(BomItem) -> bool, x: Seq<char>)
    requires
        0 <= n <= items.len(),
    ensures
        picked_numbers(items, n, keep).contains(x) <==> exists|j: int|
            0 <= j < n && keep(items[j]) && (#[trigger] items[j]).material_no@ == x,
    decreases n,
{
    if n > 0 {
        lemma_picked(items, n - 1, keep, x);
        let prev = picked_numbers(items, n - 1, keep);
        if keep(items[n - 1]) {
            let y = items[n - 1].material_no@;
            let cur = prev.push(y);
            assert(cur[prev.len() as int] == y);
            if prev.contains(x) {
                let i = choose|i: int| 0 <= i < prev.len() && prev[i] == x;
                assert(cur[i] == prev[i]);
            }
            if cur.contains(x) {
                let i = choose|i: int| 0 <= i < cur.len() && cur[i] == x;
                if i < prev.len() {
                    assert(cur[i] == prev[i]);
                }
            }
        }
    }
}

pub(crate) proof fn lemma_children(items: Seq<BomItem>, m: Seq<char>, c: Seq<char>)
    ensures
        child_numbers(items, m).contains(c) <==> parent_edge(items, m, c),
{
    lemma_picked(items, items.len() as int, |it: BomItem| is_child_of(it, m), c);
}

pub(crate) proof fn lemma_roots_have_material(items: Seq<BomItem>, r: Seq<char>)
    requires
        root_numbers(items).contains(r),
    ensures
        has_material(items, r),
{
    let n = items.len() as int;
    let a = top_numbers_upto(items, n);
    let b = orphan_numbers_upto(items, n);
    let i = choose|i: int| 0 <= i < (a + b).len() && (a + b)[i] == r;
    if i < a.len() {
        assert(a[i] == r);
        lemma_picked(items, n, |it: BomItem| is_top_item(it), r);
    } else {
        assert(b[i - a.len()] == r);
        lemma_picked(items, n, |it: BomItem| is_orphan_item(items, it), r);
    }
}

pub(crate) proof fn lemma_chain_bound(items: Seq<BomItem>, a: Seq<Seq<char>>)
    requires
        a.no_duplicates(),
        forall|i: int| 0 <= i < a.len() ==> has_material(items, #[trigger] a[i]),
    ensures
        a.len() <= items.len(),
{
    let ms = Seq::new(items.len(), |j: int| items[j].material_no@);
    a.unique_seq_to_set();
    ms.lemma_cardinality_of_set();
    assert forall|x: Seq<char>| a.to_set().contains(x) implies ms.to_set().contains(x) by {
        let i = choose|i: int| 0 <= i < a.len() && a[i] == x;
        assert(has_material(items, a[i]));
        let j = choose|j: int| 0 <= j < items.len() && (#[trigger] items[j]).material_no@ == x;
        assert(ms[j] == x);
    }
    vstd::set_lib::lemma_len_subset(a.to_set(), ms.to_set());
}

proof fn lemma_extends_step(items: Seq<BomItem>, a: Seq<Seq<char>>, p: Seq<Seq<char>>)
    requires
        extends(items, a, p),
        p.len() > a.len(),
    ensures
        extends(items, a.push(p[a.len() as int]), p),
        parent_edge(items, a.last(), p[a.len() as int]),
{
    let b = a.push(p[a.len() as int]);
    assert(p.subrange(0, b.len() as int) =~= b) by {
        assert forall|i: int| 0 <= i < a.len() implies p[i] == a[i] by {
            assert(p.subrange(0, a.len() as int)[i] == p[i]);
        }
    }
    assert(linked_at(items, p, a.len() - 1));
    assert(p[a.len() - 1] == a.last()) by {
        assert(p.subrange(0, a.len() as int)[a.len() - 1] == p[a.len() - 1]);
    }
}

proof fn lemma_extends_shorter(items: Seq<BomItem>, a: Seq<Seq<char>>, c: Seq<char>, p: Seq<Seq<char>>)
    requires
        a.len() >= 1,
        extends(items, a.push(c), p),
        parent_edge(items, a.last(), c),
    ensures
        extends(items, a, p),
{
    let b = a.push(c);
    assert(p.subrange(0, a.len() as int) =~= a) by {
        assert forall|i: int| 0 <= i < a.len() implies p[i] == a[i] by {
            assert(p.subrange(0, b.len() as int)[i] == p[i]);
            assert(b[i] == a[i]);
        }
    }
    assert forall|i: int| a.len() - 1 <= i < p.len() - 1 implies #[trigger] linked_at(items, p, i) by {
        if i == a.len() - 1 {
            assert(p.subrange(0, b.len() as int)[i] == p[i]);
            assert(p.subrange(0, b.len() as int)[i + 1] == p[i + 1]);
            assert(b[i] == a.last());
            assert(b[i + 1] == c);
        }
    }
}

/// The position of the last item with material number `m`.
pub(crate) fn last_index(items: &Vec<BomItem>, m: &String) -> (r: usize)
    requires
        has_material(items@, m@),
    ensures
        last_of(items@, m@, r as int),
{
    let mut i: usize = items.len();
    while i > 0
        invariant
            i <= items@.len(),
            has_material(items@, m@),
            forall|k: int| i <= k < items@.len() ==> (#[trigger] items@[k]).material_no@ != m@,
        decreases i,
    {
        i = i - 1;
        if items[i].material_no == *m {
            return i;
        }
    }
    proof {
        let j = choose|j: int| 0 <= j < items@.len() && (#[trigger] items@[j]).material_no@ == m@;
    }
    0
}

/// Whether some item has material number `m`.
pub(crate) fn has_material_no(items: &Vec<BomItem>, m: &String) -> (r: bool)
    ensures
        r == has_material(items@, m@),
{
    let mut i: usize = 0;
    while i < items.len()
        invariant
            i <= items@.len(),
            forall|k: int| 0 <= k < i ==> (#[trigger] items@[k]).material_no@ != m@,
        decreases items@.len() - i,
    {
        if items[i].material_no == *m {
            return true;
        }
        i = i + 1;
    }
    false
}

impl BomTreeNode {
    /// A root-level node carrying the item's data, without children.
    pub fn from_item(item: &BomItem) -> (r: BomTreeNode)
        ensures
            carries(r, *item),
            r.children@.len() == 0,
            r.level == 0,
            r.path@.len() == 0,
    {
        BomTreeNode {
            material_no: item.material_no.clone(),
            material_name: item.material_name.clone(),
            specification: item.specification.clone(),
            bom_type: item.bom_type,
            quantity: item.quantity.duplicate(),
            unit: item.unit.clone(),
            loss_rate: item.loss_rate.duplicate(),
            supplier: item.supplier.clone(),
            unit_price: item.unit_price.duplicate(),
            source: item.source,
            effective_date: item.effective_date.clone(),
            expiry_date: item.expiry_date.clone(),
            remark: item.remark.clone(),
            children: Vec::new(),
            level: 0,
            path: String::new(),
        }
    }

    /// The node is a virtual (phantom) part.
    pub fn is_virtual(&self) -> (r: bool)
        ensures
            r == (self.bom_type == BomType::Virtual),
    {
        matches!(self.bom_type, BomType::Virtual)
    }

    /// The node has no children.
    pub fn is_leaf(&self) -> (r: bool)
        ensures
            r == (self.children@.len() == 0),
    {
        self.children.len() == 0
    }
}

/// Grows the subtree of `m`, whose chain of ancestors (itself last) is
/// `anc`. Gives `None` exactly when some chain of children below repeats a
/// material number, so that the subtree would never end.
fn grow(items: &Vec<BomItem>, m: &String, level: usize, path: String, anc: &mut Vec<String>) -> (r:
    Option<BomTreeNode>)
    requires
        old(anc)@.len() == level + 1,
        texts(old(anc)@).last() == m@,
        texts(old(anc)@).no_duplicates(),
        forall|i: int| 0 <= i < old(anc)@.len() ==> has_material(items@, #[trigger] texts(old(anc)@)[i]),
    ensures
        final(anc)@ == old(anc)@,
        r is None <==> exists|p: Seq<Seq<char>>|
            extends(items@, texts(old(anc)@), p) && !p.no_duplicates(),
        r matches Some(n) ==> node_matches(items@, n, m@, level as int, path@),
    decreases items@.len() - old(anc)@.len(),
{
    let ghost a0 = texts(anc@);
    let ghost anc0 = anc@;
    proof {
        lemma_chain_bound(items@, a0);
        assert(has_material(items@, a0[a0.len() - 1]));
    }
    let j = last_index(items, m);
    let mut node = BomTreeNode::from_item(&items[j]);
    node.level = level;
    let mut children: Vec<BomTreeNode> = Vec::new();
    let mut i: usize = 0;
    while i < items.len()
        invariant
            anc@ == anc0,
            anc0 == old(anc)@,
            a0 == texts(anc0),
            anc0.len() == level + 1,
            a0.last() == m@,
            a0.no_duplicates(),
            forall|t: int| 0 <= t < anc0.len() ==> has_material(items@, #[trigger] a0[t]),
            a0.len() <= items@.len(),
            i <= items@.len(),
            children@.len() == child_numbers_upto(items@, m@, i as int).len(),
            forall|k: int|
                0 <= k < children@.len() ==> node_matches(
                    items@,
                    #[trigger] children@[k],
                    child_numbers_upto(items@, m@, i as int)[k],
                    level + 1,
                    path@ + "/"@ + child_numbers_upto(items@, m@, i as int)[k],
                ),
            forall|c: Seq<char>, p: Seq<Seq<char>>|
                child_numbers_upto(items@, m@, i as int).contains(c) && #[trigger] extends(
                    items@,
                    a0.push(c),
                    p,
                ) ==> p.no_duplicates(),
        decreases items@.len() - i,
    {
        let ghost before = child_numbers_upto(items@, m@, i as int);
        if parent_is(&items[i], m) {
            let c = &items[i].material_no;
            proof {
                assert(parent_edge(items@, m@, c@));
                assert(has_material(items@, c@));
            }
            if has_text(anc, c) {
                proof {
                    let p = a0.push(c@);
                    assert(p.subrange(0, a0.len() as int) =~= a0);
                    assert(linked_at(items@, p, a0.len() - 1));
                    assert(extends(items@, a0, p));
                    let t = choose|t: int| 0 <= t < a0.len() && a0[t] == c@;
                    assert(p[t] == p[a0.len() as int]);
                    assert(!p.no_duplicates());
                    assert(extends(items@, texts(old(anc)@), p));
                }
                return None;
            }
            anc.push(c.clone());
            proof {
                assert(texts(anc@) =~= a0.push(c@));
                assert(texts(anc@).no_duplicates());
                lemma_chain_bound(items@, texts(anc@));
            }
            let child_path = concat3(path.as_str(), "/", c.as_str());
            let sub = grow(items, c, level + 1, child_path, anc);
            anc.pop();
            proof {
                assert(anc@ =~= anc0);
            }
            match sub {
                None => {
                    proof {
                        assert(exists|p: Seq<Seq<char>>|
                            extends(items@, a0.push(c@), p) && !p.no_duplicates());
                        let p = choose|p: Seq<Seq<char>>|
                            extends(items@, a0.push(c@), p) && !p.no_duplicates();
                        lemma_extends_shorter(items@, a0, c@, p);
                        assert(extends(items@, texts(old(anc)@), p));
                    }
                    return None;
                },
                Some(n) => {
                    children.push(n);
                },
            }
            proof {
                let now = child_numbers_upto(items@, m@, i + 1);
                assert(now == before.push(c@));
                assert forall|x: Seq<char>, p: Seq<Seq<char>>|
                    now.contains(x) && #[trigger] extends(items@, a0.push(x), p) implies p.no_duplicates() by {
                    let q = choose|q: int| 0 <= q < now.len() && now[q] == x;
                    if q < before.len() {
                        assert(before[q] == x);
                    }
                }
            }
        }
        i = i + 1;
    }
    node.children = children;
    node.path = path;
    proof {
        let kids = child_numbers(items@, m@);
        assert(kids == child_numbers_upto(items@, m@, items@.len() as int));
        assert forall|p: Seq<Seq<char>>| extends(items@, a0, p) implies p.no_duplicates() by {
            if p.len() == a0.len() {
                assert(p =~= p.subrange(0, a0.len() as int));
            } else {
                lemma_extends_step(items@, a0, p);
                let c = p[a0.len() as int];
                lemma_children(items@, m@, c);
                assert(kids.contains(c));
                assert(extends(items@, a0.push(c), p));
            }
        }
        assert(last_of(items@, m@, j as int) && carries(node, items@[j as int]));
    }
    Some(node)
}

pub(crate) proof fn lemma_extends_root(items: Seq<BomItem>, r: Seq<char>, p: Seq<Seq<char>>)
    ensures
        extends(items, seq![r], p) <==> (is_descent(items, p) && p[0] == r),
{
    if extends(items, seq![r], p) {
        assert(p.subrange(0, 1)[0] == p[0]);
    }
    if is_descent(items, p) && p[0] == r {
        assert(p.subrange(0, 1) =~= seq![r]);
    }
}

/// A chain of children that starts at a root and repeats a material number
/// runs around a cycle of the parent relation.
pub(crate) proof fn lemma_repeat_is_cycle(items: Seq<BomItem>, p: Seq<Seq<char>>)
    requires
        is_descent(items, p),
        !p.no_duplicates(),
    ensures
        has_reference_cycle(items),
{
    let (a0, b0) = choose|a: int, b: int| 0 <= a < p.len() && 0 <= b < p.len() && a != b && p[a] == p[b];
    let a = if a0 < b0 { a0 } else { b0 };
    let b = if a0 < b0 { b0 } else { a0 };
    let c = p.subrange(a, b);
    assert forall|i: int| 0 <= i < c.len() implies parent_edge(items, #[trigger] c[i], next_in(c, i)) by {
        assert(linked_at(items, p, a + i));
        if i + 1 < c.len() {
            assert(next_in(c, i) == p[a + i + 1]);
        } else {
            assert(next_in(c, i) == c[0]);
            assert(c[0] == p[b]);
        }
    }
    assert(is_reference_cycle(items, c));
}

/// With no cycle in the parent relation, every chain of children ends: the
/// forest of the items can be built.
pub proof fn lemma_acyclic_is_finite(items: Seq<BomItem>)
    requires
        !has_reference_cycle(items),
    ensures
        finite_descent(items),
{
    assert forall|p: Seq<Seq<char>>|
        is_descent(items, p) && root_numbers(items).contains(#[trigger] p[0]) implies p.no_duplicates() by {
        if !p.no_duplicates() {
            lemma_repeat_is_cycle(items, p);
        }
    }
}

/// The material numbers the forest grows from (see `root_numbers`).
fn roots_of(items: &Vec<BomItem>) -> (r: Vec<String>)
    ensures
        texts(r@) == root_numbers(items@),
{
    let n = items.len();
    let mut roots: Vec<String> = Vec::new();
    let mut i: usize = 0;
    while i < n
        invariant
            n == items@.len(),
            i <= n,
            texts(roots@) == top_numbers_upto(items@, i as int),
        decreases n - i,
    {
        let top = match &items[i].parent_material_no {
            Some(p) => p.as_str().is_empty(),
            None => true,
        };
        if top {
            roots.push(items[i].material_no.clone());
        }
        proof {
            assert(texts(roots@) =~= top_numbers_upto(items@, i + 1));
        }
        i = i + 1;
    }
    let ghost tops = texts(roots@);
    let mut i: usize = 0;
    while i < n
        invariant
            n == items@.len(),
            i <= n,
            tops == top_numbers_upto(items@, n as int),
            texts(roots@) == tops + orphan_numbers_upto(items@, i as int),
        decreases n - i,
    {
        let orphan = match &items[i].parent_material_no {
            Some(p) => !p.as_str().is_empty() && !has_material_no(items, p),
            None => false,
        };
        let ghost prev = roots@;
        if orphan {
            roots.push(items[i].material_no.clone());
        }
        proof {
            let o = orphan_numbers_upto(items@, i as int);
            let o1 = orphan_numbers_upto(items@, i + 1);
            if orphan {
                assert(o1 == o.push(items@[i as int].material_no@));
                assert(texts(roots@) =~= texts(prev).push(items@[i as int].material_no@));
                assert(tops + o1 =~= (tops + o).push(items@[i as int].material_no@));
            } else {
                assert(o1 == o);
                assert(texts(roots@) =~= texts(prev));
            }
        }
        i = i + 1;
    }
    roots
}

/// Builds the BOM forest, or gives `None` when some chain of children
/// followed down from a root repeats a material number, so that the forest
/// would never end.
///
/// The forest grows from the root numbers (see `root_numbers`); the node of
/// a material number carries the last item with that number, and its
/// children are grown, in item order, from the items that name it as their
/// parent.
pub fn try_build_tree(items: &Vec<BomItem>) -> (r: Option<Vec<BomTreeNode>>)
    ensures
        r is Some <==> finite_descent(items@),
        r matches Some(t) ==> forest_matches(items@, t@),
{
    let roots = roots_of(items);
    let ghost rs = root_numbers(items@);
    let mut forest: Vec<BomTreeNode> = Vec::new();
    let mut k: usize = 0;
    while k < roots.len()
        invariant
            texts(roots@) == rs,
            rs == root_numbers(items@),
            k <= roots@.len(),
            forest@.len() == k,
            forall|q: int| 0 <= q < k ==> node_matches(items@, #[trigger] forest@[q], rs[q], 0, rs[q]),
            forall|q: int, p: Seq<Seq<char>>|
                0 <= q < k && #[trigger] extends(items@, seq![rs[q]], p) ==> p.no_duplicates(),
        decreases roots@.len() - k,
    {
        let mut anc: Vec<String> = Vec::new();
        anc.push(roots[k].clone());
        proof {
            assert(rs.contains(rs[k as int]));
            lemma_roots_have_material(items@, rs[k as int]);
            assert(texts(anc@) =~= seq![rs[k as int]]);
        }
        let grown = grow(items, &roots[k], 0, roots[k].clone(), &mut anc);
        match grown {
            None => {
                proof {
                    let p = choose|p: Seq<Seq<char>>|
                        extends(items@, seq![rs[k as int]], p) && !p.no_duplicates();
                    lemma_extends_root(items@, rs[k as int], p);
                    assert(rs.contains(p[0]));
                }
                return None;
            },
            Some(node) => {
                forest.push(node);
            },
        }
        k = k + 1;
    }
    proof {
        assert forall|p: Seq<Seq<char>>|
            is_descent(items@, p) && root_numbers(items@).contains(#[trigger] p[0]) implies p.no_duplicates() by {
            let q = choose|q: int| 0 <= q < rs.len() && rs[q] == p[0];
            lemma_extends_root(items@, rs[q], p);
        }
    }
    Some(forest)
}

/// Builds the BOM forest of items whose chains of children all end (see
/// `try_build_tree`).
pub fn build_tree(items: &Vec<BomItem>) -> (r: Vec<BomTreeNode>)
    requires
        finite_descent(items@),
    ensures
        forest_matches(items@, r@),
{
    match try_build_tree(items) {
        Some(t) => t,
        None => Vec::new(),
    }
}

/// The two nodes hold the same data, level and path, and their children
/// are pairwise the same.
pub open spec fn same_node(a: BomTreeNode, b: BomTreeNode) -> bool
    decreases a,
{
    &&& a.material_no == b.material_no
    &&& a.material_name == b.material_name
    &&& a.specification == b.specification
    &&& a.bom_type == b.bom_type
    &&& a.quantity == b.quantity
    &&& a.unit == b.unit
    &&& a.loss_rate == b.loss_rate
    &&& a.supplier == b.supplier
    &&& a.unit_price == b.unit_price
    &&& a.source == b.source
    &&& a.effective_date == b.effective_date
    &&& a.expiry_date == b.expiry_date
    &&& a.remark == b.remark
    &&& a.level == b.level
    &&& a.path == b.path
    &&& a.children@.len() == b.children@.len()
    &&& forall|k: int|
        0 <= k < a.children@.len() ==> same_node(#[trigger] a.children[k], b.children[k])
}

/// The nodes of a forest in pre-order: each node, then its descendants.
pub open spec fn pre_nodes(ns: Seq<BomTreeNode>) -> Seq<BomTreeNode>
    decreases ns,
{
    if ns.len() == 0 {
        seq![]
    } else {
        let last = ns[ns.len() - 1];
        pre_nodes(ns.subrange(0, ns.len() - 1)) + seq![last] + pre_nodes(last.children@)
    }
}

pub(crate) proof fn lemma_pre_nodes_step(ns: Seq<BomTreeNode>, k: int)
    requires
        0 <= k < ns.len(),
    ensures
        pre_nodes(ns.take(k + 1)) == pre_nodes(ns.take(k)) + seq![ns[k]] + pre_nodes(ns[k].children@),
{
    let t = ns.take(k + 1);
    assert(t.subrange(0, t.len() - 1) =~= ns.take(k));
    assert(t[t.len() - 1] == ns[k]);
}

impl BomTreeNode {
    /// A deep copy of this node.
    pub fn duplicate(&self) -> (r: BomTreeNode)
        ensures
            same_node(r, *self),
        decreases self,
    {
        let mut children: Vec<BomTreeNode> = Vec::new();
        let mut k: usize = 0;
        while k < self.children.len()
            invariant
                k <= self.children@.len(),
                children@.len() == k,
                forall|q: int| 0 <= q < k ==> same_node(#[trigger] children@[q], self.children@[q]),
            decreases self.children@.len() - k,
        {
            let c = self.children[k].duplicate();
            children.push(c);
            k = k + 1;
        }
        BomTreeNode {
            material_no: self.material_no.clone(),
            material_name: self.material_name.clone(),
            specification: self.specification.clone(),
            bom_type: self.bom_type,
            quantity: self.quantity.duplicate(),
            unit: self.unit.clone(),
            loss_rate: self.loss_rate.duplicate(),
            supplier: self.supplier.clone(),
            unit_price: self.unit_price.duplicate(),
            source: self.source,
            effective_date: self.effective_date.clone(),
            expiry_date: self.expiry_date.clone(),
            remark: self.remark.clone(),
            children,
            level: self.level,
            path: self.path.clone(),
        }
    }
}

impl Clone for BomTreeNode {
    fn clone(&self) -> (r: BomTreeNode)
        ensures
            same_node(r, *self),
    {
        self.duplicate()
    }
}

fn count_in(ns: &[BomTreeNode]) -> (r: usize)
    requires
        pre_nodes(ns@).len() <= usize::MAX,
    ensures
        r == pre_nodes(ns@).len(),
    decreases ns@,
{
    let mut total: usize = 0;
    let mut k: usize = 0;
    while k < ns.len()
        invariant
            k <= ns@.len(),
            pre_nodes(ns@).len() <= usize::MAX,
            total == pre_nodes(ns@.take(k as int)).len(),
        decreases ns@.len() - k,
    {
        let n = &ns[k];
        proof {
            lemma_pre_nodes_step(ns@, k as int);
            lemma_pre_nodes_prefix(ns@, k + 1);
        }
        let below = count_in(n.children.as_slice());
        total = total + 1 + below;
        k = k + 1;
    }
    proof {
        assert(ns@.take(k as int) =~= ns@);
    }
    total
}

proof fn lemma_pre_nodes_prefix(ns: Seq<BomTreeNode>, k: int)
    requires
        0 <= k <= ns.len(),
    ensures
        pre_nodes(ns.take(k)).len() <= pre_nodes(ns).len(),
    decreases ns.len() - k,
{
    if k < ns.len() {
        lemma_pre_nodes_step(ns, k);
        lemma_pre_nodes_prefix(ns, k + 1);
    } else {
        assert(ns.take(k) =~= ns);
    }
}

/// The number of nodes in the forest.
pub fn count_nodes(tree: &[BomTreeNode]) -> (r: usize)
    requires
        pre_nodes(tree@).len() <= usize::MAX,
    ensures
        r == pre_nodes(tree@).len(),
{
    count_in(tree)
}

/// The item that a node flattens to, under the given parent.
pub open spec fn item_of(n: BomTreeNode, parent: Option<String>) -> BomItem {
    BomItem {
        material_no: n.material_no,
        material_name: n.material_name,
        specification: n.specification,
        bom_type: n.bom_type,
        quantity: n.quantity,
        unit: n.unit,
        loss_rate: n.loss_rate,
        supplier: n.supplier,
        unit_price: n.unit_price,
        source: n.source,
        effective_date: n.effective_date,
        expiry_date: n.expiry_date,
        remark: n.remark,
        parent_material_no: parent,
    }
}

/// The items of a forest in pre-order, each naming the material number of
/// the node above it as parent (the given `parent` for the top nodes).
pub open spec fn flat_items(ns: Seq<BomTreeNode>, parent: Option<String>) -> Seq<BomItem>
    decreases ns,
{
    if ns.len() == 0 {
        seq![]
    } else {
        let last = ns[ns.len() - 1];
        flat_items(ns.subrange(0, ns.len() - 1), parent) + seq![item_of(last, parent)] + flat_items(
            last.children@,
            Some(last.material_no),
        )
    }
}

pub(crate) proof fn lemma_flat_step(ns: Seq<BomTreeNode>, parent: Option<String>, k: int)
    requires
        0 <= k < ns.len(),
    ensures
        flat_items(ns.take(k + 1), parent) == flat_items(ns.take(k), parent) + seq![
            item_of(ns[k], parent),
        ] + flat_items(ns[k].children@, Some(ns[k].material_no)),
{
    let t = ns.take(k + 1);
    assert(t.subrange(0, t.len() - 1) =~= ns.take(k));
    assert(t[t.len() - 1] == ns[k]);
}

fn flatten_into(ns: &[BomTreeNode], parent: &Option<String>, out: &mut Vec<BomItem>)
    ensures
        final(out)@ == old(out)@ + flat_items(ns@, *parent),
    decreases ns@,
{
    let ghost start = out@;
    let mut k: usize = 0;
    while k < ns.len()
        invariant
            k <= ns@.len(),
            out@ == start + flat_items(ns@.take(k as int), *parent),
        decreases ns@.len() - k,
    {
        let n = &ns[k];
        proof {
            lemma_flat_step(ns@, *parent, k as int);
        }
        let item = BomItem {
            material_no: n.material_no.clone(),
            material_name: n.material_name.clone(),
            specification: n.specification.clone(),
            bom_type: n.bom_type,
            quantity: n.quantity.duplicate(),
            unit: n.unit.clone(),
            loss_rate: n.loss_rate.duplicate(),
            supplier: n.supplier.clone(),
            unit_price: n.unit_price.duplicate(),
            source: n.source,
            effective_date: n.effective_date.clone(),
            expiry_date: n.expiry_date.clone(),
            remark: n.remark.clone(),
            parent_material_no: copy_opt_string(parent),
        };
        out.push(item);
        let above = Some(n.material_no.clone());
        flatten_into(n.children.as_slice(), &above, out);
        proof {
            assert(out@ =~= start + flat_items(ns@.take(k + 1), *parent));
        }
        k = k + 1;
    }
    proof {
        assert(ns@.take(k as int) =~= ns@);
    }
}

/// The items of the forest in pre-order; the roots have no parent, every
/// other node names the material number of the node above it.
pub fn flatten(tree: &[BomTreeNode]) -> (r: Vec<BomItem>)
    ensures
        r@ == flat_items(tree@, None),
{
    let mut out: Vec<BomItem> = Vec::new();
    flatten_into(tree, &None, &mut out);
    proof {
        assert(out@ =~= flat_items(tree@, None));
    }
    out
}

pub(crate) proof fn lemma_pre_nodes_concat(a: Seq<BomTreeNode>, b: Seq<BomTreeNode>)
    ensures
        pre_nodes(a + b) == pre_nodes(a) + pre_nodes(b),
    decreases b.len(),
{
    if b.len() == 0 {
        assert(a + b =~= a);
        assert(pre_nodes(a) + pre_nodes(b) =~= pre_nodes(a));
    } else {
        let ab = a + b;
        let b1 = b.subrange(0, b.len() - 1);
        assert(ab.subrange(0, ab.len() - 1) =~= a + b1);
        assert(ab[ab.len() - 1] == b[b.len() - 1]);
        lemma_pre_nodes_concat(a, b1);
        let l = b[b.len() - 1];
        assert(pre_nodes(a + b) =~= pre_nodes(a) + (pre_nodes(b1) + seq![l] + pre_nodes(l.children@)));
    }
}

/// The pre-order nodes of the children of `ns[k]` lie inside those of `ns`,
/// just after `ns[k]`.
proof fn lemma_pre_nodes_inside(ns: Seq<BomTreeNode>, k: int)
    requires
        0 <= k < ns.len(),
    ensures
        ({
            let off = pre_nodes(ns.take(k)).len() + 1;
            let kids = pre_nodes(ns[k].children@);
            &&& off + kids.len() <= pre_nodes(ns).len()
            &&& forall|i: int| 0 <= i < kids.len() ==> pre_nodes(ns)[off + i] == #[trigger] kids[i]
            &&& pre_nodes(ns)[off - 1] == ns[k]
        }),
{
    lemma_pre_nodes_step(ns, k);
    assert(ns =~= ns.take(k + 1) + ns.skip(k + 1));
    lemma_pre_nodes_concat(ns.take(k + 1), ns.skip(k + 1));
}

/// The depth of the deepest of the nodes (levels counted from one), or
/// zero when there are none.
pub open spec fn deepest(s: Seq<BomTreeNode>) -> int
    decreases s.len(),
{
    if s.len() == 0 {
        0
    } else {
        let d = deepest(s.drop_last());
        let l = s.last().level + 1;
        if l > d {
            l
        } else {
            d
        }
    }
}

proof fn lemma_deepest_nonneg(s: Seq<BomTreeNode>)
    ensures
        deepest(s) >= 0,
    decreases s.len(),
{
    if s.len() > 0 {
        lemma_deepest_nonneg(s.drop_last());
    }
}

proof fn lemma_deepest_concat(a: Seq<BomTreeNode>, b: Seq<BomTreeNode>)
    ensures
        deepest(a + b) == if deepest(a) > deepest(b) {
            deepest(a)
        } else {
            deepest(b)
        },
        deepest(a) >= 0,
    decreases b.len(),
{
    lemma_deepest_nonneg(a);
    if b.len() == 0 {
        assert(a + b =~= a);
    } else {
        assert((a + b).drop_last() =~= a + b.drop_last());
        lemma_deepest_concat(a, b.drop_last());
    }
}

fn deepest_in(ns: &[BomTreeNode], cur: usize) -> (r: usize)
    requires
        forall|i: int| 0 <= i < pre_nodes(ns@).len() ==> (#[trigger] pre_nodes(ns@)[i]).level < usize::MAX,
    ensures
        r == if cur > deepest(pre_nodes(ns@)) {
            cur as int
        } else {
            deepest(pre_nodes(ns@))
        },
    decreases ns@,
{
    let mut best: usize = cur;
    let mut k: usize = 0;
    while k < ns.len()
        invariant
            k <= ns@.len(),
            forall|i: int| 0 <= i < pre_nodes(ns@).len() ==> (#[trigger] pre_nodes(ns@)[i]).level < usize::MAX,
            best == if cur > deepest(pre_nodes(ns@.take(k as int))) {
                cur as int
            } else {
                deepest(pre_nodes(ns@.take(k as int)))
            },
        decreases ns@.len() - k,
    {
        let n = &ns[k];
        proof {
            lemma_pre_nodes_step(ns@, k as int);
            lemma_pre_nodes_inside(ns@, k as int);
            let p = pre_nodes(ns@.take(k as int));
            lemma_deepest_concat(p, seq![ns@[k as int]]);
            lemma_deepest_concat(p + seq![ns@[k as int]], pre_nodes(n.children@));
            assert(p + seq![ns@[k as int]] =~= (p + seq![ns@[k as int]]).drop_last().push(ns@[k as int]));
            assert((p + seq![ns@[k as int]]).drop_last() =~= p);
            let off = p.len() + 1;
            assert(pre_nodes(ns@)[off - 1] == ns@[k as int]);
        }
        if n.level + 1 > best {
            best = n.level + 1;
        }
        best = deepest_in(n.children.as_slice(), best);
        k = k + 1;
    }
    proof {
        assert(ns@.take(k as int) =~= ns@);
    }
    best
}

/// The depth of the forest: one more than the deepest level, zero when empty.
pub fn max_depth(tree: &[BomTreeNode]) -> (r: usize)
    requires
        forall|i: int| 0 <= i < pre_nodes(tree@).len() ==> (#[trigger] pre_nodes(tree@)[i]).level < usize::MAX,
    ensures
        r == deepest(pre_nodes(tree@)),
{
    proof {
        lemma_deepest_concat(pre_nodes(tree@), seq![]);
    }
    deepest_in(tree, 0)
}

/// The last of the nodes with material number `m`, if any.
pub open spec fn last_named(s: Seq<BomTreeNode>, m: Seq<char>) -> Option<BomTreeNode>
    decreases s.len(),
{
    if s.len() == 0 {
        None
    } else if s.last().material_no@ == m {
        Some(s.last())
    } else {
        last_named(s.drop_last(), m)
    }
}

proof fn lemma_last_named_concat(a: Seq<BomTreeNode>, b: Seq<BomTreeNode>, m: Seq<char>)
    ensures
        last_named(a + b, m) == match last_named(b, m) {
            Some(x) => Some(x),
            None => last_named(a, m),
        },
    decreases b.len(),
{
    if b.len() == 0 {
        assert(a + b =~= a);
    } else {
        assert((a + b).drop_last() =~= a + b.drop_last());
        lemma_last_named_concat(a, b.drop_last(), m);
    }
}

proof fn lemma_single_named(x: BomTreeNode, m: Seq<char>)
    ensures
        last_named(seq![x], m) == if x.material_no@ == m {
            Some(x)
        } else {
            None
        },
{
    let s = seq![x];
    assert(s.len() == 1);
    assert(s.drop_last() =~= Seq::<BomTreeNode>::empty());
    assert(s.last() == x);
    assert(last_named(s.drop_last(), m) is None);
    assert(last_named(s, m) == if s.last().material_no@ == m { Some(s.last()) } else { last_named(s.drop_last(), m) });
}

fn find_in<'a>(ns: &'a [BomTreeNode], m: &str, cur: Option<&'a BomTreeNode>) -> (r: Option<
    &'a BomTreeNode,
>)
    ensures
        match last_named(pre_nodes(ns@), m@) {
            Some(x) => r matches Some(y) && *y == x,
            None => r == cur,
        },
    decreases ns@,
{
    let mut found = cur;
    let mut k: usize = 0;
    while k < ns.len()
        invariant
            k <= ns@.len(),
            match last_named(pre_nodes(ns@.take(k as int)), m@) {
                Some(x) => found matches Some(y) && *y == x,
                None => found == cur,
            },
        decreases ns@.len() - k,
    {
        let n = &ns[k];
        proof {
            lemma_pre_nodes_step(ns@, k as int);
            let p = pre_nodes(ns@.take(k as int));
            lemma_last_named_concat(p, seq![ns@[k as int]], m@);
            lemma_last_named_concat(p + seq![ns@[k as int]], pre_nodes(n.children@), m@);
            lemma_single_named(ns@[k as int], m@);
        }
        if str_equal(n.material_no.as_str(), m) {
            found = Some(n);
        }
        found = find_in(n.children.as_slice(), m, found);
        k = k + 1;
    }
    proof {
        assert(ns@.take(k as int) =~= ns@);
    }
    found
}

/// A copy of the last node, in pre-order, whose material number is
/// `material_no`.
pub fn find_node(tree: &[BomTreeNode], material_no: &str) -> (r: Option<BomTreeNode>)
    ensures
        match last_named(pre_nodes(tree@), material_no@) {
            Some(x) => r matches Some(y) && same_node(y, x),
            None => r is None,
        },
{
    match find_in(tree, material_no, None) {
        Some(n) => Some(n.duplicate()),
        None => None,
    }
}

/// The node is a raw material leaf: it has no children and is not virtual.
pub open spec fn is_raw_leaf(n: BomTreeNode) -> bool {
    n.children@.len() == 0 && n.bom_type != BomType::Virtual
}

/// The raw material leaves among the nodes, in order.
pub open spec fn raw_leaves(s: Seq<BomTreeNode>) -> Seq<BomTreeNode>
    decreases s.len(),
{
    if s.len() == 0 {
        seq![]
    } else if is_raw_leaf(s.last()) {
        raw_leaves(s.drop_last()).push(s.last())
    } else {
        raw_leaves(s.drop_last())
    }
}

proof fn lemma_raw_leaves_concat(a: Seq<BomTreeNode>, b: Seq<BomTreeNode>)
    ensures
        raw_leaves(a + b) == raw_leaves(a) + raw_leaves(b),
    decreases b.len(),
{
    if b.len() == 0 {
        assert(a + b =~= a);
        assert(raw_leaves(a) + raw_leaves(b) =~= raw_leaves(a));
    } else {
        assert((a + b).drop_last() =~= a + b.drop_last());
        lemma_raw_leaves_concat(a, b.drop_last());
        assert((a + b).last() == b.last());
        if is_raw_leaf(b.last()) {
            assert(raw_leaves(a) + raw_leaves(b.drop_last()).push(b.last()) =~= (raw_leaves(a)
                + raw_leaves(b.drop_last())).push(b.last()));
        }
    }
}

proof fn lemma_single_leaf(x: BomTreeNode)
    ensures
        raw_leaves(seq![x]) == if is_raw_leaf(x) {
            seq![x]
        } else {
            seq![]
        },
{
    let s = seq![x];
    assert(s.len() == 1);
    assert(s.drop_last() =~= Seq::<BomTreeNode>::empty());
    assert(s.last() == x);
    assert(raw_leaves(s.drop_last()) =~= Seq::<BomTreeNode>::empty());
    if is_raw_leaf(x) {
        assert(raw_leaves(s) == raw_leaves(s.drop_last()).push(s.last()));
        assert(Seq::<BomTreeNode>::empty().push(x) =~= seq![x]);
    } else {
        assert(raw_leaves(s) == raw_leaves(s.drop_last()));
    }
}

fn collect_in(ns: &[BomTreeNode], out: &mut Vec<BomTreeNode>)
    ensures
        final(out)@.len() == old(out)@.len() + raw_leaves(pre_nodes(ns@)).len(),
        forall|i: int| 0 <= i < old(out)@.len() ==> final(out)@[i] == #[trigger] old(out)@[i],
        forall|j: int|
            0 <= j < raw_leaves(pre_nodes(ns@)).len() ==> same_node(
                #[trigger] final(out)@[old(out)@.len() + j],
                raw_leaves(pre_nodes(ns@))[j],
            ),
    decreases ns@,
{
    let ghost start = out@;
    let mut k: usize = 0;
    while k < ns.len()
        invariant
            k <= ns@.len(),
            out@.len() == start.len() + raw_leaves(pre_nodes(ns@.take(k as int))).len(),
            forall|i: int| 0 <= i < start.len() ==> out@[i] == #[trigger] start[i],
            forall|j: int|
                0 <= j < raw_leaves(pre_nodes(ns@.take(k as int))).len() ==> same_node(
                    #[trigger] out@[start.len() + j],
                    raw_leaves(pre_nodes(ns@.take(k as int)))[j],
                ),
        decreases ns@.len() - k,
    {
        let n = &ns[k];
        let ghost before = out@;
        let ghost p = pre_nodes(ns@.take(k as int));
        proof {
            lemma_pre_nodes_step(ns@, k as int);
            lemma_raw_leaves_concat(p, seq![ns@[k as int]]);
            lemma_raw_leaves_concat(p + seq![ns@[k as int]], pre_nodes(n.children@));
            lemma_single_leaf(ns@[k as int]);
        }
        if n.children.len() == 0 && !n.is_virtual() {
            out.push(n.duplicate());
        }
        let ghost mid = out@;
        proof {
            let rp = raw_leaves(p);
            let rn = raw_leaves(p + seq![ns@[k as int]]);
            assert(rn == rp + raw_leaves(seq![ns@[k as int]]));
            assert forall|j: int| 0 <= j < rn.len() implies same_node(
                #[trigger] mid[start.len() + j],
                rn[j],
            ) by {
                if j < rp.len() {
                    assert(mid[start.len() + j] == before[start.len() + j]);
                }
            }
        }
        collect_in(n.children.as_slice(), out);
        proof {
            let rn = raw_leaves(p + seq![ns@[k as int]]);
            let rc = raw_leaves(pre_nodes(n.children@));
            let all = raw_leaves(pre_nodes(ns@.take(k + 1)));
            assert(all == rn + rc);
            assert forall|j: int| 0 <= j < all.len() implies same_node(
                #[trigger] out@[start.len() + j],
                all[j],
            ) by {
                if j < rn.len() {
                    assert(out@[start.len() + j] == mid[start.len() + j]);
                } else {
                    assert(out@[mid.len() + (j - rn.len())] == out@[start.len() + j]);
                }
            }
            assert forall|i: int| 0 <= i < start.len() implies out@[i] == #[trigger] start[i] by {
                assert(out@[i] == mid[i]);
            }
        }
        k = k + 1;
    }
    proof {
        assert(ns@.take(k as int) =~= ns@);
    }
}

/// Copies of the raw material leaves of the forest (nodes without children
/// that are not virtual), in pre-order.
pub fn collect_raw_materials(tree: &[BomTreeNode]) -> (r: Vec<BomTreeNode>)
    ensures
        r@.len() == raw_leaves(pre_nodes(tree@)).len(),
        forall|j: int| 0 <= j < r@.len() ==> same_node(#[trigger] r@[j], raw_leaves(pre_nodes(tree@))[j]),
{
    let mut out: Vec<BomTreeNode> = Vec::new();
    collect_in(tree, &mut out);
    proof {
        assert forall|j: int| 0 <= j < out@.len() implies same_node(
            #[trigger] out@[j],
            raw_leaves(pre_nodes(tree@))[j],
        ) by {
            assert(out@[0 + j] == out@[j]);
        }
    }
    out
}

/// Flattening gives one item per node, in pre-order: the `k`-th item
/// carries the data of the `k`-th node.
pub proof fn lemma_flatten_follows_pre_order(ns: Seq<BomTreeNode>, parent: Option<String>)
    ensures
        flat_items(ns, parent).len() == pre_nodes(ns).len(),
        forall|k: int|
            0 <= k < flat_items(ns, parent).len() ==> #[trigger] flat_items(ns, parent)[k] == item_of(
                pre_nodes(ns)[k],
                flat_items(ns, parent)[k].parent_material_no,
            ),
    decreases ns,
{
    if ns.len() > 0 {
        let last = ns[ns.len() - 1];
        let init = ns.subrange(0, ns.len() - 1);
        lemma_flatten_follows_pre_order(init, parent);
        lemma_flatten_follows_pre_order(last.children@, Some(last.material_no));
        let fa = flat_items(init, parent);
        let fb = flat_items(last.children@, Some(last.material_no));
        let pa = pre_nodes(init);
        let pb = pre_nodes(last.children@);
        let f = flat_items(ns, parent);
        let pn = pre_nodes(ns);
        assert forall|k: int| 0 <= k < f.len() implies #[trigger] f[k] == item_of(pn[k], f[k].parent_material_no) by {
            if k < fa.len() {
                assert(f[k] == fa[k]);
                assert(pn[k] == pa[k]);
            } else if k == fa.len() {
                assert(pn[k] == last);
            } else {
                assert(f[k] == fb[k - fa.len() - 1]);
                assert(pn[k] == pb[k - pa.len() - 1]);
            }
        }
    }
}

/// What a traversal does at each node: `enter` before the node's children
/// (which are visited only when it answers `true`), `leave` after them.
/// `enter_step` and `leave_step` say which changes of the visitor each
/// method may make; an implementor that says nothing of them leaves every
/// change possible.
pub trait TreeVisitor: Sized {
    /// `enter` at `node` may take the visitor from `self` to `after` and
    /// answer `go`.
    open spec fn enter_step(&self, node: BomTreeNode, after: Self, go: bool) -> bool {
        true
    }

    /// `leave` at `node` may take the visitor from `self` to `after`.
    open spec fn leave_step(&self, node: BomTreeNode, after: Self) -> bool {
        true
    }

    fn enter(&mut self, node: &BomTreeNode) -> (r: bool)
        ensures
            old(self).enter_step(*node, *final(self), r),
    ;

    fn leave(&mut self, node: &BomTreeNode)
        ensures
            old(self).leave_step(*node, *final(self)),
    ;
}

/// A depth-first walk of the nodes, one after another, may take the
/// visitor from `v` to `w`: at each node `enter`, then the children when
/// it answered `true`, then `leave`.
pub open spec fn walks<V: TreeVisitor>(v: V, ns: Seq<BomTreeNode>, w: V) -> bool
    decreases ns,
{
    if ns.len() == 0 {
        w == v
    } else {
        let last = ns[ns.len() - 1];
        exists|b: V, a: V, go: bool, i: V|
            #![trigger b.enter_step(last, a, go), i.leave_step(last, w)]
            walks(v, ns.subrange(0, ns.len() - 1), b) && b.enter_step(last, a, go) && (if go {
                walks(a, last.children@, i)
            } else {
                i == a
            }) && i.leave_step(last, w)
    }
}

/// Walking the first `k` nodes and then node `k` is walking the first
/// `k + 1`.
proof fn lemma_walk_step<V: TreeVisitor>(v: V, ns: Seq<BomTreeNode>, k: int, x: V, y: V)
    requires
        0 <= k < ns.len(),
        walks(v, ns.take(k), x),
        walks(x, seq![ns[k]], y),
    ensures
        walks(v, ns.take(k + 1), y),
{
    let one = seq![ns[k]];
    assert(one.subrange(0, 0) =~= Seq::<BomTreeNode>::empty());
    assert(one[0] == ns[k]);
    let (b, a, go, i) = choose|b: V, a: V, go: bool, i: V|
        walks(x, one.subrange(0, 0), b) && b.enter_step(ns[k], a, go) && (if go {
            walks(a, ns[k].children@, i)
        } else {
            i == a
        }) && i.leave_step(ns[k], y);
    assert(b == x);
    let t = ns.take(k + 1);
    assert(t.subrange(0, t.len() - 1) =~= ns.take(k));
    assert(t[t.len() - 1] == ns[k]);
    assert(walks(v, t.subrange(0, t.len() - 1), b) && b.enter_step(t[t.len() - 1], a, go) && (if go {
        walks(a, t[t.len() - 1].children@, i)
    } else {
        i == a
    }) && i.leave_step(t[t.len() - 1], y));
}

/// Visits the forest depth first, root by root: the visitor ends in a
/// state that such a walk may reach.
pub fn traverse<V: TreeVisitor>(tree: &[BomTreeNode], visitor: &mut V)
    ensures
        walks(*old(visitor), tree@, *final(visitor)),
{
    let ghost v0 = *visitor;
    let mut k: usize = 0;
    proof {
        assert(tree@.take(0) =~= Seq::<BomTreeNode>::empty());
    }
    while k < tree.len()
        invariant
            k <= tree@.len(),
            walks(v0, tree@.take(k as int), *visitor),
        decreases tree@.len() - k,
    {
        let ghost x = *visitor;
        traverse_node(&tree[k], visitor);
        proof {
            lemma_walk_step(v0, tree@, k as int, x, *visitor);
        }
        k = k + 1;
    }
    proof {
        assert(tree@.take(k as int) =~= tree@);
    }
}

fn traverse_node<V: TreeVisitor>(node: &BomTreeNode, visitor: &mut V)
    ensures
        walks(*old(visitor), seq![*node], *final(visitor)),
    decreases node,
{
    let ghost v0 = *visitor;
    let continue_traverse = visitor.enter(node);
    let ghost a = *visitor;
    if continue_traverse {
        let mut k: usize = 0;
        proof {
            assert(node.children@.take(0) =~= Seq::<BomTreeNode>::empty());
        }
        while k < node.children.len()
            invariant
                k <= node.children@.len(),
                walks(a, node.children@.take(k as int), *visitor),
            decreases node.children@.len() - k,
        {
            let ghost x = *visitor;
            traverse_node(&node.children[k], visitor);
            proof {
                lemma_walk_step(a, node.children@, k as int, x, *visitor);
            }
            k = k + 1;
        }
        proof {
            assert(node.children@.take(k as int) =~= node.children@);
        }
    }
    let ghost i = *visitor;
    visitor.leave(node);
    proof {
        let one = seq![*node];
        assert(one.subrange(0, 0) =~= Seq::<BomTreeNode>::empty());
        assert(one[0] == *node);
        assert(walks(v0, one.subrange(0, 0), v0));
        assert(walks(v0, one.subrange(0, 0), v0) && v0.enter_step(*node, a, continue_traverse) && (if continue_traverse {
            walks(a, node.children@, i)
        } else {
            i == a
        }) && i.leave_step(*node, *visitor));
    }
}

proof fn lemma_no_level(s: Seq<IssueModel>, l: IssueLevel, i: int)
    requires
        count_level(s, l) == 0,
        0 <= i < s.len(),
    ensures
        s[i].level != l,
    decreases s.len(),
{
    if i < s.len() - 1 {
        lemma_no_level(s.drop_last(), l, i);
    }
}

/// A BOM whose check found no error (its findings end with those of the
/// circular-reference check) builds into a finite forest.
pub proof fn lemma_valid_bom_builds(items: Seq<BomItem>, r: ValidationResult, k: int)
    requires
        r.consistent(),
        r.valid,
        0 <= k <= r.issues@.len(),
        cycle_report(items, issue_views(r.issues@).subrange(k, r.issues@.len() as int)),
    ensures
        finite_descent(items),
{
    let all = issue_views(r.issues@);
    let cyc = all.subrange(k, r.issues@.len() as int);
    if cyc.len() > 0 {
        let c = choose|c: Seq<Seq<char>>| is_reference_cycle(items, c) && #[trigger] cyc[0] == cycle_issue(c);
        assert(all[k] == cyc[0]);
        lemma_no_level(all, IssueLevel::Error, k);
    }
    lemma_acyclic_is_finite(items);
}

} // verus!
