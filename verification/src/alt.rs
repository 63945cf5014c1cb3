//! Alternative materials: groups of substitutes for a base material, their
//! order of preference, and the choice among them as stock allows.
use vstd::prelude::*;
use crate::bom::BomType;
use crate::bom::parser::texts;
use crate::number::{Number, bits_le, bits_lt, is_nan_bits, order_key};
use crate::text::{concat3, concat4, concat2, str_equal};

verus! {

/// A material that can stand in for a base material.
#[derive(Debug)]
pub struct AltMaterial {
    pub material_no: String,
    pub material_name: String,
    pub specification: String,
    pub supplier: String,
    pub unit_price: Number,
    pub delivery_days: u32,
    pub priority: u32,
    pub is_active: bool,
    pub stock_quantity: Number,
    pub unit: String,
}

/// The alternatives of a base material.
#[derive(Debug)]
pub struct AltMaterialGroup {
    pub base_material_no: String,
    pub alternatives: Vec<AltMaterial>,
}

impl AltMaterial {
    /// A copy of this alternative.
    pub fn duplicate(&self) -> (r: AltMaterial)
        ensures
            r == *self,
    {
        AltMaterial {
            material_no: self.material_no.clone(),
            material_name: self.material_name.clone(),
            specification: self.specification.clone(),
            supplier: self.supplier.clone(),
            unit_price: self.unit_price.duplicate(),
            delivery_days: self.delivery_days,
            priority: self.priority,
            is_active: self.is_active,
            stock_quantity: self.stock_quantity.duplicate(),
            unit: self.unit.clone(),
        }
    }
}

impl Clone for AltMaterial {
    fn clone(&self) -> (r: AltMaterial)
        ensures
            r == *self,
    {
        self.duplicate()
    }
}

/// The two groups hold the same values.
pub open spec fn same_group(a: AltMaterialGroup, b: AltMaterialGroup) -> bool {
    a.base_material_no == b.base_material_no && a.alternatives@ == b.alternatives@
}

impl AltMaterialGroup {
    /// A copy of this group.
    pub fn duplicate(&self) -> (r: AltMaterialGroup)
        ensures
            same_group(r, *self),
    {
        let mut alts: Vec<AltMaterial> = Vec::new();
        let mut i: usize = 0;
        while i < self.alternatives.len()
            invariant
                i <= self.alternatives@.len(),
                alts@ == self.alternatives@.take(i as int),
            decreases self.alternatives@.len() - i,
        {
            alts.push(self.alternatives[i].duplicate());
            proof {
                assert(alts@ =~= self.alternatives@.take(i + 1));
            }
            i = i + 1;
        }
        proof {
            assert(self.alternatives@.take(i as int) =~= self.alternatives@);
        }
        AltMaterialGroup { base_material_no: self.base_material_no.clone(), alternatives: alts }
    }
}

impl Clone for AltMaterialGroup {
    fn clone(&self) -> (r: AltMaterialGroup)
        ensures
            same_group(r, *self),
    {
        self.duplicate()
    }
}

/// The active alternatives, in order.
pub open spec fn active_alts(s: Seq<AltMaterial>) -> Seq<AltMaterial>
    decreases s.len(),
{
    if s.len() == 0 {
        seq![]
    } else if s.last().is_active {
        active_alts(s.drop_last()).push(s.last())
    } else {
        active_alts(s.drop_last())
    }
}

/// The position of the first alternative whose priority number is above `p`
/// (the length when there is none).
pub open spec fn first_above(s: Seq<AltMaterial>, p: u32) -> int
    decreases s.len(),
{
    if s.len() == 0 {
        0
    } else if s[0].priority > p {
        0
    } else {
        1 + first_above(s.subrange(1, s.len() as int), p)
    }
}

/// `x` placed after every alternative of `s` up to the first whose priority
/// number is above its own.
pub open spec fn insert_by_priority(s: Seq<AltMaterial>, x: AltMaterial) -> Seq<AltMaterial> {
    s.insert(first_above(s, x.priority), x)
}

/// The alternatives ordered by priority number, those with equal numbers
/// keeping their order (a stable sort, built by insertion).
pub open spec fn by_priority(s: Seq<AltMaterial>) -> Seq<AltMaterial>
    decreases s.len(),
{
    if s.len() == 0 {
        seq![]
    } else {
        insert_by_priority(by_priority(s.drop_last()), s.last())
    }
}

/// The active alternatives of a group in order of preference.
pub open spec fn preference(g: AltMaterialGroup) -> Seq<AltMaterial> {
    by_priority(active_alts(g.alternatives@))
}

/// The alternatives the references point to.
pub open spec fn pointed(s: Seq<&AltMaterial>) -> Seq<AltMaterial> {
    s.map_values(|a: &AltMaterial| *a)
}

proof fn lemma_first_above(s: Seq<AltMaterial>, p: u32, k: int)
    requires
        0 <= k <= s.len(),
        forall|j: int| 0 <= j < k ==> (#[trigger] s[j]).priority <= p,
        k < s.len() ==> s[k].priority > p,
    ensures
        first_above(s, p) == k,
    decreases s.len(),
{
    if s.len() > 0 && k > 0 {
        let t = s.subrange(1, s.len() as int);
        assert forall|j: int| 0 <= j < k - 1 implies (#[trigger] t[j]).priority <= p by {
            assert(t[j] == s[j + 1]);
        }
        if k - 1 < t.len() {
            assert(t[k - 1] == s[k]);
        }
        assert(s[0].priority <= p);
        lemma_first_above(t, p, k - 1);
    }
}

/// Inserts `x` into `v` after every element up to the first whose priority
/// number is above that of `x`.
fn insert_sorted<'a>(v: &mut Vec<&'a AltMaterial>, x: &'a AltMaterial)
    ensures
        pointed(final(v)@) == insert_by_priority(pointed(old(v)@), *x),
{
    let ghost before = pointed(v@);
    let mut k: usize = 0;
    while k < v.len() && v[k].priority <= x.priority
        invariant
            k <= v@.len(),
            pointed(v@) == before,
            forall|j: int| 0 <= j < k ==> (#[trigger] before[j]).priority <= x.priority,
        decreases v@.len() - k,
    {
        k = k + 1;
    }
    proof {
        lemma_first_above(before, x.priority, k as int);
    }
    v.insert(k, x);
    proof {
        assert(pointed(v@) =~= before.insert(k as int, *x));
    }
}

impl AltMaterialGroup {
    /// The active alternatives, ordered by priority number (lowest first);
    /// alternatives with equal numbers keep their order.
    pub fn sorted_by_priority(&self) -> (r: Vec<&AltMaterial>)
        ensures
            pointed(r@) == preference(*self),
    {
        let mut r: Vec<&AltMaterial> = Vec::new();
        let mut i: usize = 0;
        while i < self.alternatives.len()
            invariant
                i <= self.alternatives@.len(),
                pointed(r@) == by_priority(active_alts(self.alternatives@.take(i as int))),
            decreases self.alternatives@.len() - i,
        {
            let a = &self.alternatives[i];
            let ghost t = self.alternatives@.take(i + 1);
            proof {
                assert(t.drop_last() =~= self.alternatives@.take(i as int));
                assert(t.last() == *a);
            }
            if a.is_active {
                proof {
                    assert(active_alts(t) == active_alts(t.drop_last()).push(*a));
                    let s = active_alts(t);
                    assert(s.drop_last() =~= active_alts(t.drop_last()));
                }
                insert_sorted(&mut r, a);
            }
            i = i + 1;
        }
        proof {
            assert(self.alternatives@.take(i as int) =~= self.alternatives@);
        }
        r
    }
}

/// The alternatives are in non-decreasing order of priority number.
pub open spec fn priority_sorted(s: Seq<AltMaterial>) -> bool {
    forall|i: int, j: int| 0 <= i < j < s.len() ==> (#[trigger] s[i]).priority <= (#[trigger] s[j]).priority
}

proof fn lemma_first_above_bounds(s: Seq<AltMaterial>, p: u32)
    ensures
        0 <= first_above(s, p) <= s.len(),
        forall|j: int| 0 <= j < first_above(s, p) ==> (#[trigger] s[j]).priority <= p,
        first_above(s, p) < s.len() ==> s[first_above(s, p)].priority > p,
    decreases s.len(),
{
    if s.len() > 0 && s[0].priority <= p {
        let t = s.subrange(1, s.len() as int);
        lemma_first_above_bounds(t, p);
        assert forall|j: int| 0 <= j < first_above(s, p) implies (#[trigger] s[j]).priority <= p by {
            if j > 0 {
                assert(s[j] == t[j - 1]);
            }
        }
        if first_above(s, p) < s.len() {
            assert(s[first_above(s, p)] == t[first_above(t, p)]);
        }
    }
}

proof fn lemma_insert_sorted(s: Seq<AltMaterial>, x: AltMaterial)
    requires
        priority_sorted(s),
    ensures
        priority_sorted(insert_by_priority(s, x)),
        insert_by_priority(s, x).to_multiset() == s.to_multiset().insert(x),
{
    let k = first_above(s, x.priority);
    lemma_first_above_bounds(s, x.priority);
    let r = s.insert(k, x);
    assert forall|i: int, j: int| 0 <= i < j < r.len() implies (#[trigger] r[i]).priority <= (#[trigger] r[j]).priority by {
        if j < k {
            assert(r[i] == s[i] && r[j] == s[j]);
        } else if j == k {
            assert(r[i] == s[i]);
        } else if i > k {
            assert(r[i] == s[i - 1] && r[j] == s[j - 1]);
        } else if i == k {
            assert(r[j] == s[j - 1]);
            assert(s[k].priority > x.priority);
            assert(s[k].priority <= s[j - 1].priority);
        } else {
            assert(r[i] == s[i] && r[j] == s[j - 1]);
        }
    }
    vstd::seq_lib::to_multiset_insert(s, k, x);
}

/// The order of preference of alternatives lists each of them once (the
/// same multiset) in non-decreasing order of priority number.
pub proof fn lemma_by_priority_sorts(s: Seq<AltMaterial>)
    ensures
        priority_sorted(by_priority(s)),
        by_priority(s).to_multiset() == s.to_multiset(),
    decreases s.len(),
{
    broadcast use vstd::multiset::group_multiset_axioms;

    if s.len() > 0 {
        let d = s.drop_last();
        let x = s.last();
        lemma_by_priority_sorts(d);
        lemma_insert_sorted(by_priority(d), x);
        vstd::seq_lib::to_multiset_build(d, x);
        assert(d.push(x) =~= s);
        assert(by_priority(s) == insert_by_priority(by_priority(d), x));
    } else {
        assert(by_priority(s) =~= s);
    }
}

/// The alternatives of `s` whose priority number is `p`, in their order.
pub open spec fn with_priority(s: Seq<AltMaterial>, p: u32) -> Seq<AltMaterial>
    decreases s.len(),
{
    if s.len() == 0 {
        seq![]
    } else if s.last().priority == p {
        with_priority(s.drop_last(), p).push(s.last())
    } else {
        with_priority(s.drop_last(), p)
    }
}

proof fn lemma_with_priority_concat(a: Seq<AltMaterial>, b: Seq<AltMaterial>, p: u32)
    ensures
        with_priority(a + b, p) == with_priority(a, p) + with_priority(b, p),
    decreases b.len(),
{
    if b.len() == 0 {
        assert(a + b =~= a);
        assert(with_priority(a, p) + with_priority(b, p) =~= with_priority(a, p));
    } else {
        lemma_with_priority_concat(a, b.drop_last(), p);
        assert((a + b).drop_last() =~= a + b.drop_last());
        assert((a + b).last() == b.last());
        if b.last().priority == p {
            assert(with_priority(a + b, p) =~= with_priority(a, p) + with_priority(b, p));
        }
    }
}

proof fn lemma_with_priority_none(b: Seq<AltMaterial>, p: u32)
    requires
        forall|i: int| 0 <= i < b.len() ==> (#[trigger] b[i]).priority != p,
    ensures
        with_priority(b, p) == Seq::<AltMaterial>::empty(),
    decreases b.len(),
{
    if b.len() > 0 {
        lemma_with_priority_none(b.drop_last(), p);
        assert(b[b.len() - 1].priority != p);
    }
}

proof fn lemma_with_priority_insert(s: Seq<AltMaterial>, x: AltMaterial, p: u32)
    requires
        priority_sorted(s),
    ensures
        with_priority(insert_by_priority(s, x), p) == if x.priority == p {
            with_priority(s, p).push(x)
        } else {
            with_priority(s, p)
        },
{
    let k = first_above(s, x.priority);
    lemma_first_above_bounds(s, x.priority);
    let front = s.subrange(0, k);
    let back = s.subrange(k, s.len() as int);
    assert(s =~= front + back);
    assert(insert_by_priority(s, x) =~= front + seq![x] + back);
    lemma_with_priority_concat(front, back, p);
    lemma_with_priority_concat(front + seq![x], back, p);
    lemma_with_priority_concat(front, seq![x], p);
    assert(seq![x].drop_last() =~= Seq::<AltMaterial>::empty());
    assert(seq![x].last() == x);
    assert(with_priority(Seq::<AltMaterial>::empty(), p) == Seq::<AltMaterial>::empty());
    if x.priority == p {
        assert(with_priority(seq![x], p) =~= seq![x]);
        assert forall|i: int| 0 <= i < back.len() implies (#[trigger] back[i]).priority != p by {
            assert(back[i] == s[k + i]);
            assert(s[k].priority > x.priority);
            if i > 0 {
                assert(s[k].priority <= s[k + i].priority);
            }
        }
        lemma_with_priority_none(back, p);
        assert(with_priority(s, p) =~= with_priority(front, p));
        assert(with_priority(insert_by_priority(s, x), p) =~= with_priority(front, p).push(x));
    } else {
        assert(with_priority(seq![x], p) =~= Seq::<AltMaterial>::empty());
        assert(with_priority(insert_by_priority(s, x), p) =~= with_priority(front, p) + with_priority(back, p));
    }
}

/// The order of preference is stable: for every priority number, the
/// alternatives with that number come in the order they were given.
pub proof fn lemma_by_priority_stable(s: Seq<AltMaterial>, p: u32)
    ensures
        with_priority(by_priority(s), p) == with_priority(s, p),
    decreases s.len(),
{
    if s.len() > 0 {
        let d = s.drop_last();
        lemma_by_priority_stable(d, p);
        lemma_by_priority_sorts(d);
        lemma_with_priority_insert(by_priority(d), s.last(), p);
    }
}

/// The active alternatives are those of the sequence marked active, each
/// as often as there.
pub proof fn lemma_active_alts(s: Seq<AltMaterial>, a: AltMaterial)
    ensures
        forall|i: int| 0 <= i < active_alts(s).len() ==> (#[trigger] active_alts(s)[i]).is_active,
        active_alts(s).to_multiset().count(a) == if a.is_active {
            s.to_multiset().count(a)
        } else {
            0
        },
    decreases s.len(),
{
    broadcast use vstd::multiset::group_multiset_axioms;

    if s.len() > 0 {
        let d = s.drop_last();
        let x = s.last();
        lemma_active_alts(d, a);
        vstd::seq_lib::to_multiset_build(d, x);
        assert(d.push(x) =~= s);
        if x.is_active {
            vstd::seq_lib::to_multiset_build(active_alts(d), x);
            let t = active_alts(s);
            assert forall|i: int| 0 <= i < t.len() implies (#[trigger] t[i]).is_active by {
                if i < t.len() - 1 {
                    assert(t[i] == active_alts(d)[i]);
                }
            }
        }
    } else {
        assert(active_alts(s) =~= s);
        vstd::seq_lib::to_multiset_contains(s, a);
    }
}

/// `i` is the first alternative of supplier `supplier` that is active.
pub open spec fn first_active_of(s: Seq<AltMaterial>, supplier: Seq<char>, i: int) -> bool {
    &&& 0 <= i < s.len()
    &&& s[i].supplier@ == supplier && s[i].is_active
    &&& forall|j: int| 0 <= j < i ==> !((#[trigger] s[j]).supplier@ == supplier && s[j].is_active)
}

/// `i` is the first alternative of supplier `supplier`, active or not.
pub open spec fn first_of(s: Seq<AltMaterial>, supplier: Seq<char>, i: int) -> bool {
    &&& 0 <= i < s.len()
    &&& s[i].supplier@ == supplier
    &&& forall|j: int| 0 <= j < i ==> (#[trigger] s[j]).supplier@ != supplier
}

impl AltMaterialGroup {
    /// The first active alternative of supplier `supplier`, if any.
    pub fn find_by_supplier(&self, supplier: &str) -> (r: Option<&AltMaterial>)
        ensures
            match r {
                Some(a) => exists|i: int| first_active_of(self.alternatives@, supplier@, i) && *a == self.alternatives@[i],
                None => forall|i: int| 0 <= i < self.alternatives@.len() ==> !((#[trigger] self.alternatives@[i]).supplier@ == supplier@ && self.alternatives@[i].is_active),
            },
    {
        let mut i: usize = 0;
        while i < self.alternatives.len()
            invariant
                i <= self.alternatives@.len(),
                forall|j: int| 0 <= j < i ==> !((#[trigger] self.alternatives@[j]).supplier@ == supplier@ && self.alternatives@[j].is_active),
            decreases self.alternatives@.len() - i,
        {
            let a = &self.alternatives[i];
            if str_equal(a.supplier.as_str(), supplier) && a.is_active {
                proof {
                    assert(first_active_of(self.alternatives@, supplier@, i as int));
                }
                return Some(a);
            }
            i = i + 1;
        }
        None
    }
}

/// Whether a kind of item is virtual (a phantom part).
pub fn is_virtual_material(bom_type: &BomType) -> (r: bool)
    ensures
        r == (*bom_type == BomType::Virtual),
{
    matches!(bom_type, BomType::Virtual)
}

/// Whether items of this kind are left out of the cost of their parent:
/// virtual parts are.
pub fn should_skip_in_cost(bom_type: &BomType) -> (r: bool)
    ensures
        r == (*bom_type == BomType::Virtual),
{
    matches!(bom_type, BomType::Virtual)
}

/// The active alternatives of the group, in order.
pub fn collect_non_virtual_alts(group: &AltMaterialGroup) -> (r: Vec<&AltMaterial>)
    ensures
        pointed(r@) == active_alts(group.alternatives@),
{
    let mut r: Vec<&AltMaterial> = Vec::new();
    let mut i: usize = 0;
    while i < group.alternatives.len()
        invariant
            i <= group.alternatives@.len(),
            pointed(r@) == active_alts(group.alternatives@.take(i as int)),
        decreases group.alternatives@.len() - i,
    {
        let a = &group.alternatives[i];
        let ghost t = group.alternatives@.take(i + 1);
        proof {
            assert(t.drop_last() =~= group.alternatives@.take(i as int));
            assert(t.last() == *a);
        }
        if a.is_active {
            r.push(a);
            proof {
                assert(pointed(r@) =~= active_alts(t.drop_last()).push(*a));
            }
        }
        i = i + 1;
    }
    proof {
        assert(group.alternatives@.take(i as int) =~= group.alternatives@);
    }
    r
}

/// A group with the position, in its order of preference, of the
/// alternative in use.
pub struct AltEntry {
    pub group: AltMaterialGroup,
    pub selected_index: usize,
}

/// The entries by base material number (a later entry of the same number
/// wins).
pub open spec fn entries_map(es: Seq<AltEntry>) -> Map<Seq<char>, AltEntry>
    decreases es.len(),
{
    if es.len() == 0 {
        Map::empty()
    } else {
        entries_map(es.drop_last()).insert(es.last().group.base_material_no@, es.last())
    }
}

/// No two entries share a base material number.
pub open spec fn distinct_bases(es: Seq<AltEntry>) -> bool {
    forall|i: int, j: int|
        0 <= i < es.len() && 0 <= j < es.len() && i != j ==> (#[trigger] es[i]).group.base_material_no@
            != (#[trigger] es[j]).group.base_material_no@
}

proof fn lemma_entries_map(es: Seq<AltEntry>)
    requires
        distinct_bases(es),
    ensures
        forall|k: Seq<char>|
            entries_map(es).contains_key(k) <==> exists|i: int|
                0 <= i < es.len() && (#[trigger] es[i]).group.base_material_no@ == k,
        forall|i: int|
            0 <= i < es.len() ==> entries_map(es)[(#[trigger] es[i]).group.base_material_no@] == es[i],
    decreases es.len(),
{
    if es.len() > 0 {
        let init = es.drop_last();
        assert(distinct_bases(init)) by {
            assert forall|i: int, j: int|
                0 <= i < init.len() && 0 <= j < init.len() && i != j implies (#[trigger] init[i]).group.base_material_no@
                != (#[trigger] init[j]).group.base_material_no@ by {
                assert(init[i] == es[i] && init[j] == es[j]);
            }
        }
        lemma_entries_map(init);
        let last = es[es.len() - 1];
        assert(entries_map(es) == entries_map(init).insert(last.group.base_material_no@, last));
        assert forall|k: Seq<char>|
            entries_map(es).contains_key(k) <==> exists|i: int|
                0 <= i < es.len() && (#[trigger] es[i]).group.base_material_no@ == k by {
            if entries_map(es).contains_key(k) {
                if k == last.group.base_material_no@ {
                    assert(es[es.len() - 1].group.base_material_no@ == k);
                } else {
                    assert(entries_map(init).contains_key(k));
                    let i = choose|i: int|
                        0 <= i < init.len() && (#[trigger] init[i]).group.base_material_no@ == k;
                    assert(es[i] == init[i]);
                }
            }
            if exists|i: int| 0 <= i < es.len() && (#[trigger] es[i]).group.base_material_no@ == k {
                let i = choose|i: int| 0 <= i < es.len() && (#[trigger] es[i]).group.base_material_no@ == k;
                if i < init.len() {
                    assert(init[i] == es[i]);
                }
            }
        }
        assert forall|i: int| 0 <= i < es.len() implies entries_map(es)[(#[trigger] es[i]).group.base_material_no@]
            == es[i] by {
            if i < init.len() {
                assert(init[i] == es[i]);
                assert(es[i].group.base_material_no@ != es[es.len() - 1].group.base_material_no@);
            }
        }
    }
}

proof fn lemma_entries_set(es: Seq<AltEntry>, i: int, e: AltEntry)
    requires
        distinct_bases(es),
        0 <= i < es.len(),
        e.group.base_material_no@ == es[i].group.base_material_no@,
    ensures
        distinct_bases(es.update(i, e)),
        entries_map(es.update(i, e)) == entries_map(es).insert(e.group.base_material_no@, e),
{
    let u = es.update(i, e);
    assert(distinct_bases(u)) by {
        assert forall|a: int, b: int|
            0 <= a < u.len() && 0 <= b < u.len() && a != b implies (#[trigger] u[a]).group.base_material_no@
            != (#[trigger] u[b]).group.base_material_no@ by {
            assert(es[a].group.base_material_no@ != es[b].group.base_material_no@);
        }
    }
    lemma_entries_map(es);
    lemma_entries_map(u);
    let m1 = entries_map(u);
    let m2 = entries_map(es).insert(e.group.base_material_no@, e);
    assert forall|k: Seq<char>| m1.contains_key(k) <==> m2.contains_key(k) by {
        if m1.contains_key(k) {
            let a = choose|a: int| 0 <= a < u.len() && (#[trigger] u[a]).group.base_material_no@ == k;
            if a != i {
                assert(es[a] == u[a]);
            }
        }
        if m2.contains_key(k) {
            if k == e.group.base_material_no@ {
                assert(u[i] == e);
            } else {
                let a = choose|a: int| 0 <= a < es.len() && (#[trigger] es[a]).group.base_material_no@ == k;
                assert(u[a] == es[a]);
            }
        }
    }
    assert forall|k: Seq<char>| m1.contains_key(k) implies m1[k] == m2[k] by {
        let a = choose|a: int| 0 <= a < u.len() && (#[trigger] u[a]).group.base_material_no@ == k;
        if a != i {
            assert(es[a] == u[a]);
        }
    }
    assert(m1 =~= m2);
}

proof fn lemma_entries_push(es: Seq<AltEntry>, e: AltEntry)
    requires
        distinct_bases(es),
        forall|i: int| 0 <= i < es.len() ==> (#[trigger] es[i]).group.base_material_no@ != e.group.base_material_no@,
    ensures
        distinct_bases(es.push(e)),
        entries_map(es.push(e)) == entries_map(es).insert(e.group.base_material_no@, e),
{
    let u = es.push(e);
    assert(u.drop_last() =~= es);
    assert(distinct_bases(u)) by {
        assert forall|a: int, b: int|
            0 <= a < u.len() && 0 <= b < u.len() && a != b implies (#[trigger] u[a]).group.base_material_no@
            != (#[trigger] u[b]).group.base_material_no@ by {
            if a < es.len() && b < es.len() {
                assert(es[a].group.base_material_no@ != es[b].group.base_material_no@);
            } else if a < es.len() {
                assert(es[a].group.base_material_no@ != e.group.base_material_no@);
            } else if b < es.len() {
                assert(es[b].group.base_material_no@ != e.group.base_material_no@);
            }
        }
    }
}

/// The message for a missing group.
pub open spec fn missing_group_message(base: Seq<char>) -> Seq<char> {
    "未找到物料 "@ + base + " 的替代料组"@
}

/// The message for a group without an alternative that has enough stock.
pub open spec fn no_stock_message(base: Seq<char>) -> Seq<char> {
    "物料 "@ + base + " 没有足够库存的替代料"@
}

/// The message for a missing supplier.
pub open spec fn missing_supplier_message(supplier: Seq<char>) -> Seq<char> {
    "未找到供应商 "@ + supplier + " 的替代料"@
}

/// The message for a stock below the quantity asked for.
pub open spec fn short_stock_message(supplier: Seq<char>, stock: Number, qty: Number) -> Seq<char> {
    "供应商 "@ + supplier + " 库存不足，当前: "@ + stock.text@ + ", 需要: "@ + qty.text@
}

/// `i` is the first alternative after position `cur` in the order of
/// preference whose stock covers `required`.
pub open spec fn switch_target(pref: Seq<AltMaterial>, cur: int, required: Number, i: int) -> bool {
    &&& cur < i < pref.len()
    &&& bits_le(required.bits, pref[i].stock_quantity.bits)
    &&& forall|j: int| cur < j < i ==> !bits_le(required.bits, (#[trigger] pref[j]).stock_quantity.bits)
}

/// The alternative chosen for a switch comes after the current one and its
/// stock is at least the required quantity (IEEE order: neither is a NaN);
/// every alternative between them has a stock below the required quantity
/// or a NaN on one side.
pub proof fn lemma_switch_target_covers(pref: Seq<AltMaterial>, cur: int, required: Number, i: int)
    requires
        switch_target(pref, cur, required, i),
    ensures
        cur < i < pref.len(),
        !is_nan_bits(required.bits),
        !is_nan_bits(pref[i].stock_quantity.bits),
        order_key(required.bits) <= order_key(pref[i].stock_quantity.bits),
        forall|j: int|
            cur < j < i ==> is_nan_bits((#[trigger] pref[j]).stock_quantity.bits) || order_key(
                pref[j].stock_quantity.bits,
            ) < order_key(required.bits),
{
}

/// Whenever an alternative after the current one has a stock of at least
/// the required quantity (an equal stock included), a switch finds a
/// target, and at that alternative or before it.
pub proof fn lemma_switch_target_exists(pref: Seq<AltMaterial>, cur: int, required: Number, j: int)
    requires
        cur < j < pref.len(),
        !is_nan_bits(required.bits),
        !is_nan_bits(pref[j].stock_quantity.bits),
        order_key(required.bits) <= order_key(pref[j].stock_quantity.bits),
    ensures
        exists|i: int| i <= j && switch_target(pref, cur, required, i),
    decreases j - cur,
{
    if exists|k: int| cur < k < j && bits_le(required.bits, (#[trigger] pref[k]).stock_quantity.bits) {
        let k = choose|k: int| cur < k < j && bits_le(required.bits, (#[trigger] pref[k]).stock_quantity.bits);
        lemma_switch_target_exists(pref, cur, required, k);
    } else {
        assert(switch_target(pref, cur, required, j));
    }
}

/// One more, wrapping to zero past the largest `usize`.
pub open spec fn wrapping_next(n: usize) -> usize {
    if n < usize::MAX {
        (n + 1) as usize
    } else {
        0
    }
}

/// The groups of alternatives by base material number, with the choice of
/// alternative in each, and the number of switches made.
pub struct AltMaterialManager {
    entries: Vec<AltEntry>,
    switches: usize,
}

impl View for AltMaterialManager {
    type V = Map<Seq<char>, AltEntry>;

    closed spec fn view(&self) -> Map<Seq<char>, AltEntry> {
        entries_map(self.entries@)
    }
}

impl AltMaterialManager {
    /// The entries have distinct base material numbers.
    pub closed spec fn wf(&self) -> bool {
        distinct_bases(self.entries@)
    }

    /// The number of switches made so far (wrapping past the largest `usize`).
    pub closed spec fn switches_made(&self) -> usize {
        self.switches
    }

    /// A manager with no group.
    pub fn new() -> (r: AltMaterialManager)
        ensures
            r.wf(),
            r@ == Map::<Seq<char>, AltEntry>::empty(),
            r.switches_made() == 0,
    {
        let r = AltMaterialManager { entries: Vec::new(), switches: 0 };
        proof {
            assert(entries_map(r.entries@) =~= Map::<Seq<char>, AltEntry>::empty());
        }
        r
    }

    /// The position of the entry of `base`, if any.
    fn position(&self, base: &str) -> (r: Option<usize>)
        requires
            self.wf(),
        ensures
            match r {
                Some(i) => i < self.entries@.len() && self.entries@[i as int].group.base_material_no@ == base@
                    && self@.contains_key(base@) && self@[base@] == self.entries@[i as int],
                None => !self@.contains_key(base@),
            },
    {
        let mut i: usize = 0;
        while i < self.entries.len()
            invariant
                self.wf(),
                i <= self.entries@.len(),
                forall|j: int| 0 <= j < i ==> (#[trigger] self.entries@[j]).group.base_material_no@ != base@,
            decreases self.entries@.len() - i,
        {
            if str_equal(self.entries[i].group.base_material_no.as_str(), base) {
                proof {
                    lemma_entries_map(self.entries@);
                }
                return Some(i);
            }
            i = i + 1;
        }
        proof {
            lemma_entries_map(self.entries@);
            if self@.contains_key(base@) {
                let j = choose|j: int| 0 <= j < self.entries@.len() && (#[trigger] self.entries@[j]).group.base_material_no@ == base@;
            }
        }
        None
    }

    /// Adds the group, or replaces the group of the same base material
    /// number, keeping the choice already made for that number.
    pub fn add_group(&mut self, group: AltMaterialGroup)
        requires
            old(self).wf(),
        ensures
            final(self).wf(),
            final(self).switches_made() == old(self).switches_made(),
            final(self)@ == old(self)@.insert(
                group.base_material_no@,
                AltEntry {
                    group,
                    selected_index: if old(self)@.contains_key(group.base_material_no@) {
                        old(self)@[group.base_material_no@].selected_index
                    } else {
                        0
                    },
                },
            ),
    {
        match self.position(group.base_material_no.as_str()) {
            Some(i) => {
                let keep = self.entries[i].selected_index;
                let e = AltEntry { group, selected_index: keep };
                proof {
                    lemma_entries_set(self.entries@, i as int, e);
                }
                self.entries.set(i, e);
            },
            None => {
                let e = AltEntry { group, selected_index: 0 };
                proof {
                    lemma_entries_map(self.entries@);
                    assert forall|i: int| 0 <= i < self.entries@.len() implies (#[trigger] self.entries@[i]).group.base_material_no@
                        != e.group.base_material_no@ by {
                        assert(entries_map(self.entries@).contains_key(self.entries@[i].group.base_material_no@));
                    }
                    lemma_entries_push(self.entries@, e);
                }
                self.entries.push(e);
            },
        }
    }

    /// A copy of the group of `base`, if any.
    pub fn get_group(&self, base_material_no: &str) -> (r: Option<AltMaterialGroup>)
        requires
            self.wf(),
        ensures
            self@.contains_key(base_material_no@) ==> (r matches Some(g) && same_group(g, self@[base_material_no@].group)),
            !self@.contains_key(base_material_no@) ==> r is None,
    {
        match self.position(base_material_no) {
            Some(i) => Some(self.entries[i].group.duplicate()),
            None => None,
        }
    }

    /// A copy of the alternative in use for `base`: the one at the chosen
    /// position of the order of preference, if the group exists and the
    /// position is within it.
    pub fn get_current_alt(&self, base_material_no: &str) -> (r: Option<AltMaterial>)
        requires
            self.wf(),
        ensures
            ({
                let k = base_material_no@;
                if self@.contains_key(k) && self@[k].selected_index < preference(self@[k].group).len() {
                    r == Some(preference(self@[k].group)[self@[k].selected_index as int])
                } else {
                    r is None
                }
            }),
    {
        match self.position(base_material_no) {
            None => None,
            Some(i) => {
                let e = &self.entries[i];
                let sorted = e.group.sorted_by_priority();
                if e.selected_index < sorted.len() {
                    Some(sorted[e.selected_index].duplicate())
                } else {
                    None
                }
            },
        }
    }

    /// Switches `base` to the first alternative after the one in use, in
    /// the order of preference, whose stock covers `required_qty`, and
    /// gives a copy of it; an error when there is no group or no such
    /// alternative, and then nothing changes.
    pub fn try_switch_alt(&mut self, base_material_no: &str, required_qty: &Number) -> (r: Result<
        AltMaterial,
        String,
    >)
        requires
            old(self).wf(),
        ensures
            final(self).wf(),
            ({
                let k = base_material_no@;
                if !old(self)@.contains_key(k) {
                    &&& r matches Err(e) && e@ == missing_group_message(k)
                    &&& final(self)@ == old(self)@
                    &&& final(self).switches_made() == old(self).switches_made()
                } else {
                    let e = old(self)@[k];
                    let pref = preference(e.group);
                    if exists|i: int| switch_target(pref, e.selected_index as int, *required_qty, i) {
                        let i = choose|i: int| switch_target(pref, e.selected_index as int, *required_qty, i);
                        &&& r == Ok::<AltMaterial, String>(pref[i])
                        &&& final(self)@ == old(self)@.insert(k, AltEntry { group: e.group, selected_index: i as usize })
                        &&& final(self).switches_made() == wrapping_next(old(self).switches_made())
                    } else {
                        &&& r matches Err(m) && m@ == no_stock_message(k)
                        &&& final(self)@ == old(self)@
                        &&& final(self).switches_made() == old(self).switches_made()
                    }
                }
            }),
            ({
                let k = base_material_no@;
                let pref = preference(old(self)@[k].group);
                old(self)@.contains_key(k) && (exists|j: int|
                    old(self)@[k].selected_index < j < pref.len() && !is_nan_bits(required_qty.bits)
                        && !is_nan_bits((#[trigger] pref[j]).stock_quantity.bits) && order_key(
                        required_qty.bits,
                    ) <= order_key(pref[j].stock_quantity.bits)) ==> r is Ok
            }),
            r matches Ok(a) ==> !is_nan_bits(required_qty.bits) && !is_nan_bits(a.stock_quantity.bits)
                && order_key(required_qty.bits) <= order_key(a.stock_quantity.bits),
            ({
                let k = base_material_no@;
                let pref = preference(old(self)@[k].group);
                let cur = old(self)@[k].selected_index as int;
                let i = final(self)@[k].selected_index as int;
                r matches Ok(a) ==> {
                    &&& cur < i < pref.len()
                    &&& a == pref[i]
                    &&& forall|j: int|
                        cur < j < i ==> is_nan_bits((#[trigger] pref[j]).stock_quantity.bits)
                            || order_key(pref[j].stock_quantity.bits) < order_key(required_qty.bits)
                }
            }),
    {
        match self.position(base_material_no) {
            None => Err(concat3("未找到物料 ", base_material_no, " 的替代料组")),
            Some(p) => {
                let ghost e0 = self.entries@[p as int];
                let ghost pref = preference(e0.group);
                let cur = self.entries[p].selected_index;
                let mut found: Option<(usize, AltMaterial)> = None;
                {
                    let sorted = self.entries[p].group.sorted_by_priority();
                    let mut i: usize = if cur < sorted.len() {
                        cur
                    } else {
                        sorted.len()
                    };
                    while i < sorted.len() && found.is_none()
                        invariant
                            pointed(sorted@) == pref,
                            i <= sorted@.len(),
                            i < cur ==> i == sorted@.len(),
                            found is None ==> forall|j: int| cur < j < i ==> !bits_le(required_qty.bits, (#[trigger] pref[j]).stock_quantity.bits),
                            found matches Some(f) ==> switch_target(pref, cur as int, *required_qty, f.0 as int) && f.1 == pref[f.0 as int],
                        decreases sorted@.len() - i,
                    {
                        if i > cur && required_qty.le(&sorted[i].stock_quantity) {
                            found = Some((i, sorted[i].duplicate()));
                        }
                        i = i + 1;
                    }
                    proof {
                        if found is None {
                            assert forall|j: int| !switch_target(pref, cur as int, *required_qty, j) by {
                                if switch_target(pref, cur as int, *required_qty, j) {
                                    assert(!bits_le(required_qty.bits, pref[j].stock_quantity.bits));
                                }
                            }
                        }
                    }
                }
                match found {
                    None => {
                        proof {
                            if exists|j: int|
                                cur < j < pref.len() && !is_nan_bits(required_qty.bits) && !is_nan_bits(
                                    (#[trigger] pref[j]).stock_quantity.bits,
                                ) && order_key(required_qty.bits) <= order_key(pref[j].stock_quantity.bits) {
                                let j = choose|j: int|
                                    cur < j < pref.len() && !is_nan_bits(required_qty.bits) && !is_nan_bits(
                                        (#[trigger] pref[j]).stock_quantity.bits,
                                    ) && order_key(required_qty.bits) <= order_key(pref[j].stock_quantity.bits);
                                lemma_switch_target_exists(pref, cur as int, *required_qty, j);
                            }
                        }
                        Err(concat3("物料 ", base_material_no, " 没有足够库存的替代料"))
                    },
                    Some((i, alt)) => {
                        proof {
                            lemma_switch_target_covers(pref, cur as int, *required_qty, i as int);
                            let t = choose|t: int| switch_target(pref, cur as int, *required_qty, t);
                            if t < i {
                                assert(!bits_le(required_qty.bits, pref[t].stock_quantity.bits));
                            } else if i < t {
                                assert(!bits_le(required_qty.bits, pref[i as int].stock_quantity.bits));
                            }
                        }
                        let ghost before = self.entries@;
                        self.entries[p].selected_index = i;
                        proof {
                            let ne = AltEntry { group: e0.group, selected_index: i };
                            assert(self.entries@ == before.update(p as int, ne));
                            lemma_entries_set(before, p as int, ne);
                        }
                        self.switches = if self.switches < usize::MAX {
                            self.switches + 1
                        } else {
                            0
                        };
                        Ok(alt)
                    },
                }
            },
        }
    }

    /// Sets the choice for `base` back to the first alternative in the
    /// order of preference; an error when there is no such group.
    pub fn reset_alt(&mut self, base_material_no: &str) -> (r: Result<(), String>)
        requires
            old(self).wf(),
        ensures
            final(self).wf(),
            final(self).switches_made() == old(self).switches_made(),
            ({
                let k = base_material_no@;
                if old(self)@.contains_key(k) {
                    &&& r is Ok
                    &&& final(self)@ == old(self)@.insert(k, AltEntry { group: old(self)@[k].group, selected_index: 0 })
                } else {
                    &&& r matches Err(e) && e@ == missing_group_message(k)
                    &&& final(self)@ == old(self)@
                }
            }),
    {
        match self.position(base_material_no) {
            None => Err(concat3("未找到物料 ", base_material_no, " 的替代料组")),
            Some(p) => {
                let ghost before = self.entries@;
                self.entries[p].selected_index = 0;
                proof {
                    let ne = AltEntry { group: before[p as int].group, selected_index: 0 };
                    assert(self.entries@ == before.update(p as int, ne));
                    lemma_entries_set(before, p as int, ne);
                }
                Ok(())
            },
        }
    }

    /// The position of the first alternative of `supplier` in the group at
    /// position `p`, if any.
    fn supplier_position(&self, p: usize, supplier: &str) -> (r: Option<usize>)
        requires
            p < self.entries@.len(),
        ensures
            match r {
                Some(i) => first_of(self.entries@[p as int].group.alternatives@, supplier@, i as int),
                None => forall|i: int|
                    0 <= i < self.entries@[p as int].group.alternatives@.len()
                        ==> (#[trigger] self.entries@[p as int].group.alternatives@[i]).supplier@ != supplier@,
            },
    {
        let alts = &self.entries[p].group.alternatives;
        let mut i: usize = 0;
        while i < alts.len()
            invariant
                alts@ == self.entries@[p as int].group.alternatives@,
                i <= alts@.len(),
                forall|j: int| 0 <= j < i ==> (#[trigger] alts@[j]).supplier@ != supplier@,
            decreases alts@.len() - i,
        {
            if str_equal(alts[i].supplier.as_str(), supplier) {
                return Some(i);
            }
            i = i + 1;
        }
        None
    }

    /// Sets the stock of the first alternative of `supplier` (active or not)
    /// in the group of `base`; an error when there is no such group or no
    /// such alternative, and then nothing changes.
    pub fn update_stock(&mut self, base_material_no: &str, supplier: &str, new_stock: Number) -> (r:
        Result<(), String>)
        requires
            old(self).wf(),
        ensures
            final(self).wf(),
            final(self).switches_made() == old(self).switches_made(),
            ({
                let k = base_material_no@;
                if !old(self)@.contains_key(k) {
                    &&& r matches Err(e) && e@ == missing_group_message(k)
                    &&& final(self)@ == old(self)@
                } else {
                    let oe = old(self)@[k];
                    let alts = oe.group.alternatives@;
                    if exists|i: int| first_of(alts, supplier@, i) {
                        let i = choose|i: int| first_of(alts, supplier@, i);
                        let fe = final(self)@[k];
                        &&& r is Ok
                        &&& final(self)@ == old(self)@.insert(k, fe)
                        &&& fe.selected_index == oe.selected_index
                        &&& fe.group.base_material_no == oe.group.base_material_no
                        &&& fe.group.alternatives@ == alts.update(i, AltMaterial { stock_quantity: new_stock, ..alts[i] })
                    } else {
                        &&& r matches Err(e) && e@ == missing_supplier_message(supplier@)
                        &&& final(self)@ == old(self)@
                    }
                }
            }),
    {
        match self.position(base_material_no) {
            None => Err(concat3("未找到物料 ", base_material_no, " 的替代料组")),
            Some(p) => {
                match self.supplier_position(p, supplier) {
                    None => Err(concat3("未找到供应商 ", supplier, " 的替代料")),
                    Some(i) => {
                        let ghost before = self.entries@;
                        let ghost alts = before[p as int].group.alternatives@;
                        proof {
                            let t = choose|t: int| first_of(alts, supplier@, t);
                            if t < i {
                                assert(alts[t].supplier@ != supplier@);
                            } else if i < t {
                                assert(alts[i as int].supplier@ != supplier@);
                            }
                        }
                        self.entries[p].group.alternatives[i].stock_quantity = new_stock;
                        proof {
                            let ne = self.entries@[p as int];
                            assert(self.entries@ == before.update(p as int, ne));
                            assert(ne.group.alternatives@ =~= alts.update(i as int, AltMaterial { stock_quantity: new_stock, ..alts[i as int] }));
                            lemma_entries_set(before, p as int, ne);
                            lemma_entries_map(self.entries@);
                        }
                        Ok(())
                    },
                }
            },
        }
    }

    /// The stock of the first alternative of `supplier` in the group of
    /// `base`, when it covers `qty`; otherwise the error that consuming
    /// `qty` from it meets (no group, no such alternative, or too little
    /// stock).
    pub fn check_stock(&self, base_material_no: &str, supplier: &str, qty: &Number) -> (r: Result<
        Number,
        String,
    >)
        requires
            self.wf(),
        ensures
            ({
                let k = base_material_no@;
                if !self@.contains_key(k) {
                    r matches Err(e) && e@ == missing_group_message(k)
                } else {
                    let alts = self@[k].group.alternatives@;
                    if exists|i: int| first_of(alts, supplier@, i) {
                        let a = alts[choose|i: int| first_of(alts, supplier@, i)];
                        if bits_lt(a.stock_quantity.bits, qty.bits) {
                            r matches Err(e) && e@ == short_stock_message(supplier@, a.stock_quantity, *qty)
                        } else {
                            r == Ok::<Number, String>(a.stock_quantity)
                        }
                    } else {
                        r matches Err(e) && e@ == missing_supplier_message(supplier@)
                    }
                }
            }),
    {
        match self.position(base_material_no) {
            None => Err(concat3("未找到物料 ", base_material_no, " 的替代料组")),
            Some(p) => {
                match self.supplier_position(p, supplier) {
                    None => Err(concat3("未找到供应商 ", supplier, " 的替代料")),
                    Some(i) => {
                        let ghost alts = self.entries@[p as int].group.alternatives@;
                        proof {
                            let t = choose|t: int| first_of(alts, supplier@, t);
                            if t < i {
                                assert(alts[t].supplier@ != supplier@);
                            } else if i < t {
                                assert(alts[i as int].supplier@ != supplier@);
                            }
                        }
                        let a = &self.entries[p].group.alternatives[i];
                        if a.stock_quantity.lt(qty) {
                            let head = concat4("供应商 ", supplier, " 库存不足，当前: ", a.stock_quantity.text.as_str());
                            Err(concat3(head.as_str(), ", 需要: ", qty.text.as_str()))
                        } else {
                            Ok(a.stock_quantity.duplicate())
                        }
                    },
                }
            },
        }
    }

    /// The number of switches made so far.
    pub fn switch_count(&self) -> (r: usize)
        ensures
            r == self.switches_made(),
    {
        self.switches
    }

    /// Copies of all groups, one per base material number.
    pub fn all_groups(&self) -> (r: Vec<AltMaterialGroup>)
        requires
            self.wf(),
        ensures
            forall|i: int|
                0 <= i < r@.len() ==> self@.contains_key((#[trigger] r@[i]).base_material_no@) && same_group(
                    r@[i],
                    self@[r@[i].base_material_no@].group,
                ),
            forall|k: Seq<char>|
                self@.contains_key(k) ==> exists|i: int| 0 <= i < r@.len() && (#[trigger] r@[i]).base_material_no@ == k,
            forall|i: int, j: int|
                0 <= i < r@.len() && 0 <= j < r@.len() && i != j ==> (#[trigger] r@[i]).base_material_no@
                    != (#[trigger] r@[j]).base_material_no@,
    {
        proof {
            lemma_entries_map(self.entries@);
        }
        let mut r: Vec<AltMaterialGroup> = Vec::new();
        let mut i: usize = 0;
        while i < self.entries.len()
            invariant
                self.wf(),
                i <= self.entries@.len(),
                r@.len() == i,
                forall|j: int| 0 <= j < i ==> same_group(#[trigger] r@[j], self.entries@[j].group),
            decreases self.entries@.len() - i,
        {
            r.push(self.entries[i].group.duplicate());
            i = i + 1;
        }
        proof {
            lemma_entries_map(self.entries@);
            assert forall|k: Seq<char>| self@.contains_key(k) implies exists|i: int|
                0 <= i < r@.len() && (#[trigger] r@[i]).base_material_no@ == k by {
                let a = choose|a: int| 0 <= a < self.entries@.len() && (#[trigger] self.entries@[a]).group.base_material_no@ == k;
                assert(r@[a].base_material_no@ == k);
            }
            assert forall|a: int| 0 <= a < r@.len() implies self@.contains_key((#[trigger] r@[a]).base_material_no@) && same_group(
                r@[a],
                self@[r@[a].base_material_no@].group,
            ) by {
                assert(same_group(r@[a], self.entries@[a].group));
                assert(self.entries@[a].group.base_material_no@ == r@[a].base_material_no@);
            }
        }
        r
    }
}

impl Default for AltMaterialManager {
    fn default() -> (r: AltMaterialManager)
        ensures
            r.wf(),
            r@ == Map::<Seq<char>, AltEntry>::empty(),
            r.switches_made() == 0,
    {
        AltMaterialManager::new()
    }
}

} // verus!
