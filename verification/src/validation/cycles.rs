//! Detection of circular parent references by depth-first search.
use vstd::prelude::*;
use crate::bom::BomItem;
use crate::bom::parser::{texts, opt_text};
use crate::text::{concat2, concat3, owned, str_equal};
use crate::validation::{IssueLevel, IssueModel, ValidationIssue, issue_of, issue_views};

verus! {

/// `v` is the material number of an item whose parent is `u` (non-empty):
/// the parent relation drawn from `u` to `v`.
pub open spec fn parent_edge(items: Seq<BomItem>, u: Seq<char>, v: Seq<char>) -> bool {
    u.len() > 0 && exists|j: int|
        0 <= j < items.len() && #[trigger] items[j].material_no@ == v && opt_text(
            items[j].parent_material_no,
        ) == Some(u)
}

/// The element after position `i` of a cycle.
pub open spec fn next_in<A>(c: Seq<A>, i: int) -> A {
    if i + 1 < c.len() {
        c[i + 1]
    } else {
        c[0]
    }
}

/// `c` lists the material numbers around a cycle of the parent relation.
pub open spec fn is_reference_cycle(items: Seq<BomItem>, c: Seq<Seq<char>>) -> bool {
    c.len() >= 1 && forall|i: int| 0 <= i < c.len() ==> parent_edge(items, #[trigger] c[i], next_in(c, i))
}

/// The parent relation of the items has a cycle.
pub open spec fn has_reference_cycle(items: Seq<BomItem>) -> bool {
    exists|c: Seq<Seq<char>>| is_reference_cycle(items, c)
}

/// The parts joined by a separator.
pub open spec fn join(parts: Seq<Seq<char>>, sep: Seq<char>) -> Seq<char>
    decreases parts.len(),
{
    if parts.len() == 0 {
        seq![]
    } else if parts.len() == 1 {
        parts[0]
    } else {
        join(parts.drop_last(), sep) + sep + parts.last()
    }
}

/// The finding that reports the cycle `c`, starting from `c[0]`.
pub open spec fn cycle_issue(c: Seq<Seq<char>>) -> IssueModel {
    issue_of(
        IssueLevel::Error,
        "CIRCULAR_REFERENCE"@,
        "检测到循环引用: "@ + join(c, " -> "@) + " -> "@ + c[0],
        Some(c[0]),
        "父件关系"@,
    )
}

/// The key under which the search remembers a cycle it reported: the
/// material numbers along it joined by "->".
pub open spec fn cycle_key(c: Seq<Seq<char>>) -> Seq<char> {
    join(c, "->"@)
}

/// `b` goes round the same cycle as `a`, possibly from another starting
/// point.
pub open spec fn same_round<A>(a: Seq<A>, b: Seq<A>) -> bool {
    &&& a.len() == b.len()
    &&& exists|s: int| 0 <= s < a.len() && b == a.subrange(s, a.len() as int) + a.subrange(0, s)
}

/// Some cycle of the parent relation that starts at `x` has the key `key`.
#[verifier::opaque]
pub open spec fn keyed_from(items: Seq<BomItem>, x: Seq<char>, key: Seq<char>) -> bool {
    exists|c: Seq<Seq<char>>| is_reference_cycle(items, c) && c[0] == x && #[trigger] cycle_key(c) == key
}

/// The findings `s` report the cycles `cs`, each a cycle of the parent
/// relation that repeats no material number, no two going round the same
/// cycle.
pub open spec fn cycle_findings_sound(items: Seq<BomItem>, s: Seq<IssueModel>, cs: Seq<Seq<Seq<char>>>) -> bool {
    &&& cs.len() == s.len()
    &&& forall|k: int|
        0 <= k < s.len() ==> is_reference_cycle(items, cs[k]) && cs[k].no_duplicates() && #[trigger] s[k]
            == cycle_issue(cs[k])
    &&& forall|k1: int, k2: int|
        0 <= k1 < cs.len() && 0 <= k2 < cs.len() && k1 != k2 ==> !same_round(#[trigger] cs[k1], #[trigger] cs[k2])
}

/// The findings `s` report the cycles `cs`: each a cycle that repeats no
/// material number, no two going round the same cycle; and every cycle of
/// the parent relation is met: from one of its material numbers starts a
/// cycle whose key is that of a reported one (when no material number holds
/// "->"-like text, the reported cycle itself starts there).
#[verifier::opaque]
pub open spec fn cycle_findings(items: Seq<BomItem>, s: Seq<IssueModel>, cs: Seq<Seq<Seq<char>>>) -> bool {
    &&& cycle_findings_sound(items, s, cs)
    &&& forall|c: Seq<Seq<char>>|
        is_reference_cycle(items, c) ==> exists|i: int, k: int|
            0 <= i < c.len() && 0 <= k < cs.len() && keyed_from(items, #[trigger] c[i], cycle_key(#[trigger] cs[k]))
}

/// Every cycle of the parent relation has a material number at which one
/// of the cycles `cs` starts.
#[verifier::opaque]
pub open spec fn reports_meet_cycles(items: Seq<BomItem>, cs: Seq<Seq<Seq<char>>>) -> bool {
    forall|c: Seq<Seq<char>>|
        is_reference_cycle(items, c) ==> exists|i: int, k: int|
            0 <= i < c.len() && 0 <= k < cs.len() && #[trigger] cs[k][0] == #[trigger] c[i]
}

/// The findings of the circular-reference check: each reports a genuine
/// cycle, there is one exactly when the parent relation has a cycle, no two
/// go round the same cycle, and every cycle is met (see `cycle_findings`);
/// when no material number holds '>', every cycle has a material number at
/// which a reported cycle starts.
pub open spec fn cycle_report(items: Seq<BomItem>, s: Seq<IssueModel>) -> bool {
    &&& forall|k: int|
        0 <= k < s.len() ==> exists|c: Seq<Seq<char>>|
            is_reference_cycle(items, c) && #[trigger] s[k] == cycle_issue(c)
    &&& (s.len() > 0 <==> has_reference_cycle(items))
    &&& exists|cs: Seq<Seq<Seq<char>>>|
        #![trigger cycle_findings(items, s, cs)]
        cycle_findings(items, s, cs) && (no_arrow_heads(items) ==> reports_meet_cycles(items, cs))
}

/// No material number of the items holds the character '>'.
pub open spec fn no_arrow_heads(items: Seq<BomItem>) -> bool {
    forall|j: int| 0 <= j < items.len() ==> !(#[trigger] items[j].material_no@).contains('>')
}

proof fn lemma_join_front(x: Seq<Seq<char>>, sep: Seq<char>)
    requires
        x.len() >= 2,
    ensures
        join(x, sep) == x[0] + sep + join(x.drop_first(), sep),
    decreases x.len(),
{
    if x.len() == 2 {
        assert(x.drop_last() =~= seq![x[0]]);
        assert(x.drop_first() =~= seq![x[1]]);
        assert(join(x.drop_first(), sep) == x[1]);
        assert(join(x.drop_last(), sep) == x[0]);
        assert(x.last() == x[1]);
        assert(join(x, sep) =~= x[0] + sep + join(x.drop_first(), sep));
    } else {
        let d = x.drop_last();
        lemma_join_front(d, sep);
        assert(d.drop_first() =~= x.drop_first().drop_last());
        assert(x.drop_first().last() == x.last());
        assert(d[0] == x[0]);
        assert(join(x, sep) =~= x[0] + sep + join(x.drop_first(), sep));
    }
}

/// The first part of a list of texts without '>', joined by "->", can be
/// read back from the joined text.
proof fn lemma_join_first(x: Seq<Seq<char>>, y: Seq<Seq<char>>)
    requires
        x.len() >= 1,
        y.len() >= 1,
        forall|i: int| 0 <= i < x.len() ==> !(#[trigger] x[i]).contains('>'),
        forall|i: int| 0 <= i < y.len() ==> !(#[trigger] y[i]).contains('>'),
        join(x, "->"@) == join(y, "->"@),
    ensures
        x[0] == y[0],
{
    reveal_strlit("->");
    let j = join(x, "->"@);
    let l = x[0].len() as int;
    let m = y[0].len() as int;
    assert(!x[0].contains('>'));
    assert(!y[0].contains('>'));
    if x.len() >= 2 {
        lemma_join_front(x, "->"@);
        assert(j[l] == '-' && j[l + 1] == '>');
        assert(j.subrange(0, l) =~= x[0]);
    } else {
        assert(j == x[0]);
    }
    if y.len() >= 2 {
        lemma_join_front(y, "->"@);
        assert(j[m] == '-' && j[m + 1] == '>');
        assert(j.subrange(0, m) =~= y[0]);
    } else {
        assert(j == y[0]);
    }
    if x.len() == 1 && y.len() >= 2 {
        assert(x[0][m + 1] == '>');
    } else if y.len() == 1 && x.len() >= 2 {
        assert(y[0][l + 1] == '>');
    } else if x.len() >= 2 && y.len() >= 2 {
        if l < m {
            if l + 1 < m {
                assert(y[0][l + 1] == j[l + 1]);
            } else {
                assert(j[m] == '-');
            }
        } else if m < l {
            if m + 1 < l {
                assert(x[0][m + 1] == j[m + 1]);
            } else {
                assert(j[l] == '-');
            }
        }
    }
}

/// The material numbers around a cycle are material numbers of items.
proof fn lemma_cycle_materials(items: Seq<BomItem>, c: Seq<Seq<char>>)
    requires
        is_reference_cycle(items, c),
        no_arrow_heads(items),
    ensures
        forall|i: int| 0 <= i < c.len() ==> !(#[trigger] c[i]).contains('>'),
{
    assert forall|i: int| 0 <= i < c.len() implies !(#[trigger] c[i]).contains('>') by {
        let h = if i == 0 { c.len() - 1 } else { i - 1 };
        assert(parent_edge(items, c[h], next_in(c, h)));
        assert(next_in(c, h) == c[i]);
        let j = choose|j: int|
            0 <= j < items.len() && #[trigger] items[j].material_no@ == c[i] && opt_text(
                items[j].parent_material_no,
            ) == Some(c[h]);
        assert(!items[j].material_no@.contains('>'));
    }
}

/// Two cycles with the same key, whose material numbers hold no '>', start
/// at the same material number.
proof fn lemma_same_key_same_start(items: Seq<BomItem>, c2: Seq<Seq<char>>, d: Seq<Seq<char>>)
    requires
        no_arrow_heads(items),
        is_reference_cycle(items, c2),
        is_reference_cycle(items, d),
        cycle_key(c2) == cycle_key(d),
    ensures
        c2[0] == d[0],
{
    lemma_cycle_materials(items, c2);
    lemma_cycle_materials(items, d);
    lemma_join_first(c2, d);
}

/// When no material number holds '>', a cycle met through a key is met by
/// the reported cycle itself: it starts at one of the cycle's numbers.
pub proof fn lemma_met_by_report(items: Seq<BomItem>, s: Seq<IssueModel>, cs: Seq<Seq<Seq<char>>>, c: Seq<Seq<char>>)
    requires
        cycle_findings(items, s, cs),
        no_arrow_heads(items),
        is_reference_cycle(items, c),
    ensures
        exists|i: int, k: int| 0 <= i < c.len() && 0 <= k < cs.len() && #[trigger] cs[k][0] == #[trigger] c[i],
{
    reveal(cycle_findings);
    let (i, k) = choose|i: int, k: int|
        0 <= i < c.len() && 0 <= k < cs.len() && keyed_from(items, #[trigger] c[i], cycle_key(#[trigger] cs[k]));
    let d = cs[k];
    assert(s[k] == cycle_issue(cs[k]));
    assert(is_reference_cycle(items, d));
    let key = cycle_key(d);
    let x = c[i];
    assert(keyed_from(items, x, key));
    assert(exists|c2: Seq<Seq<char>>| is_reference_cycle(items, c2) && c2[0] == x && #[trigger] cycle_key(c2)
        == key) by {
        reveal(keyed_from);
    }
    let c2 = choose|c2: Seq<Seq<char>>| is_reference_cycle(items, c2) && c2[0] == x && #[trigger] cycle_key(c2) == key;
    lemma_same_key_same_start(items, c2, d);
    assert(cs[k][0] == c[i]);
}

/// Position `j` of `c` turned to start at `t`.
spec fn turned(j: int, t: int, n: int) -> int {
    if j + t < n {
        j + t
    } else {
        j + t - n
    }
}

proof fn lemma_turn_index<A>(c: Seq<A>, t: int, j: int)
    requires
        0 <= t < c.len(),
        0 <= j < c.len(),
    ensures
        (c.subrange(t, c.len() as int) + c.subrange(0, t))[j] == c[turned(j, t, c.len() as int)],
{
}

/// Two turns of one cycle go round the same cycle.
proof fn lemma_round_both<A>(c: Seq<A>, a: Seq<A>, b: Seq<A>)
    requires
        same_round(c, a),
        same_round(c, b),
    ensures
        same_round(a, b),
{
    let n = c.len() as int;
    let s1 = choose|s: int| 0 <= s < c.len() && a == c.subrange(s, n) + c.subrange(0, s);
    let s2 = choose|s: int| 0 <= s < c.len() && b == c.subrange(s, n) + c.subrange(0, s);
    let t = if s2 >= s1 { s2 - s1 } else { s2 - s1 + n };
    let r = a.subrange(t, n) + a.subrange(0, t);
    assert forall|i: int| 0 <= i < n implies #[trigger] r[i] == b[i] by {
        lemma_turn_index(a, t, i);
        lemma_turn_index(c, s1, turned(i, t, n));
        lemma_turn_index(c, s2, i);
    }
    assert(r =~= b);
}

proof fn lemma_finding_at(items: Seq<BomItem>, s: Seq<IssueModel>, cs: Seq<Seq<Seq<char>>>, k: int)
    requires
        cycle_findings(items, s, cs),
        0 <= k < s.len(),
    ensures
        is_reference_cycle(items, cs[k]),
        cs[k].no_duplicates(),
{
    reveal(cycle_findings);
    assert(s[k] == cycle_issue(cs[k]));
}

proof fn lemma_findings_apart(items: Seq<BomItem>, s: Seq<IssueModel>, cs: Seq<Seq<Seq<char>>>, k1: int, k2: int)
    requires
        cycle_findings(items, s, cs),
        0 <= k1 < s.len(),
        0 <= k2 < s.len(),
        k1 != k2,
    ensures
        !same_round(cs[k1], cs[k2]),
{
    reveal(cycle_findings);
}

/// A BOM whose parent references hold one cycle without repeats, however
/// it is entered, gets exactly one circular-reference finding.
pub proof fn lemma_one_cycle_one_finding(items: Seq<BomItem>, s: Seq<IssueModel>, c: Seq<Seq<char>>)
    requires
        cycle_report(items, s),
        is_reference_cycle(items, c),
        c.no_duplicates(),
        forall|d: Seq<Seq<char>>|
            #![trigger same_round(c, d)]
            is_reference_cycle(items, d) && d.no_duplicates() ==> same_round(c, d),
    ensures
        s.len() == 1,
{
    assert(has_reference_cycle(items));
    let cs = lemma_pick_findings(items, s);
    if s.len() >= 2 {
        lemma_finding_at(items, s, cs, 0);
        lemma_finding_at(items, s, cs, 1);
        assert(same_round(c, cs[0]));
        assert(same_round(c, cs[1]));
        lemma_round_both(c, cs[0], cs[1]);
        lemma_findings_apart(items, s, cs, 0, 1);
    }
}

/// The number of `false` entries.
pub open spec fn count_false(s: Seq<bool>) -> nat
    decreases s.len(),
{
    if s.len() == 0 {
        0
    } else {
        count_false(s.drop_last()) + if s.last() {
            0nat
        } else {
            1nat
        }
    }
}

proof fn lemma_count_false_le(a: Seq<bool>, b: Seq<bool>)
    requires
        a.len() == b.len(),
        forall|i: int| 0 <= i < a.len() && a[i] ==> b[i],
    ensures
        count_false(b) <= count_false(a),
    decreases a.len(),
{
    if a.len() > 0 {
        lemma_count_false_le(a.drop_last(), b.drop_last());
    }
}

proof fn lemma_count_false_set(a: Seq<bool>, i: int)
    requires
        0 <= i < a.len(),
        !a[i],
    ensures
        count_false(a.update(i, true)) < count_false(a),
    decreases a.len(),
{
    if i < a.len() - 1 {
        assert(a.update(i, true).drop_last() =~= a.drop_last().update(i, true));
        lemma_count_false_set(a.drop_last(), i);
    } else {
        assert(a.update(i, true).drop_last() =~= a.drop_last());
    }
}

/// The position of `a` in `s` (meaningful when `s` holds `a` once).
pub open spec fn pos(s: Seq<usize>, a: usize) -> int {
    choose|i: int| 0 <= i < s.len() && s[i] == a
}

proof fn lemma_pos(s: Seq<usize>, i: int)
    requires
        s.no_duplicates(),
        0 <= i < s.len(),
    ensures
        pos(s, s[i]) == i,
{
    let p = pos(s, s[i]);
    assert(0 <= p < s.len() && s[p] == s[i]);
}

/// The state of the search.
pub struct CycleSearch {
    pub nodes: Vec<String>,
    pub kids: Vec<Vec<usize>>,
    pub visited: Vec<bool>,
    pub path: Vec<usize>,
    pub found: Vec<String>,
    pub issues: Vec<ValidationIssue>,
    pub order: Ghost<Seq<usize>>,
    pub entered: Ghost<Seq<usize>>,
    pub cycles: Ghost<Seq<Seq<int>>>,
}

/// `b` goes round the same cycle as `a` (see `same_round`).
pub open spec fn rotated(a: Seq<int>, b: Seq<int>) -> bool {
    same_round(a, b)
}

impl CycleSearch {
    pub open spec fn m(&self) -> int {
        self.nodes@.len() as int
    }

    pub open spec fn child(&self, u: int, v: int) -> bool {
        self.kids@[u]@.contains(v as usize)
    }

    pub open spec fn black(&self, a: int) -> bool {
        self.order@.contains(a as usize)
    }

    pub open spec fn on_path(&self, a: int) -> bool {
        self.path@.contains(a as usize)
    }

    pub open spec fn graph_ok(&self) -> bool {
        &&& self.m() <= usize::MAX
        &&& self.kids@.len() == self.m()
        &&& self.visited@.len() == self.m()
        &&& forall|u: int, t: int|
            0 <= u < self.m() && 0 <= t < self.kids@[u]@.len() ==> #[trigger] self.kids@[u]@[t]
                < self.m()
    }

    /// `c` is a cycle of the child relation between node indices.
    pub open spec fn is_index_cycle(&self, c: Seq<int>) -> bool {
        &&& c.len() >= 1
        &&& forall|i: int| 0 <= i < c.len() ==> 0 <= #[trigger] c[i] < self.m()
        &&& forall|i: int| 0 <= i < c.len() ==> #[trigger] self.child(c[i], next_in(c, i))
    }

    /// The names of the nodes of `c`.
    pub open spec fn names(&self, c: Seq<int>) -> Seq<Seq<char>> {
        Seq::new(c.len(), |i: int| self.nodes@[c[i]]@)
    }

    /// The key of an index cycle.
    pub open spec fn key_of(&self, c: Seq<int>) -> Seq<char> {
        cycle_key(self.names(c))
    }

    /// A remembered key is that of a cycle starting at node `b`.
    pub open spec fn covered(&self, b: int) -> bool {
        exists|k: int, c: Seq<int>|
            #![trigger self.found@[k], self.key_of(c)]
            0 <= k < self.found@.len() && self.is_index_cycle(c) && c[0] == b && self.found@[k]@ == self.key_of(c)
    }

    /// When node `a` was entered.
    pub open spec fn epos(&self, a: int) -> int {
        pos(self.entered@, a as usize)
    }

    /// Each finished node's children finished before it, or a remembered
    /// key is that of a cycle starting at them.
    pub open spec fn finish_order_ok(&self) -> bool {
        forall|i: int, b: int|
            0 <= i < self.order@.len() && 0 <= b < self.m() && #[trigger] self.child(self.order@[i] as int, b)
                ==> self.order@.take(i).contains(b as usize) || self.covered(b)
    }

    /// The entered nodes are the visited ones, and the path goes in the
    /// order they were entered.
    pub open spec fn entry_ok(&self) -> bool {
        &&& self.entered@.no_duplicates()
        &&& forall|i: int| 0 <= i < self.entered@.len() ==> #[trigger] self.entered@[i] < self.m()
        &&& forall|a: int| 0 <= a < self.m() ==> (#[trigger] self.visited@[a] <==> self.entered@.contains(a as usize))
        &&& forall|i: int, j: int|
            #![trigger self.path@[i], self.path@[j]]
            0 <= i < j < self.path@.len() ==> self.epos(self.path@[i] as int) < self.epos(self.path@[j] as int)
    }

    /// Finding `k` reports the simple index cycle `cycles[k]`, remembered
    /// under its key, whose first node was entered before its others.
    pub open spec fn report_ok(&self, k: int) -> bool {
        let c = self.cycles@[k];
        &&& self.is_index_cycle(c)
        &&& c.no_duplicates()
        &&& self.issues@[k]@ == cycle_issue(self.names(c))
        &&& self.found@[k]@ == self.key_of(c)
        &&& forall|i: int|
            0 <= i < c.len() ==> self.entered@.contains(#[trigger] c[i] as usize) && self.epos(c[0]) <= self.epos(
                c[i],
            )
    }

    pub open spec fn reports_ok(&self) -> bool {
        &&& self.cycles@.len() == self.issues@.len()
        &&& self.found@.len() == self.issues@.len()
        &&& forall|k: int| 0 <= k < self.issues@.len() ==> #[trigger] self.report_ok(k)
        &&& forall|k1: int, k2: int|
            0 <= k1 < self.issues@.len() && 0 <= k2 < self.issues@.len() && k1 != k2 ==> !rotated(
                #[trigger] self.cycles@[k1],
                #[trigger] self.cycles@[k2],
            )
    }

    pub open spec fn state_ok(&self) -> bool {
        &&& self.graph_ok()
        &&& self.path@.no_duplicates()
        &&& self.order@.no_duplicates()
        &&& forall|i: int| 0 <= i < self.path@.len() ==> #[trigger] self.path@[i] < self.m()
        &&& forall|i: int| 0 <= i < self.order@.len() ==> #[trigger] self.order@[i] < self.m()
        &&& forall|a: int| 0 <= a < self.m() ==> (#[trigger] self.visited@[a] <==> (self.black(a) || self.on_path(a)))
        &&& forall|a: int| 0 <= a < self.m() ==> !(#[trigger] self.black(a) && self.on_path(a))
        &&& forall|i: int| 0 <= i < self.path@.len() - 1 ==> #[trigger] self.child(self.path@[i] as int, self.path@[i + 1] as int)
        &&& self.finish_order_ok()
        &&& self.entry_ok()
        &&& self.reports_ok()
    }
}

proof fn lemma_cycle_stable(a: CycleSearch, b: CycleSearch, c: Seq<int>)
    requires
        a.nodes == b.nodes,
        a.kids == b.kids,
        a.is_index_cycle(c),
    ensures
        b.is_index_cycle(c),
        a.names(c) == b.names(c),
        a.key_of(c) == b.key_of(c),
{
    assert forall|i: int| 0 <= i < c.len() implies #[trigger] b.child(c[i], next_in(c, i)) by {
        assert(a.child(c[i], next_in(c, i)));
    }
    assert(a.names(c) =~= b.names(c));
}

/// Remembered keys stay remembered as the list of keys grows.
proof fn lemma_covered_mono(a: CycleSearch, b: CycleSearch, x: int)
    requires
        a.nodes == b.nodes,
        a.kids == b.kids,
        b.found@.len() >= a.found@.len(),
        b.found@.take(a.found@.len() as int) == a.found@,
        a.covered(x),
    ensures
        b.covered(x),
{
    let (k, c) = choose|k: int, c: Seq<int>|
        #![trigger a.found@[k], a.key_of(c)]
        0 <= k < a.found@.len() && a.is_index_cycle(c) && c[0] == x && a.found@[k]@ == a.key_of(c);
    lemma_cycle_stable(a, b, c);
    assert(b.found@.take(a.found@.len() as int)[k] == b.found@[k]);
    assert(b.found@[k]@ == b.key_of(c));
}

/// Positions in a sequence without repeats stay as an element is added.
proof fn lemma_pos_push(s: Seq<usize>, x: usize, y: usize)
    requires
        s.push(x).no_duplicates(),
        s.contains(y),
    ensures
        pos(s.push(x), y) == pos(s, y),
        pos(s.push(x), x) == s.len(),
{
    let t = s.push(x);
    let i = choose|i: int| 0 <= i < s.len() && s[i] == y;
    assert(s.no_duplicates()) by {
        assert forall|a: int, b: int| 0 <= a < b < s.len() implies s[a] != s[b] by {
            assert(t[a] == s[a] && t[b] == s[b]);
        }
    }
    lemma_pos(s, i);
    assert(t[i] == s[i]);
    lemma_pos(t, i);
    assert(t[s.len() as int] == x);
    lemma_pos(t, s.len() as int);
}

/// A cycle whose first node was entered before its others, and whose key is
/// not remembered, goes round no reported cycle.
proof fn lemma_not_rotated(s: CycleSearch, c: Seq<int>, k: int)
    requires
        s.state_ok(),
        0 <= k < s.issues@.len(),
        c.len() >= 1,
        c.no_duplicates(),
        forall|i: int| 0 <= i < c.len() ==> s.entered@.contains(#[trigger] c[i] as usize) && s.epos(c[0]) <= s.epos(c[i]),
        forall|i: int| 0 <= i < c.len() ==> 0 <= #[trigger] c[i] < s.m(),
        s.found@[k]@ != s.key_of(c),
    ensures
        !rotated(s.cycles@[k], c),
        !rotated(c, s.cycles@[k]),
{
    let a = s.cycles@[k];
    assert(s.report_ok(k));
    let n = a.len() as int;
    assert(s.is_index_cycle(a));
    if rotated(a, c) {
        let t = choose|t: int| 0 <= t < a.len() && c == a.subrange(t, n) + a.subrange(0, t);
        if t == 0 {
            assert(c =~= a);
        } else {
            assert(c[0] == a[t]);
            assert(c[n - t] == a[0]);
            assert(s.epos(c[0]) <= s.epos(c[n - t]));
            assert(s.epos(a[0]) <= s.epos(a[t]));
            lemma_same_entry(s, a[0], a[t]);
        }
    }
    if rotated(c, a) {
        let t = choose|t: int| 0 <= t < c.len() && a == c.subrange(t, n) + c.subrange(0, t);
        if t == 0 {
            assert(c =~= a);
        } else {
            assert(a[0] == c[t]);
            assert(a[n - t] == c[0]);
            assert(s.epos(a[0]) <= s.epos(a[n - t]));
            assert(s.epos(c[0]) <= s.epos(c[t]));
            lemma_same_entry(s, c[0], c[t]);
        }
    }
}

/// Two entered nodes entered at the same time are the same node.
proof fn lemma_same_entry(s: CycleSearch, x: int, y: int)
    requires
        0 <= x < s.m(),
        0 <= y < s.m(),
        s.m() <= usize::MAX,
        s.entered@.contains(x as usize),
        s.entered@.contains(y as usize),
        s.epos(x) == s.epos(y),
    ensures
        x == y,
{
    let e = s.entered@;
    assert(0 <= pos(e, x as usize) < e.len() && e[pos(e, x as usize)] == x as usize);
    assert(0 <= pos(e, y as usize) < e.len() && e[pos(e, y as usize)] == y as usize);
}

/// Whether a string occurs in a list.
pub(crate) fn has_text(v: &Vec<String>, s: &String) -> (r: bool)
    ensures
        r == texts(v@).contains(s@),
{
    let mut i: usize = 0;
    while i < v.len()
        invariant
            i <= v@.len(),
            forall|j: int| 0 <= j < i ==> v@[j]@ != s@,
        decreases v@.len() - i,
    {
        if v[i] == *s {
            assert(texts(v@)[i as int] == s@);
            return true;
        }
        i = i + 1;
    }
    proof {
        if texts(v@).contains(s@) {
            let j = choose|j: int| 0 <= j < texts(v@).len() && texts(v@)[j] == s@;
            assert(v@[j]@ == s@);
        }
    }
    false
}

/// The names along the path from position `p` on.
pub open spec fn path_names(nodes: Seq<String>, path: Seq<usize>, p: int) -> Seq<Seq<char>> {
    Seq::new((path.len() - p) as nat, |i: int| nodes[path[p + i] as int]@)
}

proof fn lemma_contains_prefix(a: Seq<usize>, b: Seq<usize>, x: usize)
    requires
        b.len() >= a.len(),
        b.take(a.len() as int) == a,
        a.contains(x),
    ensures
        b.contains(x),
{
    let i = choose|i: int| 0 <= i < a.len() && a[i] == x;
    assert(b.take(a.len() as int)[i] == b[i]);
}

impl CycleSearch {
    /// The names of the path from position `p` on, joined by `sep`.
    fn join_path(&self, p: usize, sep: &str) -> (r: String)
        requires
            p < self.path@.len(),
            forall|i: int| 0 <= i < self.path@.len() ==> #[trigger] self.path@[i] < self.nodes@.len(),
        ensures
            r@ == join(path_names(self.nodes@, self.path@, p as int), sep@),
    {
        let n = self.path.len();
        let mut r = self.nodes[self.path[p]].clone();
        let mut k = p + 1;
        proof {
            assert(path_names(self.nodes@, self.path@.take(k as int), p as int) =~= seq![
                self.nodes@[self.path@[p as int] as int]@,
            ]);
        }
        while k < n
            invariant
                p < k <= n,
                n == self.path@.len(),
                forall|i: int| 0 <= i < self.path@.len() ==> #[trigger] self.path@[i] < self.nodes@.len(),
                r@ == join(path_names(self.nodes@, self.path@.take(k as int), p as int), sep@),
            decreases n - k,
        {
            let ghost before = path_names(self.nodes@, self.path@.take(k as int), p as int);
            r.append(sep);
            r.append(self.nodes[self.path[k]].as_str());
            k = k + 1;
            proof {
                let after = path_names(self.nodes@, self.path@.take(k as int), p as int);
                assert(after.drop_last() =~= before);
                assert(after.last() == self.nodes@[self.path@[k - 1] as int]@);
            }
        }
        assert(self.path@.take(n as int) =~= self.path@);
        r
    }

    /// Visits node `u` below the current path.
    fn dfs(&mut self, u: usize)
        requires
            old(self).state_ok(),
            (u as int) < old(self).m(),
            old(self).path@.len() > 0 ==> old(self).child(old(self).path@.last() as int, u as int),
        ensures
            final(self).state_ok(),
            final(self).nodes == old(self).nodes,
            final(self).kids == old(self).kids,
            final(self).path@ == old(self).path@,
            final(self).order@.len() >= old(self).order@.len(),
            final(self).order@.take(old(self).order@.len() as int) == old(self).order@,
            final(self).found@.len() >= old(self).found@.len(),
            final(self).found@.take(old(self).found@.len() as int) == old(self).found@,
            final(self).visited@.len() == old(self).visited@.len(),
            forall|a: int| 0 <= a < old(self).m() && old(self).visited@[a] ==> final(self).visited@[a],
            final(self).visited@[u as int],
            final(self).issues@.len() >= old(self).issues@.len(),
            final(self).black(u as int) || final(self).covered(u as int),
        decreases count_false(old(self).visited@),
    {
        proof {
            assert(self.order@.take(self.order@.len() as int) =~= self.order@);
            assert(self.found@.take(self.found@.len() as int) =~= self.found@);
        }
        let plen = self.path.len();
        let mut p: usize = 0;
        while p < plen && self.path[p] != u
            invariant
                plen == self.path@.len(),
                p <= plen,
                forall|q: int| 0 <= q < p ==> self.path@[q] != u,
            decreases plen - p,
        {
            p = p + 1;
        }
        if p < plen {
            let key = self.join_path(p, "->");
            let ghost c = Seq::new((plen - p) as nat, |i: int| self.path@[p + i] as int);
            proof {
                let nm = path_names(self.nodes@, self.path@, p as int);
                assert(self.names(c) =~= nm);
                assert forall|i: int| 0 <= i < c.len() implies #[trigger] self.child(c[i], next_in(c, i)) by {
                    if i + 1 < c.len() {
                        assert(self.child(self.path@[p + i] as int, self.path@[p + i + 1] as int));
                    } else {
                        assert(c[i] == self.path@.last() as int);
                    }
                }
                assert forall|i: int| 0 <= i < c.len() implies 0 <= #[trigger] c[i] < self.m() by {
                    assert(self.path@[p + i] < self.m());
                }
                assert(self.is_index_cycle(c));
                assert(c[0] == u as int);
                assert(key@ == self.key_of(c));
                assert(c.no_duplicates()) by {
                    assert forall|a: int, b: int| 0 <= a < b < c.len() implies c[a] != c[b] by {
                        assert(self.path@[p + a] != self.path@[p + b]);
                    }
                }
                assert forall|i: int| 0 <= i < c.len() implies self.entered@.contains(#[trigger] c[i] as usize)
                    && self.epos(c[0]) <= self.epos(c[i]) by {
                    assert(c[i] as usize == self.path@[p + i]);
                    assert(self.on_path(c[i]));
                    assert(self.visited@[c[i]]);
                    if i > 0 {
                        assert(self.epos(self.path@[p as int] as int) < self.epos(self.path@[p + i] as int));
                    }
                }
            }
            if !has_text(&self.found, &key) {
                let names = self.join_path(p, " -> ");
                let head = concat3("检测到循环引用: ", names.as_str(), " -> ");
                let message = concat2(head.as_str(), self.nodes[u].as_str());
                let issue = ValidationIssue {
                    level: IssueLevel::Error,
                    code: owned("CIRCULAR_REFERENCE"),
                    message,
                    material_no: Some(self.nodes[u].clone()),
                    field: Some(owned("父件关系")),
                };
                proof {
                    assert(self.names(c) =~= path_names(self.nodes@, self.path@, p as int));
                    assert(self.names(c)[0] == self.nodes@[u as int]@);
                    assert(issue@ == cycle_issue(self.names(c)));
                }
                let ghost pre = *self;
                self.found.push(key);
                self.issues.push(issue);
                proof {
                    self.cycles@ = self.cycles@.push(c);
                    assert(self.found@.drop_last() =~= pre.found@);
                    assert(self.issues@.drop_last() =~= pre.issues@);
                    lemma_report_added(pre, *self, c);
                    lemma_cycle_stable(pre, *self, c);
                    assert(self.found@[pre.found@.len() as int]@ == self.key_of(c));
                    assert(self.covered(u as int));
                    assert(self.found@.take(pre.found@.len() as int) =~= pre.found@);
                }
            } else {
                proof {
                    let k = choose|k: int| 0 <= k < texts(self.found@).len() && texts(self.found@)[k] == key@;
                    assert(self.found@[k]@ == self.key_of(c));
                    assert(self.covered(u as int));
                }
            }
            assert(self.visited@[u as int]) by {
                assert(self.path@[p as int] == u);
            }
            return;
        }
        if self.visited[u] {
            assert(self.black(u as int)) by {
                if self.on_path(u as int) {
                    let q = choose|q: int| 0 <= q < self.path@.len() && self.path@[q] == u;
                }
            }
            return;
        }
        proof {
            assert(!self.on_path(u as int));
            assert(!self.black(u as int));
            lemma_count_false_set(self.visited@, u as int);
        }
        let ghost start = *self;
        let ghost w = self.visited@.update(u as int, true);
        self.visited.set(u, true);
        self.path.push(u);
        proof {
            self.entered@ = self.entered@.push(u);
            lemma_enter(start, *self, u);
        }
        let nk = self.kids[u].len();
        let mut t: usize = 0;
        while t < nk
            invariant
                self.state_ok(),
                self.nodes == start.nodes,
                self.kids == start.kids,
                (u as int) < self.m(),
                nk == self.kids@[u as int]@.len(),
                t <= nk,
                self.path@ == start.path@.push(u),
                self.order@.len() >= start.order@.len(),
                self.order@.take(start.order@.len() as int) == start.order@,
                self.found@.len() >= start.found@.len(),
                self.found@.take(start.found@.len() as int) == start.found@,
                self.visited@.len() == w.len(),
                w == start.visited@.update(u as int, true),
                forall|a: int| 0 <= a < w.len() && w[a] ==> self.visited@[a],
                count_false(w) < count_false(start.visited@),
                start.visited@ == old(self).visited@,
                self.issues@.len() >= start.issues@.len(),
                forall|q: int|
                    0 <= q < t ==> #[trigger] self.black(self.kids@[u as int]@[q] as int) || self.covered(
                        self.kids@[u as int]@[q] as int,
                    ),
            decreases nk - t,
        {
            let v = self.kids[u][t];
            proof {
                lemma_count_false_le(w, self.visited@);
                assert(self.kids@[u as int]@[t as int] == v);
                assert(self.child(u as int, v as int));
                assert(self.path@.last() == u);
            }
            let ghost before = *self;
            self.dfs(v);
            proof {
                assert forall|q: int| 0 <= q < t + 1 implies #[trigger] self.black(self.kids@[u as int]@[q] as int)
                    || self.covered(self.kids@[u as int]@[q] as int) by {
                    if q < t {
                        let x = self.kids@[u as int]@[q];
                        if before.black(x as int) {
                            lemma_contains_prefix(before.order@, self.order@, x);
                        } else {
                            lemma_covered_mono(before, *self, x as int);
                        }
                    }
                }
                assert(self.order@.take(start.order@.len() as int) =~= start.order@) by {
                    assert forall|i: int| 0 <= i < start.order@.len() implies self.order@[i] == start.order@[i] by {
                        assert(before.order@.take(start.order@.len() as int)[i] == before.order@[i]);
                        assert(self.order@.take(before.order@.len() as int)[i] == self.order@[i]);
                    }
                }
                assert(self.found@.take(start.found@.len() as int) =~= start.found@) by {
                    assert forall|i: int| 0 <= i < start.found@.len() implies self.found@[i] == start.found@[i] by {
                        assert(before.found@.take(start.found@.len() as int)[i] == before.found@[i]);
                        assert(self.found@.take(before.found@.len() as int)[i] == self.found@[i]);
                    }
                }
            }
            t = t + 1;
        }
        let ghost mid = *self;
        self.path.pop();
        proof {
            self.order@ = self.order@.push(u);
            assert(self.path@ =~= start.path@);
            lemma_finish(start, mid, *self, u);
            assert(self.found@ == mid.found@);
            assert(self.order@.take(start.order@.len() as int) =~= start.order@) by {
                assert forall|i: int| 0 <= i < start.order@.len() implies self.order@[i] == start.order@[i] by {
                    assert(mid.order@.take(start.order@.len() as int)[i] == mid.order@[i]);
                }
            }
        }
    }
}

/// Reporting a new cycle keeps the search state consistent.
proof fn lemma_report_added(pre: CycleSearch, post: CycleSearch, c: Seq<int>)
    requires
        pre.state_ok(),
        post.nodes == pre.nodes,
        post.kids == pre.kids,
        post.visited@ == pre.visited@,
        post.path@ == pre.path@,
        post.order@ == pre.order@,
        post.entered@ == pre.entered@,
        post.cycles@ == pre.cycles@.push(c),
        post.found@.len() == pre.found@.len() + 1,
        post.found@.drop_last() == pre.found@,
        post.found@.last()@ == pre.key_of(c),
        post.issues@.len() == pre.issues@.len() + 1,
        post.issues@.drop_last() == pre.issues@,
        post.issues@.last()@ == cycle_issue(pre.names(c)),
        pre.is_index_cycle(c),
        c.no_duplicates(),
        forall|i: int| 0 <= i < c.len() ==> pre.entered@.contains(#[trigger] c[i] as usize) && pre.epos(c[0]) <= pre.epos(c[i]),
        !texts(pre.found@).contains(pre.key_of(c)),
    ensures
        post.state_ok(),
{
    let n = pre.issues@.len() as int;
    lemma_cycle_stable(pre, post, c);
    assert(post.found@.take(pre.found@.len() as int) =~= pre.found@);
    assert forall|i: int, b: int|
        0 <= i < post.order@.len() && 0 <= b < post.m() && #[trigger] post.child(post.order@[i] as int, b)
            implies post.order@.take(i).contains(b as usize) || post.covered(b) by {
        assert(pre.child(pre.order@[i] as int, b));
        if !pre.order@.take(i).contains(b as usize) {
            lemma_covered_mono(pre, post, b);
        }
    }
    assert forall|k: int| 0 <= k < post.issues@.len() implies #[trigger] post.report_ok(k) by {
        if k < n {
            assert(pre.report_ok(k));
            assert(post.cycles@[k] == pre.cycles@[k]);
            assert(post.issues@.drop_last()[k] == post.issues@[k]);
            assert(post.found@.drop_last()[k] == post.found@[k]);
            lemma_cycle_stable(pre, post, pre.cycles@[k]);
        } else {
            assert(post.cycles@[k] == c);
        }
    }
    assert forall|k1: int, k2: int|
        0 <= k1 < post.issues@.len() && 0 <= k2 < post.issues@.len() && k1 != k2 implies !rotated(
            #[trigger] post.cycles@[k1],
            #[trigger] post.cycles@[k2],
        ) by {
        if k1 < n && k2 < n {
            assert(post.cycles@[k1] == pre.cycles@[k1]);
            assert(post.cycles@[k2] == pre.cycles@[k2]);
        } else {
            let k = if k1 < n { k1 } else { k2 };
            assert(texts(pre.found@)[k] == pre.found@[k]@);
            assert(pre.found@[k]@ != pre.key_of(c));
            assert(forall|i: int| 0 <= i < c.len() ==> 0 <= #[trigger] c[i] < pre.m());
            lemma_not_rotated(pre, c, k);
            assert(post.cycles@[k] == pre.cycles@[k]);
        }
    }
    assert(post.entry_ok()) by {
        assert forall|i: int, j: int|
            #![trigger post.path@[i], post.path@[j]]
            0 <= i < j < post.path@.len() implies post.epos(post.path@[i] as int) < post.epos(post.path@[j] as int) by {
            assert(pre.epos(pre.path@[i] as int) < pre.epos(pre.path@[j] as int));
        }
    }
    assert(post.graph_ok());
    assert(post.finish_order_ok());
    assert(post.reports_ok());
    assert forall|a: int| 0 <= a < post.m() implies (#[trigger] post.visited@[a] <==> (post.black(a) || post.on_path(a))) by {
        assert(pre.visited@[a] <==> (pre.black(a) || pre.on_path(a)));
    }
    assert forall|a: int| 0 <= a < post.m() implies !(#[trigger] post.black(a) && post.on_path(a)) by {
        assert(!(pre.black(a) && pre.on_path(a)));
    }
    assert forall|i: int| 0 <= i < post.path@.len() - 1 implies #[trigger] post.child(post.path@[i] as int, post.path@[i + 1] as int) by {
        assert(pre.child(pre.path@[i] as int, pre.path@[i + 1] as int));
    }
}

/// Entering node `u` keeps the search state consistent.
proof fn lemma_enter(start: CycleSearch, post: CycleSearch, u: usize)
    requires
        start.state_ok(),
        (u as int) < start.m(),
        !start.visited@[u as int],
        start.path@.len() > 0 ==> start.child(start.path@.last() as int, u as int),
        post.nodes == start.nodes,
        post.kids == start.kids,
        post.visited@ == start.visited@.update(u as int, true),
        post.path@ == start.path@.push(u),
        post.order@ == start.order@,
        post.entered@ == start.entered@.push(u),
        post.found@ == start.found@,
        post.issues@ == start.issues@,
        post.cycles@ == start.cycles@,
    ensures
        post.state_ok(),
{
    assert(!start.on_path(u as int));
    assert(!start.black(u as int));
    assert(!start.entered@.contains(u));
    assert(post.entered@.no_duplicates()) by {
        assert forall|i: int, j: int| 0 <= i < j < post.entered@.len() implies post.entered@[i] != post.entered@[j] by {
            if j == start.entered@.len() {
                assert(start.entered@[i] == post.entered@[i]);
            } else {
                assert(start.entered@[i] == post.entered@[i]);
                assert(start.entered@[j] == post.entered@[j]);
            }
        }
    }
    assert(post.path@.no_duplicates()) by {
        assert forall|i: int, j: int| 0 <= i < j < post.path@.len() implies post.path@[i] != post.path@[j] by {
            if j == start.path@.len() {
                assert(start.path@[i] == post.path@[i]);
                assert(start.on_path(start.path@[i] as int));
            } else {
                assert(start.path@[i] == post.path@[i]);
                assert(start.path@[j] == post.path@[j]);
            }
        }
    }
    assert forall|a: int| 0 <= a < post.m() implies (#[trigger] post.visited@[a] <==> (post.black(a) || post.on_path(a))) by {
        assert(start.visited@[a] <==> (start.black(a) || start.on_path(a)));
        if a != u as int {
            assert(post.visited@[a] == start.visited@[a]);
            if post.on_path(a) {
                let q = choose|q: int| 0 <= q < post.path@.len() && post.path@[q] == a as usize;
                assert(q < start.path@.len());
                assert(start.path@[q] == a as usize);
            }
            if start.on_path(a) {
                let q = choose|q: int| 0 <= q < start.path@.len() && start.path@[q] == a as usize;
                assert(post.path@[q] == a as usize);
            }
        } else {
            assert(post.path@[post.path@.len() - 1] == u);
        }
    }
    assert forall|a: int| 0 <= a < post.m() implies !(#[trigger] post.black(a) && post.on_path(a)) by {
        assert(!(start.black(a) && start.on_path(a)));
        if post.on_path(a) && a != u as int {
            let q = choose|q: int| 0 <= q < post.path@.len() && post.path@[q] == a as usize;
            assert(q < start.path@.len());
            assert(start.path@[q] == a as usize);
            assert(start.on_path(a));
        }
    }
    assert forall|i: int| 0 <= i < post.path@.len() - 1 implies #[trigger] post.child(post.path@[i] as int, post.path@[i + 1] as int) by {
        if i < start.path@.len() - 1 {
            assert(start.child(start.path@[i] as int, start.path@[i + 1] as int));
        }
    }
    assert(post.found@.take(start.found@.len() as int) =~= start.found@);
    assert forall|i: int, b: int|
        0 <= i < post.order@.len() && 0 <= b < post.m() && #[trigger] post.child(post.order@[i] as int, b)
            implies post.order@.take(i).contains(b as usize) || post.covered(b) by {
        assert(start.child(start.order@[i] as int, b));
        if !start.order@.take(i).contains(b as usize) {
            lemma_covered_mono(start, post, b);
        }
    }
    assert forall|a: int| 0 <= a < post.m() implies (#[trigger] post.visited@[a] <==> post.entered@.contains(a as usize)) by {
        assert(start.visited@[a] <==> start.entered@.contains(a as usize));
        if a != u as int {
            if post.entered@.contains(a as usize) {
                let q = choose|q: int| 0 <= q < post.entered@.len() && post.entered@[q] == a as usize;
                assert(start.entered@[q] == a as usize);
            }
            if start.entered@.contains(a as usize) {
                let q = choose|q: int| 0 <= q < start.entered@.len() && start.entered@[q] == a as usize;
                assert(post.entered@[q] == a as usize);
            }
        } else {
            assert(post.entered@[start.entered@.len() as int] == u);
        }
    }
    assert forall|i: int, j: int|
        #![trigger post.path@[i], post.path@[j]]
        0 <= i < j < post.path@.len() implies post.epos(post.path@[i] as int) < post.epos(post.path@[j] as int) by {
        let x = post.path@[i];
        assert(x == start.path@[i]);
        assert(start.on_path(x as int));
        assert(start.visited@[x as int]);
        assert(start.entered@.contains(x));
        lemma_pos_push(start.entered@, u, x);
        let px = pos(start.entered@, x);
        assert(0 <= px < start.entered@.len());
        if j < start.path@.len() {
            let y = post.path@[j];
            assert(y == start.path@[j]);
            assert(start.on_path(y as int));
            assert(start.visited@[y as int]);
            lemma_pos_push(start.entered@, u, y);
            assert(start.epos(start.path@[i] as int) < start.epos(start.path@[j] as int));
        } else {
            assert(post.path@[j] == u);
        }
    }
    assert forall|k: int| 0 <= k < post.issues@.len() implies #[trigger] post.report_ok(k) by {
        assert(start.report_ok(k));
        let c = start.cycles@[k];
        lemma_cycle_stable(start, post, c);
        assert forall|i: int| 0 <= i < c.len() implies post.entered@.contains(#[trigger] c[i] as usize)
            && post.epos(c[0]) <= post.epos(c[i]) by {
            assert(start.entered@.contains(c[i] as usize));
            assert(start.entered@.contains(c[0] as usize));
            lemma_pos_push(start.entered@, u, c[i] as usize);
            lemma_pos_push(start.entered@, u, c[0] as usize);
            let q = choose|q: int| 0 <= q < start.entered@.len() && start.entered@[q] == c[i] as usize;
            assert(post.entered@[q] == c[i] as usize);
        }
    }
}

/// Finishing node `u` keeps the search state consistent.
proof fn lemma_finish(start: CycleSearch, mid: CycleSearch, post: CycleSearch, u: usize)
    requires
        mid.state_ok(),
        (u as int) < mid.m(),
        mid.path@ == start.path@.push(u),
        post.nodes == mid.nodes,
        post.kids == mid.kids,
        post.visited@ == mid.visited@,
        post.path@ == start.path@,
        post.order@ == mid.order@.push(u),
        post.entered@ == mid.entered@,
        post.found@ == mid.found@,
        post.issues@ == mid.issues@,
        post.cycles@ == mid.cycles@,
        forall|q: int|
            0 <= q < mid.kids@[u as int]@.len() ==> #[trigger] mid.black(mid.kids@[u as int]@[q] as int) || mid.covered(
                mid.kids@[u as int]@[q] as int,
            ),
    ensures
        post.state_ok(),
        post.black(u as int),
{
    let old_len = mid.order@.len();
    assert(post.found@.take(mid.found@.len() as int) =~= mid.found@);
    assert(mid.on_path(u as int)) by {
        assert(mid.path@[mid.path@.len() - 1] == u);
    }
    assert(!mid.order@.contains(u)) by {
        assert(!(mid.black(u as int) && mid.on_path(u as int)));
    }
    assert(post.order@.no_duplicates());
    assert(post.black(u as int)) by {
        assert(post.order@[old_len as int] == u);
    }
    assert forall|a: int| 0 <= a < post.m() implies (#[trigger] post.visited@[a] <==> (post.black(a) || post.on_path(a))) by {
        assert(mid.visited@[a] <==> (mid.black(a) || mid.on_path(a)));
        if a != u {
            if post.black(a) {
                let q = choose|q: int| 0 <= q < post.order@.len() && post.order@[q] == a as usize;
                assert(mid.order@[q] == a as usize);
                assert(mid.black(a));
            }
            if mid.black(a) {
                let q = choose|q: int| 0 <= q < mid.order@.len() && mid.order@[q] == a as usize;
                assert(post.order@[q] == a as usize);
            }
            if mid.on_path(a) {
                let q = choose|q: int| 0 <= q < mid.path@.len() && mid.path@[q] == a as usize;
                assert(q < post.path@.len());
                assert(post.path@[q] == a as usize);
            }
            if post.on_path(a) {
                let q = choose|q: int| 0 <= q < post.path@.len() && post.path@[q] == a as usize;
                assert(mid.path@[q] == a as usize);
            }
        }
    }
    assert forall|a: int| 0 <= a < post.m() implies !(#[trigger] post.black(a) && post.on_path(a)) by {
        if post.on_path(a) {
            let q = choose|q: int| 0 <= q < post.path@.len() && post.path@[q] == a as usize;
            assert(mid.path@[q] == a as usize);
            assert(mid.on_path(a));
            if a == u {
                assert(start.path@.push(u)[q] == u);
                assert(start.path@.push(u)[start.path@.len() as int] == u);
            } else {
                if post.black(a) {
                    let r = choose|r: int| 0 <= r < post.order@.len() && post.order@[r] == a as usize;
                    assert(mid.order@[r] == a as usize);
                    assert(mid.black(a));
                }
            }
        }
    }
    assert forall|i: int| 0 <= i < post.path@.len() - 1 implies #[trigger] post.child(post.path@[i] as int, post.path@[i + 1] as int) by {
        assert(mid.child(mid.path@[i] as int, mid.path@[i + 1] as int));
    }
    assert forall|i: int, b: int|
        0 <= i < post.order@.len() && 0 <= b < post.m() && #[trigger] post.child(post.order@[i] as int, b)
            implies post.order@.take(i).contains(b as usize) || post.covered(b) by {
        if i < old_len {
            assert(post.order@.take(i) =~= mid.order@.take(i));
            assert(mid.order@[i] == post.order@[i]);
            assert(mid.child(mid.order@[i] as int, b));
            if !mid.order@.take(i).contains(b as usize) {
                lemma_covered_mono(mid, post, b);
            }
        } else {
            assert(post.order@[i] == u);
            assert(post.order@.take(i) =~= mid.order@);
            let q = choose|q: int| 0 <= q < post.kids@[u as int]@.len() && post.kids@[u as int]@[q] == b as usize;
            assert(mid.kids@[u as int]@[q] == b as usize);
            assert(0 <= b < mid.m()) by {
                assert(mid.kids@[u as int]@[q] < mid.m());
            }
            assert(mid.kids@[u as int]@[q] as int == b);
            assert(mid.black(mid.kids@[u as int]@[q] as int) || mid.covered(mid.kids@[u as int]@[q] as int));
            if !mid.black(b) {
                lemma_covered_mono(mid, post, b);
            }
        }
    }
    assert forall|i: int, j: int|
        #![trigger post.path@[i], post.path@[j]]
        0 <= i < j < post.path@.len() implies post.epos(post.path@[i] as int) < post.epos(post.path@[j] as int) by {
        assert(post.path@[i] == mid.path@[i]);
        assert(post.path@[j] == mid.path@[j]);
        assert(mid.epos(mid.path@[i] as int) < mid.epos(mid.path@[j] as int));
    }
    assert forall|k: int| 0 <= k < post.issues@.len() implies #[trigger] post.report_ok(k) by {
        assert(mid.report_ok(k));
        lemma_cycle_stable(mid, post, mid.cycles@[k]);
    }
    assert forall|k1: int, k2: int|
        0 <= k1 < post.issues@.len() && 0 <= k2 < post.issues@.len() && k1 != k2 implies !rotated(
            #[trigger] post.cycles@[k1],
            #[trigger] post.cycles@[k2],
        ) by {
        assert(!rotated(mid.cycles@[k1], mid.cycles@[k2]));
    }
    assert(post.path@.no_duplicates()) by {
        assert forall|i: int, j: int| 0 <= i < j < post.path@.len() implies post.path@[i] != post.path@[j] by {
            assert(mid.path@[i] == post.path@[i]);
            assert(mid.path@[j] == post.path@[j]);
        }
    }
    assert forall|i: int| 0 <= i < post.path@.len() implies #[trigger] post.path@[i] < post.m() by {
        assert(mid.path@[i] == post.path@[i]);
    }
    assert forall|i: int| 0 <= i < post.order@.len() implies #[trigger] post.order@[i] < post.m() by {
        if i < old_len {
            assert(mid.order@[i] == post.order@[i]);
        }
    }
    assert(post.graph_ok());
    assert(post.finish_order_ok());
    assert(post.reports_ok());
    assert(post.entry_ok());
}

/// A node's position in the finish order comes after that of its children,
/// unless a remembered key is that of a cycle starting at the child.
proof fn lemma_pos_next(s: CycleSearch, c: Seq<int>, i: int)
    requires
        s.state_ok(),
        s.is_index_cycle(c),
        0 <= i < c.len(),
        !s.covered(next_in(c, i)),
        forall|a: int| 0 <= a < s.m() ==> #[trigger] s.black(a),
    ensures
        pos(s.order@, next_in(c, i) as usize) < pos(s.order@, c[i] as usize),
{
    let o = s.order@;
    let x = c[i];
    let y = next_in(c, i);
    assert(0 <= x < s.m());
    assert(0 <= y < s.m()) by {
        if i + 1 < c.len() {
            assert(0 <= c[i + 1] < s.m());
        } else {
            assert(0 <= c[0] < s.m());
        }
    }
    assert(s.black(x));
    assert(s.black(y));
    let px = pos(o, x as usize);
    assert(0 <= px < o.len() && o[px] == x as usize);
    assert(s.child(o[px] as int, y));
    assert(o.take(px).contains(y as usize));
    let j = choose|j: int| 0 <= j < o.take(px).len() && o.take(px)[j] == y as usize;
    assert(o[j] == y as usize);
    lemma_pos(o, j);
}

proof fn lemma_pos_chain(s: CycleSearch, c: Seq<int>, i: int)
    requires
        s.state_ok(),
        s.is_index_cycle(c),
        0 <= i < c.len(),
        forall|j: int| 0 <= j < c.len() ==> !s.covered(#[trigger] next_in(c, j)),
        forall|a: int| 0 <= a < s.m() ==> #[trigger] s.black(a),
    ensures
        pos(s.order@, c[i] as usize) <= pos(s.order@, c[0] as usize) - i,
    decreases i,
{
    if i > 0 {
        lemma_pos_chain(s, c, i - 1);
        lemma_pos_next(s, c, i - 1);
    }
}

/// Once every node is finished, some node of each cycle has a remembered
/// key of a cycle starting at it.
proof fn lemma_cycle_covered(s: CycleSearch, c: Seq<int>) -> (i: int)
    requires
        s.state_ok(),
        s.is_index_cycle(c),
        forall|a: int| 0 <= a < s.m() ==> #[trigger] s.black(a),
    ensures
        0 <= i < c.len(),
        s.covered(next_in(c, i)),
{
    if exists|j: int| 0 <= j < c.len() && s.covered(#[trigger] next_in(c, j)) {
        choose|j: int| 0 <= j < c.len() && s.covered(#[trigger] next_in(c, j))
    } else {
        let k = c.len() - 1;
        lemma_pos_chain(s, c, k);
        lemma_pos_next(s, c, k);
        0
    }
}

/// The position of the node named `x`.
fn node_index(nodes: &Vec<String>, x: &String) -> (r: usize)
    requires
        texts(nodes@).contains(x@),
    ensures
        (r as int) < nodes@.len(),
        nodes@[r as int]@ == x@,
{
    let mut i: usize = 0;
    while i < nodes.len()
        invariant
            i <= nodes@.len(),
            texts(nodes@).contains(x@),
            forall|j: int| 0 <= j < i ==> nodes@[j]@ != x@,
        decreases nodes@.len() - i,
    {
        if nodes[i] == *x {
            return i;
        }
        i = i + 1;
    }
    proof {
        let j = choose|j: int| 0 <= j < texts(nodes@).len() && texts(nodes@)[j] == x@;
        assert(nodes@[j]@ == x@);
    }
    0
}

/// The distinct material numbers of the items, in order of first occurrence.
fn material_nodes(items: &Vec<BomItem>) -> (nodes: Vec<String>)
    ensures
        texts(nodes@).no_duplicates(),
        forall|x: Seq<char>|
            texts(nodes@).contains(x) <==> exists|j: int|
                0 <= j < items@.len() && #[trigger] items@[j].material_no@ == x,
{
    let mut nodes: Vec<String> = Vec::new();
    let mut i: usize = 0;
    while i < items.len()
        invariant
            i <= items@.len(),
            texts(nodes@).no_duplicates(),
            forall|x: Seq<char>|
                texts(nodes@).contains(x) <==> exists|j: int|
                    0 <= j < i && #[trigger] items@[j].material_no@ == x,
        decreases items@.len() - i,
    {
        let ghost before = texts(nodes@);
        if !has_text(&nodes, &items[i].material_no) {
            nodes.push(items[i].material_no.clone());
            proof {
                assert(texts(nodes@) =~= before.push(items@[i as int].material_no@));
            }
        }
        proof {
            let no = items@[i as int].material_no@;
            assert forall|x: Seq<char>|
                texts(nodes@).contains(x) <==> exists|j: int|
                    0 <= j < i + 1 && #[trigger] items@[j].material_no@ == x by {
                if texts(nodes@).contains(x) {
                    let k = choose|k: int| 0 <= k < texts(nodes@).len() && texts(nodes@)[k] == x;
                    if k < before.len() {
                        assert(before[k] == x);
                        assert(before.contains(x));
                    } else {
                        assert(items@[i as int].material_no@ == x);
                    }
                }
                if exists|j: int| 0 <= j < i + 1 && #[trigger] items@[j].material_no@ == x {
                    let j = choose|j: int| 0 <= j < i + 1 && #[trigger] items@[j].material_no@ == x;
                    if j < i {
                        assert(before.contains(x));
                        let k = choose|k: int| 0 <= k < before.len() && before[k] == x;
                        assert(texts(nodes@)[k] == x);
                    } else if !before.contains(no) {
                        assert(texts(nodes@)[before.len() as int] == x);
                    }
                }
            }
        }
        i = i + 1;
    }
    nodes
}

/// `r` lists exactly the nodes of the items before `j` whose parent is `un`.
pub open spec fn kids_so_far(
    items: Seq<BomItem>,
    nodes: Seq<String>,
    un: Seq<char>,
    r: Seq<usize>,
    j: int,
) -> bool {
    forall|w: int| #![trigger nodes[w]]
        0 <= w < nodes.len() ==> (r.contains(w as usize) <==> (has_kid_item(
            items,
            un,
            nodes[w]@,
            j,
        )))
}


/// An item before `j` has material number `x` and parent `un`.
pub open spec fn has_kid_item(items: Seq<BomItem>, un: Seq<char>, x: Seq<char>, j: int) -> bool {
    un.len() > 0 && exists|k: int|
        0 <= k < j && #[trigger] items[k].material_no@ == x && opt_text(items[k].parent_material_no)
            == Some(un)
}

proof fn lemma_kids_inst(items: Seq<BomItem>, nodes: Seq<String>, un: Seq<char>, r: Seq<usize>, j: int, w: int)
    requires
        kids_so_far(items, nodes, un, r, j),
        0 <= w < nodes.len(),
    ensures
        r.contains(w as usize) <==> (has_kid_item(items, un, nodes[w]@, j)),
{
    let x = nodes[w];
}

proof fn lemma_kids_step(
    items: Seq<BomItem>,
    nodes: Seq<String>,
    un: Seq<char>,
    before: Seq<usize>,
    r: Seq<usize>,
    j: int,
    take: bool,
)
    requires
        kids_so_far(items, nodes, un, before, j),
        0 <= j < items.len(),
        nodes.len() <= usize::MAX,
        texts(nodes).no_duplicates(),
        take == (un.len() > 0 && opt_text(items[j].parent_material_no) == Some(un)),
        take ==> r.len() == before.len() + 1 && r.drop_last() == before && r.last() < nodes.len()
            && nodes[r.last() as int]@ == items[j].material_no@,
        !take ==> r == before,
    ensures
        kids_so_far(items, nodes, un, r, j + 1),
{
    assert forall|w: int| #![trigger nodes[w]]
        0 <= w < nodes.len() implies (r.contains(w as usize) <==> (has_kid_item(
            items,
            un,
            nodes[w]@,
            j + 1,
        ))) by {
        lemma_kids_inst(items, nodes, un, before, j, w);
        if has_kid_item(items, un, nodes[w]@, j) {
            let k = choose|k: int|
                0 <= k < j && #[trigger] items[k].material_no@ == nodes[w]@ && opt_text(
                    items[k].parent_material_no,
                ) == Some(un);
            assert(items[k].material_no@ == nodes[w]@);
        }
        if take {
            let w0 = r.last();
            if r.contains(w as usize) {
                let t = choose|t: int| 0 <= t < r.len() && r[t] == w as usize;
                if t < before.len() {
                    assert(r.drop_last()[t] == r[t]);
                    assert(before.contains(w as usize));
                } else {
                    assert(w as usize == w0);
                    assert(items[j].material_no@ == nodes[w]@);
                }
            }
            if has_kid_item(items, un, nodes[w]@, j + 1) {
                let k = choose|k: int|
                    0 <= k < j + 1 && #[trigger] items[k].material_no@ == nodes[w]@ && opt_text(
                        items[k].parent_material_no,
                    ) == Some(un);
                if k < j {
                    assert(has_kid_item(items, un, nodes[w]@, j));
                    assert(before.contains(w as usize));
                    let t = choose|t: int| 0 <= t < before.len() && before[t] == w as usize;
                    assert(r.drop_last()[t] == r[t]);
                    assert(r.contains(w as usize));
                } else {
                    assert(texts(nodes)[w] == texts(nodes)[w0 as int]);
                    assert(w == w0 as int);
                    assert(r[r.len() - 1] == w as usize);
                }
            }
        } else {
            if has_kid_item(items, un, nodes[w]@, j + 1) {
                let k = choose|k: int|
                    0 <= k < j + 1 && #[trigger] items[k].material_no@ == nodes[w]@ && opt_text(
                        items[k].parent_material_no,
                    ) == Some(un);
                assert(k != j);
                assert(has_kid_item(items, un, nodes[w]@, j));
            }
        }
    }
}

/// The item's parent is the non-empty `name`.
pub(crate) fn parent_is(item: &BomItem, name: &String) -> (r: bool)
    ensures
        r == (name@.len() > 0 && opt_text(item.parent_material_no) == Some(name@)),
{
    match &item.parent_material_no {
        Some(pp) => !pp.as_str().is_empty() && *pp == *name,
        None => false,
    }
}

/// The children of node `u`: the nodes of the items whose parent is `u`.
fn node_kids(items: &Vec<BomItem>, nodes: &Vec<String>, u: usize) -> (r: Vec<usize>)
    requires
        (u as int) < nodes@.len(),
        texts(nodes@).no_duplicates(),
        forall|x: Seq<char>|
            texts(nodes@).contains(x) <==> exists|j: int|
                0 <= j < items@.len() && #[trigger] items@[j].material_no@ == x,
    ensures
        forall|t: int| 0 <= t < r@.len() ==> #[trigger] r@[t] < nodes@.len(),
        forall|w: int|
            0 <= w < nodes@.len() ==> (r@.contains(w as usize) <==> parent_edge(
                items@,
                nodes@[u as int]@,
                nodes@[w]@,
            )),
{
    let ghost un = nodes@[u as int]@;
    let nl = nodes.len();
    let mut r: Vec<usize> = Vec::new();
    let mut j: usize = 0;
    while j < items.len()
        invariant
            nl == nodes@.len(),
            j <= items@.len(),
            (u as int) < nodes@.len(),
            un == nodes@[u as int]@,
            texts(nodes@).no_duplicates(),
            forall|x: Seq<char>|
                texts(nodes@).contains(x) <==> exists|k: int|
                    0 <= k < items@.len() && #[trigger] items@[k].material_no@ == x,
            forall|t: int| 0 <= t < r@.len() ==> #[trigger] r@[t] < nodes@.len(),
            kids_so_far(items@, nodes@, un, r@, j as int),
        decreases items@.len() - j,
    {
        let ghost before = r@;
        let take = parent_is(&items[j], &nodes[u]);
        if take {
            proof {
                assert(texts(nodes@).contains(items@[j as int].material_no@)) by {
                    assert(items@[j as int].material_no@ == items@[j as int].material_no@);
                }
            }
            let w = node_index(nodes, &items[j].material_no);
            r.push(w);
            assert(r@.drop_last() =~= before);
        }
        proof {
            lemma_kids_step(items@, nodes@, un, before, r@, j as int, take);
        }
        j = j + 1;
    }
    r
}

/// Looks for circular parent references: searches depth first from every
/// material number, in order of first occurrence, and reports each cycle
/// met through a material number already on the search path, unless a cycle
/// with the same key (its path joined by "->") was reported already. Every
/// cycle of the parent relation is met this way, and no cycle is reported
/// twice, from the same or another starting point.
pub fn find_cycles(items: &Vec<BomItem>) -> (r: Vec<ValidationIssue>)
    ensures
        cycle_report(items@, issue_views(r@)),
{
    let nodes = material_nodes(items);
    let m = nodes.len();
    let mut kids: Vec<Vec<usize>> = Vec::new();
    let mut u: usize = 0;
    while u < m
        invariant
            m == nodes@.len(),
            u <= m,
            kids@.len() == u,
            texts(nodes@).no_duplicates(),
            forall|x: Seq<char>|
                texts(nodes@).contains(x) <==> exists|j: int|
                    0 <= j < items@.len() && #[trigger] items@[j].material_no@ == x,
            forall|a: int, t: int| 0 <= a < u && 0 <= t < kids@[a]@.len() ==> #[trigger] kids@[a]@[t] < m,
            forall|a: int, w: int|
                0 <= a < u && 0 <= w < m ==> (#[trigger] kids@[a]@.contains(w as usize) <==> parent_edge(
                    items@,
                    nodes@[a]@,
                    nodes@[w]@,
                )),
        decreases m - u,
    {
        let k = node_kids(items, &nodes, u);
        kids.push(k);
        u = u + 1;
    }
    let mut visited: Vec<bool> = Vec::new();
    let mut i: usize = 0;
    while i < m
        invariant
            i <= m,
            visited@.len() == i,
            forall|a: int| 0 <= a < i ==> !#[trigger] visited@[a],
        decreases m - i,
    {
        visited.push(false);
        i = i + 1;
    }
    let mut search = CycleSearch {
        nodes,
        kids,
        visited,
        path: Vec::new(),
        found: Vec::new(),
        issues: Vec::new(),
        order: Ghost(Seq::empty()),
        entered: Ghost(Seq::empty()),
        cycles: Ghost(Seq::empty()),
    };
    assert(search.state_ok());
    let mut s: usize = 0;
    while s < m
        invariant
            m == search.m(),
            s <= m,
            search.state_ok(),
            search.path@.len() == 0,
            texts(search.nodes@).no_duplicates(),
            forall|x: Seq<char>|
                texts(search.nodes@).contains(x) <==> exists|j: int|
                    0 <= j < items@.len() && #[trigger] items@[j].material_no@ == x,
            forall|a: int, w: int|
                0 <= a < m && 0 <= w < m ==> (#[trigger] search.kids@[a]@.contains(w as usize) <==> parent_edge(
                    items@,
                    search.nodes@[a]@,
                    search.nodes@[w]@,
                )),
            forall|a: int| 0 <= a < s ==> #[trigger] search.visited@[a],
        decreases m - s,
    {
        search.dfs(s);
        s = s + 1;
    }
    proof {
        assert forall|a: int| 0 <= a < m implies #[trigger] search.black(a) by {
            assert(search.visited@[a]);
            if search.on_path(a) {
                let q = choose|q: int| 0 <= q < search.path@.len() && search.path@[q] == a as usize;
            }
        }
        lemma_findings(search, items@);
        lemma_report_from_findings(items@, issue_views(search.issues@), search.reported_names());
    }
    search.issues
}

impl CycleSearch {
    /// The names around the reported cycles.
    pub open spec fn reported_names(&self) -> Seq<Seq<Seq<char>>> {
        Seq::new(self.cycles@.len(), |k: int| self.names(self.cycles@[k]))
    }
}

/// The reported cycles are simple cycles of the parent relation, reported
/// by their findings, no two going round the same cycle.
proof fn lemma_reports_named(search: CycleSearch, items: Seq<BomItem>)
    requires
        search.state_ok(),
        texts(search.nodes@).no_duplicates(),
        forall|x: Seq<char>|
            texts(search.nodes@).contains(x) <==> exists|j: int|
                0 <= j < items.len() && #[trigger] items[j].material_no@ == x,
        forall|a: int, w: int|
            0 <= a < search.m() && 0 <= w < search.m() ==> (#[trigger] search.kids@[a]@.contains(w as usize) <==> parent_edge(
                items,
                search.nodes@[a]@,
                search.nodes@[w]@,
            )),
    ensures
        cycle_findings_sound(items, issue_views(search.issues@), search.reported_names()),
{
    let iv = issue_views(search.issues@);
    let cycles = search.cycles@;
    let cs = search.reported_names();
    assert forall|k: int| 0 <= k < iv.len() implies is_reference_cycle(items, #[trigger] cs[k])
        && cs[k].no_duplicates() && iv[k] == cycle_issue(cs[k]) by {
        assert(search.report_ok(k));
        lemma_names_cycle(search, items, cycles[k]);
    }
    assert forall|k1: int, k2: int|
        0 <= k1 < cs.len() && 0 <= k2 < cs.len() && k1 != k2 implies !same_round(#[trigger] cs[k1], #[trigger] cs[k2]) by {
        assert(search.report_ok(k1));
        assert(search.report_ok(k2));
        if same_round(cs[k1], cs[k2]) {
            lemma_round_names(search, cycles[k1], cycles[k2]);
            assert(!rotated(cycles[k1], cycles[k2]));
        }
    }
}

/// Once every node is finished, every cycle of the parent relation is met.
proof fn lemma_cycle_met(search: CycleSearch, items: Seq<BomItem>, tc: Seq<Seq<char>>)
    requires
        search.state_ok(),
        texts(search.nodes@).no_duplicates(),
        forall|x: Seq<char>|
            texts(search.nodes@).contains(x) <==> exists|j: int|
                0 <= j < items.len() && #[trigger] items[j].material_no@ == x,
        forall|a: int, w: int|
            0 <= a < search.m() && 0 <= w < search.m() ==> (#[trigger] search.kids@[a]@.contains(w as usize) <==> parent_edge(
                items,
                search.nodes@[a]@,
                search.nodes@[w]@,
            )),
        forall|a: int| 0 <= a < search.m() ==> #[trigger] search.black(a),
        is_reference_cycle(items, tc),
    ensures
        exists|i: int, k: int|
            0 <= i < tc.len() && 0 <= k < search.reported_names().len() && keyed_from(
                items,
                #[trigger] tc[i],
                cycle_key(#[trigger] search.reported_names()[k]),
            ),
{
    let cs = search.reported_names();
    let ic = lemma_index_cycle(search, items, tc);
    let i = lemma_cycle_covered(search, ic);
    let x = next_in(ic, i);
    let (k, c2) = choose|k: int, c2: Seq<int>|
        #![trigger search.found@[k], search.key_of(c2)]
        0 <= k < search.found@.len() && search.is_index_cycle(c2) && c2[0] == x && search.found@[k]@
            == search.key_of(c2);
    let i2 = if i + 1 < tc.len() { i + 1 } else { 0 };
    assert(x == ic[i2]);
    lemma_names_cycle(search, items, c2);
    assert(search.names(c2)[0] == tc[i2]);
    assert(search.report_ok(k));
    assert(cycle_key(search.names(c2)) == cycle_key(cs[k]));
    assert(keyed_from(items, tc[i2], cycle_key(cs[k]))) by {
        reveal(keyed_from);
    }
}

/// Once every node is finished, the findings report the cycles the search
/// recorded, as `cycle_findings` describes.
proof fn lemma_findings(search: CycleSearch, items: Seq<BomItem>)
    requires
        search.state_ok(),
        texts(search.nodes@).no_duplicates(),
        forall|x: Seq<char>|
            texts(search.nodes@).contains(x) <==> exists|j: int|
                0 <= j < items.len() && #[trigger] items[j].material_no@ == x,
        forall|a: int, w: int|
            0 <= a < search.m() && 0 <= w < search.m() ==> (#[trigger] search.kids@[a]@.contains(w as usize) <==> parent_edge(
                items,
                search.nodes@[a]@,
                search.nodes@[w]@,
            )),
        forall|a: int| 0 <= a < search.m() ==> #[trigger] search.black(a),
    ensures
        cycle_findings(items, issue_views(search.issues@), search.reported_names()),
{
    reveal(cycle_findings);
    let cs = search.reported_names();
    lemma_reports_named(search, items);
    assert forall|tc: Seq<Seq<char>>| is_reference_cycle(items, tc) implies exists|i: int, k: int|
        0 <= i < tc.len() && 0 <= k < cs.len() && keyed_from(items, #[trigger] tc[i], cycle_key(#[trigger] cs[k])) by {
        lemma_cycle_met(search, items, tc);
    }
}

/// Findings that report cycles as `cycle_findings` describes meet
/// `cycle_report`.
proof fn lemma_report_from_findings(items: Seq<BomItem>, iv: Seq<IssueModel>, cs: Seq<Seq<Seq<char>>>)
    requires
        cycle_findings(items, iv, cs),
    ensures
        cycle_report(items, iv),
{
    assert forall|k: int| 0 <= k < iv.len() implies exists|c: Seq<Seq<char>>|
        is_reference_cycle(items, c) && #[trigger] iv[k] == cycle_issue(c) by {
        lemma_finding_issue(items, iv, cs, k);
        lemma_finding_at(items, iv, cs, k);
        let c = cs[k];
        assert(is_reference_cycle(items, c) && iv[k] == cycle_issue(c));
    }
    assert(forall|k: int|
        0 <= k < iv.len() ==> exists|c: Seq<Seq<char>>|
            is_reference_cycle(items, c) && #[trigger] iv[k] == cycle_issue(c));
    if has_reference_cycle(items) {
        let tc = choose|tc: Seq<Seq<char>>| is_reference_cycle(items, tc);
        lemma_findings_nonempty(items, iv, cs, tc);
    }
    if iv.len() > 0 {
        lemma_finding_at(items, iv, cs, 0);
    }
    if no_arrow_heads(items) {
        assert(reports_meet_cycles(items, cs)) by {
            reveal(reports_meet_cycles);
            assert forall|c: Seq<Seq<char>>| is_reference_cycle(items, c) implies exists|i: int, k: int|
                0 <= i < c.len() && 0 <= k < cs.len() && #[trigger] cs[k][0] == #[trigger] c[i] by {
                lemma_met_by_report(items, iv, cs, c);
            }
        }
    }
    assert(cycle_findings(items, iv, cs) && (no_arrow_heads(items) ==> reports_meet_cycles(items, cs)));
}

proof fn lemma_finding_issue(items: Seq<BomItem>, s: Seq<IssueModel>, cs: Seq<Seq<Seq<char>>>, k: int)
    requires
        cycle_findings(items, s, cs),
        0 <= k < s.len(),
    ensures
        cs.len() == s.len(),
        s[k] == cycle_issue(cs[k]),
{
    reveal(cycle_findings);
}

proof fn lemma_findings_nonempty(items: Seq<BomItem>, s: Seq<IssueModel>, cs: Seq<Seq<Seq<char>>>, c: Seq<Seq<char>>)
    requires
        cycle_findings(items, s, cs),
        is_reference_cycle(items, c),
    ensures
        s.len() > 0,
{
    reveal(cycle_findings);
}

/// What `cycle_report` says of the findings, taken out of it.
proof fn lemma_pick_findings(items: Seq<BomItem>, s: Seq<IssueModel>) -> (cs: Seq<Seq<Seq<char>>>)
    requires
        cycle_report(items, s),
    ensures
        cycle_findings(items, s, cs),
{
    choose|cs: Seq<Seq<Seq<char>>>|
        #![trigger cycle_findings(items, s, cs)]
        cycle_findings(items, s, cs) && (no_arrow_heads(items) ==> reports_meet_cycles(items, cs))
}

/// The names around an index cycle form a cycle of the parent relation,
/// without repeats when the indices have none.
proof fn lemma_names_cycle(s: CycleSearch, items: Seq<BomItem>, c: Seq<int>)
    requires
        s.is_index_cycle(c),
        texts(s.nodes@).no_duplicates(),
        forall|a: int, w: int|
            0 <= a < s.m() && 0 <= w < s.m() ==> (#[trigger] s.kids@[a]@.contains(w as usize) <==> parent_edge(
                items,
                s.nodes@[a]@,
                s.nodes@[w]@,
            )),
    ensures
        is_reference_cycle(items, s.names(c)),
        c.no_duplicates() ==> s.names(c).no_duplicates(),
{
    let nm = s.names(c);
    assert forall|i: int| 0 <= i < nm.len() implies parent_edge(items, #[trigger] nm[i], next_in(nm, i)) by {
        assert(s.child(c[i], next_in(c, i)));
        assert(0 <= c[i] < s.m());
        if i + 1 < c.len() {
            assert(0 <= c[i + 1] < s.m());
            assert(next_in(nm, i) == s.nodes@[c[i + 1]]@);
        } else {
            assert(0 <= c[0] < s.m());
            assert(next_in(nm, i) == s.nodes@[c[0]]@);
        }
    }
    if c.no_duplicates() {
        assert forall|a: int, b: int| 0 <= a < b < nm.len() implies nm[a] != nm[b] by {
            assert(0 <= c[a] < s.m() && 0 <= c[b] < s.m());
            assert(texts(s.nodes@)[c[a]] == nm[a]);
            assert(texts(s.nodes@)[c[b]] == nm[b]);
        }
    }
}

/// Two index cycles whose names go round the same cycle go round the same
/// cycle.
proof fn lemma_round_names(s: CycleSearch, a: Seq<int>, b: Seq<int>)
    requires
        s.is_index_cycle(a),
        s.is_index_cycle(b),
        texts(s.nodes@).no_duplicates(),
        same_round(s.names(a), s.names(b)),
    ensures
        rotated(a, b),
{
    let na = s.names(a);
    let nb = s.names(b);
    let n = a.len() as int;
    let t = choose|t: int| 0 <= t < na.len() && nb == na.subrange(t, n) + na.subrange(0, t);
    let r = a.subrange(t, n) + a.subrange(0, t);
    assert forall|i: int| 0 <= i < n implies b[i] == #[trigger] r[i] by {
        assert(0 <= b[i] < s.m());
        assert(nb[i] == s.nodes@[b[i]]@);
        if i < n - t {
            assert(r[i] == a[t + i]);
            assert(nb[i] == na[t + i]);
            assert(0 <= a[t + i] < s.m());
            assert(texts(s.nodes@)[b[i]] == texts(s.nodes@)[a[t + i]]);
        } else {
            assert(r[i] == a[i - (n - t)]);
            assert(nb[i] == na[i - (n - t)]);
            assert(0 <= a[i - (n - t)] < s.m());
            assert(texts(s.nodes@)[b[i]] == texts(s.nodes@)[a[i - (n - t)]]);
        }
    }
    assert(b =~= r);
}

/// The index cycle behind a cycle of the parent relation.
proof fn lemma_index_cycle(s: CycleSearch, items: Seq<BomItem>, tc: Seq<Seq<char>>) -> (ic: Seq<int>)
    requires
        is_reference_cycle(items, tc),
        s.m() == s.kids@.len(),
        forall|x: Seq<char>|
            texts(s.nodes@).contains(x) <==> exists|j: int|
                0 <= j < items.len() && #[trigger] items[j].material_no@ == x,
        forall|a: int, w: int|
            0 <= a < s.m() && 0 <= w < s.m() ==> (#[trigger] s.kids@[a]@.contains(w as usize) <==> parent_edge(
                items,
                s.nodes@[a]@,
                s.nodes@[w]@,
            )),
    ensures
        s.is_index_cycle(ic),
        ic.len() == tc.len(),
        forall|i: int| 0 <= i < ic.len() ==> s.nodes@[#[trigger] ic[i]]@ == tc[i],
{
    let m = s.m();
    assert forall|i: int| 0 <= i < tc.len() implies texts(s.nodes@).contains(#[trigger] tc[i]) by {
        let h = if i == 0 { tc.len() - 1 } else { i - 1 };
        assert(parent_edge(items, tc[h], next_in(tc, h)));
        assert(next_in(tc, h) == tc[i]);
        let j = choose|j: int|
            0 <= j < items.len() && #[trigger] items[j].material_no@ == tc[i] && opt_text(
                items[j].parent_material_no,
            ) == Some(tc[h]);
    }
    let ic = Seq::new(tc.len(), |i: int| choose|w: int| 0 <= w < m && s.nodes@[w]@ == tc[i]);
    assert forall|i: int| 0 <= i < ic.len() implies 0 <= #[trigger] ic[i] < m && s.nodes@[ic[i]]@ == tc[i] by {
        assert(texts(s.nodes@).contains(tc[i]));
        let w = choose|w: int| 0 <= w < texts(s.nodes@).len() && texts(s.nodes@)[w] == tc[i];
        assert(s.nodes@[w]@ == tc[i]);
    }
    assert forall|i: int| 0 <= i < ic.len() implies #[trigger] s.child(ic[i], next_in(ic, i)) by {
        assert(0 <= ic[i] < m && s.nodes@[ic[i]]@ == tc[i]);
        assert(parent_edge(items, tc[i], next_in(tc, i)));
        if i + 1 < ic.len() {
            assert(0 <= ic[i + 1] < m && s.nodes@[ic[i + 1]]@ == tc[i + 1]);
        } else {
            assert(0 <= ic[0] < m && s.nodes@[ic[0]]@ == tc[0]);
        }
    }
    ic
}

} // verus!
