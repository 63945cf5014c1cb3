//! Versions of a BOM: the changes between two BOMs, the history of a BOM
//! and the histories of all BOMs.
use vstd::prelude::*;
use crate::bom::{BomItem, copy_opt_string, distinct_materials};
use crate::bom::parser::{opt_text, texts};
use crate::number::{bits_eq, is_nan_bits};
use crate::text::{concat3, concat4, decimal, owned, str_equal, u32_text};
use crate::tree::{has_material, has_material_no, last_index, last_of};
use crate::validation::only_if;

verus! {

/// One change between two versions of a BOM.
#[derive(Debug)]
pub struct ChangeItem {
    pub field: String,
    pub old_value: String,
    pub new_value: String,
    pub material_no: Option<String>,
}

/// The mathematical form of a `ChangeItem`.
pub struct ChangeModel {
    pub field: Seq<char>,
    pub old_value: Seq<char>,
    pub new_value: Seq<char>,
    pub material_no: Option<Seq<char>>,
}

impl View for ChangeItem {
    type V = ChangeModel;

    open spec fn view(&self) -> ChangeModel {
        ChangeModel {
            field: self.field@,
            old_value: self.old_value@,
            new_value: self.new_value@,
            material_no: opt_text(self.material_no),
        }
    }
}

/// The views of a list of changes.
pub open spec fn change_views(s: Seq<ChangeItem>) -> Seq<ChangeModel> {
    s.map_values(|c: ChangeItem| c@)
}

/// The change of `field` of material `m` from `o` to `n`.
pub open spec fn change_of(field: Seq<char>, o: Seq<char>, n: Seq<char>, m: Seq<char>) -> ChangeModel {
    ChangeModel { field, old_value: o, new_value: n, material_no: Some(m) }
}

/// The changes from item `o` to item `n` of the same material number: the
/// name, specification, quantity, loss rate, unit price, supplier and
/// remark that differ, in this order. Numbers differ when they are not
/// equal as values (a NaN differs from everything).
pub open spec fn field_changes(o: BomItem, n: BomItem) -> Seq<ChangeModel> {
    let m = n.material_no@;
    only_if(
        o.material_name@ != n.material_name@,
        change_of("物料名称"@, o.material_name@, n.material_name@, m),
    ) + only_if(
        o.specification@ != n.specification@,
        change_of("规格"@, o.specification@, n.specification@, m),
    ) + only_if(
        !bits_eq(o.quantity.bits, n.quantity.bits),
        change_of("数量"@, o.quantity.text@, n.quantity.text@, m),
    ) + only_if(
        !bits_eq(o.loss_rate.bits, n.loss_rate.bits),
        change_of("损耗率"@, o.loss_rate.text@, n.loss_rate.text@, m),
    ) + only_if(
        !bits_eq(o.unit_price.bits, n.unit_price.bits),
        change_of("单价"@, o.unit_price.text@, n.unit_price.text@, m),
    ) + only_if(o.supplier@ != n.supplier@, change_of("供应商"@, o.supplier@, n.supplier@, m)) + only_if(
        o.remark@ != n.remark@,
        change_of("备注"@, o.remark@, n.remark@, m),
    )
}

/// The position of the last item with material number `m`.
pub open spec fn last_index_of(items: Seq<BomItem>, m: Seq<char>) -> int {
    choose|j: int| last_of(items, m, j)
}

/// The changes for an item of the new BOM: against the last old item with
/// its material number, or its addition when there is none.
pub open spec fn item_changes(old: Seq<BomItem>, it: BomItem) -> Seq<ChangeModel> {
    if has_material(old, it.material_no@) {
        field_changes(old[last_index_of(old, it.material_no@)], it)
    } else {
        seq![change_of("新增物料"@, seq![], it.material_name@, it.material_no@)]
    }
}

/// The removal of an item of the old BOM whose material number the new
/// BOM lacks.
pub open spec fn removal_changes(new: Seq<BomItem>, it: BomItem) -> Seq<ChangeModel> {
    only_if(
        !has_material(new, it.material_no@),
        change_of("删除物料"@, it.material_name@, seq![], it.material_no@),
    )
}

/// The changes from one BOM to another: those of the new items in order,
/// then the removals of the old items in order.
pub open spec fn bom_changes(old: Seq<BomItem>, new: Seq<BomItem>) -> Seq<ChangeModel> {
    Seq::new(new.len(), |i: int| item_changes(old, new[i])).flatten() + Seq::new(
        old.len(),
        |i: int| removal_changes(new, old[i]),
    ).flatten()
}

proof fn lemma_last_of_unique(items: Seq<BomItem>, m: Seq<char>, j: int)
    requires
        last_of(items, m, j),
    ensures
        last_index_of(items, m) == j,
{
    let k = last_index_of(items, m);
    assert(last_of(items, m, k));
    if k < j {
        assert(items[j].material_no@ != m);
    } else if j < k {
        assert(items[k].material_no@ != m);
    }
}

proof fn lemma_flatten_step(s: Seq<Seq<ChangeModel>>, i: int)
    requires
        0 <= i < s.len(),
    ensures
        s.take(i + 1).flatten() == s.take(i).flatten() + s[i],
{
    assert(s.take(i + 1) =~= s.take(i).push(s[i]));
    s.take(i).lemma_flatten_push(s[i]);
}

/// A change with the given parts.
fn make_change(field: &str, old_value: String, new_value: String, material_no: &String) -> (r:
    ChangeItem)
    ensures
        r@ == change_of(field@, old_value@, new_value@, material_no@),
{
    ChangeItem { field: owned(field), old_value, new_value, material_no: Some(material_no.clone()) }
}

/// Appends `c` to `acc` when `cond` holds.
fn push_when(acc: &mut Vec<ChangeItem>, cond: bool, c: ChangeItem)
    ensures
        change_views(final(acc)@) == change_views(old(acc)@) + only_if(cond, c@),
{
    let ghost before = acc@;
    if cond {
        acc.push(c);
        assert(change_views(acc@) =~= change_views(before) + only_if(cond, c@));
    } else {
        assert(change_views(acc@) =~= change_views(before) + only_if(cond, c@));
    }
}

fn field_changes_exec(o: &BomItem, n: &BomItem) -> (r: Vec<ChangeItem>)
    ensures
        change_views(r@) == field_changes(*o, *n),
{
    let m = &n.material_no;
    let mut r: Vec<ChangeItem> = Vec::new();
    let ghost e: Seq<ChangeModel> = seq![];
    assert(change_views(r@) =~= e);
    push_when(
        &mut r,
        o.material_name != n.material_name,
        make_change("物料名称", o.material_name.clone(), n.material_name.clone(), m),
    );
    push_when(
        &mut r,
        o.specification != n.specification,
        make_change("规格", o.specification.clone(), n.specification.clone(), m),
    );
    push_when(
        &mut r,
        !o.quantity.same_value(&n.quantity),
        make_change("数量", o.quantity.text.clone(), n.quantity.text.clone(), m),
    );
    push_when(
        &mut r,
        !o.loss_rate.same_value(&n.loss_rate),
        make_change("损耗率", o.loss_rate.text.clone(), n.loss_rate.text.clone(), m),
    );
    push_when(
        &mut r,
        !o.unit_price.same_value(&n.unit_price),
        make_change("单价", o.unit_price.text.clone(), n.unit_price.text.clone(), m),
    );
    push_when(
        &mut r,
        o.supplier != n.supplier,
        make_change("供应商", o.supplier.clone(), n.supplier.clone(), m),
    );
    push_when(
        &mut r,
        o.remark != n.remark,
        make_change("备注", o.remark.clone(), n.remark.clone(), m),
    );
    r
}

/// Appends `extra` to `acc`.
fn append_changes(acc: &mut Vec<ChangeItem>, extra: Vec<ChangeItem>)
    ensures
        change_views(final(acc)@) == change_views(old(acc)@) + change_views(extra@),
{
    let mut extra = extra;
    let ghost a = acc@;
    let ghost b = extra@;
    acc.append(&mut extra);
    assert(change_views(acc@) =~= change_views(a) + change_views(b));
}

/// The changes from the `old` BOM to the `new` one: for each new item in
/// order, its field changes against the last old item with its material
/// number, or its addition; then, for each old item in order whose
/// material number the new BOM lacks, its removal.
pub fn diff_bom(old: &Vec<BomItem>, new: &Vec<BomItem>) -> (r: Vec<ChangeItem>)
    ensures
        change_views(r@) == bom_changes(old@, new@),
{
    let ghost s1 = Seq::new(new@.len(), |i: int| item_changes(old@, new@[i]));
    let ghost s2 = Seq::new(old@.len(), |i: int| removal_changes(new@, old@[i]));
    let mut changes: Vec<ChangeItem> = Vec::new();
    assert(change_views(changes@) =~= s1.take(0).flatten());
    let mut i: usize = 0;
    while i < new.len()
        invariant
            i <= new@.len(),
            s1 == Seq::new(new@.len(), |i: int| item_changes(old@, new@[i])),
            change_views(changes@) == s1.take(i as int).flatten(),
        decreases new@.len() - i,
    {
        let item = &new[i];
        proof {
            lemma_flatten_step(s1, i as int);
        }
        if has_material_no(old, &item.material_no) {
            let j = last_index(old, &item.material_no);
            proof {
                lemma_last_of_unique(old@, item.material_no@, j as int);
            }
            let extra = field_changes_exec(&old[j], item);
            append_changes(&mut changes, extra);
        } else {
            let c = make_change("新增物料", String::new(), item.material_name.clone(), &item.material_no);
            let ghost before = changes@;
            changes.push(c);
            proof {
                assert(change_views(changes@) =~= change_views(before) + seq![c@]);
                assert(c@.old_value =~= Seq::<char>::empty());
            }
        }
        i = i + 1;
    }
    assert(s1.take(new@.len() as int) =~= s1);
    let ghost first = s1.flatten();
    let mut i: usize = 0;
    while i < old.len()
        invariant
            i <= old@.len(),
            s2 == Seq::new(old@.len(), |i: int| removal_changes(new@, old@[i])),
            change_views(changes@) == first + s2.take(i as int).flatten(),
        decreases old@.len() - i,
    {
        let item = &old[i];
        proof {
            lemma_flatten_step(s2, i as int);
        }
        let present = has_material_no(new, &item.material_no);
        let c = make_change("删除物料", item.material_name.clone(), String::new(), &item.material_no);
        proof {
            assert(c@.new_value =~= Seq::<char>::empty());
        }
        push_when(&mut changes, !present, c);
        proof {
            assert(first + s2.take(i + 1).flatten() =~= first + s2.take(i as int).flatten() + s2[i as int]);
        }
        i = i + 1;
    }
    assert(s2.take(old@.len() as int) =~= s2);
    changes
}

/// No quantity, loss rate or unit price of the items is a NaN.
pub open spec fn no_nan_numbers(items: Seq<BomItem>) -> bool {
    forall|i: int|
        0 <= i < items.len() ==> !is_nan_bits((#[trigger] items[i]).quantity.bits) && !is_nan_bits(
            items[i].loss_rate.bits,
        ) && !is_nan_bits(items[i].unit_price.bits)
}

proof fn lemma_flatten_empties(s: Seq<Seq<ChangeModel>>)
    requires
        forall|i: int| 0 <= i < s.len() ==> (#[trigger] s[i]).len() == 0,
    ensures
        s.flatten() =~= Seq::<ChangeModel>::empty(),
    decreases s.len(),
{
    if s.len() > 0 {
        let init = s.drop_last();
        lemma_flatten_empties(init);
        assert(s =~= init.push(s.last()));
        init.lemma_flatten_push(s.last());
    }
}

/// Comparing a BOM with itself finds no change, when no two of its items
/// share a material number and none of its numbers is a NaN.
pub proof fn lemma_diff_self_is_empty(items: Seq<BomItem>)
    requires
        distinct_materials(items),
        no_nan_numbers(items),
    ensures
        bom_changes(items, items) == Seq::<ChangeModel>::empty(),
{
    let s1 = Seq::new(items.len(), |i: int| item_changes(items, items[i]));
    let s2 = Seq::new(items.len(), |i: int| removal_changes(items, items[i]));
    assert forall|i: int| 0 <= i < s1.len() implies (#[trigger] s1[i]).len() == 0 by {
        let it = items[i];
        assert(has_material(items, it.material_no@));
        assert(last_of(items, it.material_no@, i));
        lemma_last_of_unique(items, it.material_no@, i);
        assert(field_changes(it, it) =~= Seq::<ChangeModel>::empty());
    }
    assert forall|i: int| 0 <= i < s2.len() implies (#[trigger] s2[i]).len() == 0 by {
        assert(has_material(items, items[i].material_no@));
    }
    lemma_flatten_empties(s1);
    lemma_flatten_empties(s2);
    assert(bom_changes(items, items) =~= s1.flatten() + s2.flatten());
}

proof fn lemma_concat_contains(a: Seq<ChangeModel>, b: Seq<ChangeModel>, x: ChangeModel)
    ensures
        (a + b).contains(x) == (a.contains(x) || b.contains(x)),
{
    if a.contains(x) {
        let k = choose|k: int| 0 <= k < a.len() && a[k] == x;
        assert((a + b)[k] == x);
    }
    if b.contains(x) {
        let k = choose|k: int| 0 <= k < b.len() && b[k] == x;
        assert((a + b)[a.len() + k] == x);
    }
    if (a + b).contains(x) {
        let k = choose|k: int| 0 <= k < (a + b).len() && (a + b)[k] == x;
        if k < a.len() {
            assert(a[k] == x);
        } else {
            assert(b[k - a.len()] == x);
        }
    }
}

proof fn lemma_only_if_contains(c: bool, y: ChangeModel)
    ensures
        forall|x: ChangeModel| #[trigger] only_if(c, y).contains(x) == (c && y == x),
{
    assert forall|x: ChangeModel| #[trigger] only_if(c, y).contains(x) == (c && y == x) by {
        if c && y == x {
            assert(only_if(c, y)[0] == x);
        }
    }
}

/// The heads of the seven compared fields' names, one per field.
proof fn lemma_field_heads()
    ensures
        "物料名称"@[0] == '物',
        "规格"@[0] == '规',
        "数量"@[0] == '数',
        "损耗率"@[0] == '损',
        "单价"@[0] == '单',
        "供应商"@[0] == '供',
        "备注"@[0] == '备',
{
    reveal_strlit("物料名称");
    reveal_strlit("规格");
    reveal_strlit("数量");
    reveal_strlit("损耗率");
    reveal_strlit("单价");
    reveal_strlit("供应商");
    reveal_strlit("备注");
}

/// The changes between two items, split into the seven fields' parts.
proof fn lemma_field_parts(o: BomItem, n: BomItem, x: ChangeModel)
    ensures
        field_changes(o, n).contains(x) == (
        only_if(
            o.material_name@ != n.material_name@,
            change_of("物料名称"@, o.material_name@, n.material_name@, n.material_no@),
        ).contains(x) || only_if(
            o.specification@ != n.specification@,
            change_of("规格"@, o.specification@, n.specification@, n.material_no@),
        ).contains(x) || only_if(
            !bits_eq(o.quantity.bits, n.quantity.bits),
            change_of("数量"@, o.quantity.text@, n.quantity.text@, n.material_no@),
        ).contains(x) || only_if(
            !bits_eq(o.loss_rate.bits, n.loss_rate.bits),
            change_of("损耗率"@, o.loss_rate.text@, n.loss_rate.text@, n.material_no@),
        ).contains(x) || only_if(
            !bits_eq(o.unit_price.bits, n.unit_price.bits),
            change_of("单价"@, o.unit_price.text@, n.unit_price.text@, n.material_no@),
        ).contains(x) || only_if(
            o.supplier@ != n.supplier@,
            change_of("供应商"@, o.supplier@, n.supplier@, n.material_no@),
        ).contains(x) || only_if(
            o.remark@ != n.remark@,
            change_of("备注"@, o.remark@, n.remark@, n.material_no@),
        ).contains(x)),
{
    let m = n.material_no@;
    let p1 = only_if(
        o.material_name@ != n.material_name@,
        change_of("物料名称"@, o.material_name@, n.material_name@, m),
    );
    let p2 = only_if(
        o.specification@ != n.specification@,
        change_of("规格"@, o.specification@, n.specification@, m),
    );
    let p3 = only_if(
        !bits_eq(o.quantity.bits, n.quantity.bits),
        change_of("数量"@, o.quantity.text@, n.quantity.text@, m),
    );
    let p4 = only_if(
        !bits_eq(o.loss_rate.bits, n.loss_rate.bits),
        change_of("损耗率"@, o.loss_rate.text@, n.loss_rate.text@, m),
    );
    let p5 = only_if(
        !bits_eq(o.unit_price.bits, n.unit_price.bits),
        change_of("单价"@, o.unit_price.text@, n.unit_price.text@, m),
    );
    let p6 = only_if(
        o.supplier@ != n.supplier@,
        change_of("供应商"@, o.supplier@, n.supplier@, m),
    );
    let p7 = only_if(o.remark@ != n.remark@, change_of("备注"@, o.remark@, n.remark@, m));
    assert(field_changes(o, n) == p1 + p2 + p3 + p4 + p5 + p6 + p7);
    lemma_concat_contains(p1 + p2 + p3 + p4 + p5 + p6, p7, x);
    lemma_concat_contains(p1 + p2 + p3 + p4 + p5, p6, x);
    lemma_concat_contains(p1 + p2 + p3 + p4, p5, x);
    lemma_concat_contains(p1 + p2 + p3, p4, x);
    lemma_concat_contains(p1 + p2, p3, x);
    lemma_concat_contains(p1, p2, x);
}

/// Between two items of the same material, each compared field is reported
/// exactly when it differs, with the old and the new value: the name, the
/// specification, the supplier and the remark as texts, the quantity, the
/// loss rate and the unit price as values (a NaN differs from everything).
pub proof fn lemma_field_changes_exact(o: BomItem, n: BomItem)
    ensures
        field_changes(o, n).contains(
            change_of("物料名称"@, o.material_name@, n.material_name@, n.material_no@),
        ) == (o.material_name@ != n.material_name@),
        field_changes(o, n).contains(
            change_of("规格"@, o.specification@, n.specification@, n.material_no@),
        ) == (o.specification@ != n.specification@),
        field_changes(o, n).contains(
            change_of("数量"@, o.quantity.text@, n.quantity.text@, n.material_no@),
        ) == !bits_eq(o.quantity.bits, n.quantity.bits),
        field_changes(o, n).contains(
            change_of("损耗率"@, o.loss_rate.text@, n.loss_rate.text@, n.material_no@),
        ) == !bits_eq(o.loss_rate.bits, n.loss_rate.bits),
        field_changes(o, n).contains(
            change_of("单价"@, o.unit_price.text@, n.unit_price.text@, n.material_no@),
        ) == !bits_eq(o.unit_price.bits, n.unit_price.bits),
        field_changes(o, n).contains(
            change_of("供应商"@, o.supplier@, n.supplier@, n.material_no@),
        ) == (o.supplier@ != n.supplier@),
        field_changes(o, n).contains(change_of("备注"@, o.remark@, n.remark@, n.material_no@)) == (
        o.remark@ != n.remark@),
{
    let m = n.material_no@;
    lemma_field_heads();
    lemma_only_if_contains(
        o.material_name@ != n.material_name@,
        change_of("物料名称"@, o.material_name@, n.material_name@, m),
    );
    lemma_only_if_contains(
        o.specification@ != n.specification@,
        change_of("规格"@, o.specification@, n.specification@, m),
    );
    lemma_only_if_contains(
        !bits_eq(o.quantity.bits, n.quantity.bits),
        change_of("数量"@, o.quantity.text@, n.quantity.text@, m),
    );
    lemma_only_if_contains(
        !bits_eq(o.loss_rate.bits, n.loss_rate.bits),
        change_of("损耗率"@, o.loss_rate.text@, n.loss_rate.text@, m),
    );
    lemma_only_if_contains(
        !bits_eq(o.unit_price.bits, n.unit_price.bits),
        change_of("单价"@, o.unit_price.text@, n.unit_price.text@, m),
    );
    lemma_only_if_contains(o.supplier@ != n.supplier@, change_of("供应商"@, o.supplier@, n.supplier@, m));
    lemma_only_if_contains(o.remark@ != n.remark@, change_of("备注"@, o.remark@, n.remark@, m));
    lemma_field_parts(o, n, change_of("物料名称"@, o.material_name@, n.material_name@, m));
    lemma_field_parts(o, n, change_of("规格"@, o.specification@, n.specification@, m));
    lemma_field_parts(o, n, change_of("数量"@, o.quantity.text@, n.quantity.text@, m));
    lemma_field_parts(o, n, change_of("损耗率"@, o.loss_rate.text@, n.loss_rate.text@, m));
    lemma_field_parts(o, n, change_of("单价"@, o.unit_price.text@, n.unit_price.text@, m));
    lemma_field_parts(o, n, change_of("供应商"@, o.supplier@, n.supplier@, m));
    lemma_field_parts(o, n, change_of("备注"@, o.remark@, n.remark@, m));
}

/// Each change of a new item against the last old item of its material is
/// among the changes between the two BOMs.
proof fn lemma_item_change_in_diff(old: Seq<BomItem>, new: Seq<BomItem>, i: int, j: int, c: ChangeModel)
    requires
        0 <= i < new.len(),
        last_of(old, new[i].material_no@, j),
        field_changes(old[j], new[i]).contains(c),
    ensures
        bom_changes(old, new).contains(c),
{
    let s1 = Seq::new(new.len(), |t: int| item_changes(old, new[t]));
    let s2 = Seq::new(old.len(), |t: int| removal_changes(new, old[t]));
    assert(has_material(old, new[i].material_no@));
    lemma_last_of_unique(old, new[i].material_no@, j);
    assert(s1[i] == field_changes(old[j], new[i]));
    let t = choose|t: int| 0 <= t < s1[i].len() && s1[i][t] == c;
    crate::validation::lemma_in_flatten(s1, i, t);
    lemma_concat_contains(s1.flatten(), s2.flatten(), c);
}

/// When a new item and the last old item of the same material differ in a
/// compared field, the changes between the two BOMs report that field with
/// the old and the new value.
pub proof fn lemma_diff_reports_differences(old: Seq<BomItem>, new: Seq<BomItem>, i: int, j: int)
    requires
        0 <= i < new.len(),
        last_of(old, new[i].material_no@, j),
    ensures
        old[j].material_name@ != new[i].material_name@ ==> bom_changes(old, new).contains(
            change_of("物料名称"@, old[j].material_name@, new[i].material_name@, new[i].material_no@),
        ),
        old[j].specification@ != new[i].specification@ ==> bom_changes(old, new).contains(
            change_of("规格"@, old[j].specification@, new[i].specification@, new[i].material_no@),
        ),
        !bits_eq(old[j].quantity.bits, new[i].quantity.bits) ==> bom_changes(old, new).contains(
            change_of("数量"@, old[j].quantity.text@, new[i].quantity.text@, new[i].material_no@),
        ),
        !bits_eq(old[j].loss_rate.bits, new[i].loss_rate.bits) ==> bom_changes(old, new).contains(
            change_of("损耗率"@, old[j].loss_rate.text@, new[i].loss_rate.text@, new[i].material_no@),
        ),
        !bits_eq(old[j].unit_price.bits, new[i].unit_price.bits) ==> bom_changes(old, new).contains(
            change_of("单价"@, old[j].unit_price.text@, new[i].unit_price.text@, new[i].material_no@),
        ),
        old[j].supplier@ != new[i].supplier@ ==> bom_changes(old, new).contains(
            change_of("供应商"@, old[j].supplier@, new[i].supplier@, new[i].material_no@),
        ),
        old[j].remark@ != new[i].remark@ ==> bom_changes(old, new).contains(
            change_of("备注"@, old[j].remark@, new[i].remark@, new[i].material_no@),
        ),
{
    let o = old[j];
    let n = new[i];
    let m = n.material_no@;
    lemma_field_changes_exact(o, n);
    if o.material_name@ != n.material_name@ {
        lemma_item_change_in_diff(old, new, i, j, change_of("物料名称"@, o.material_name@, n.material_name@, m));
    }
    if o.specification@ != n.specification@ {
        lemma_item_change_in_diff(old, new, i, j, change_of("规格"@, o.specification@, n.specification@, m));
    }
    if !bits_eq(o.quantity.bits, n.quantity.bits) {
        lemma_item_change_in_diff(old, new, i, j, change_of("数量"@, o.quantity.text@, n.quantity.text@, m));
    }
    if !bits_eq(o.loss_rate.bits, n.loss_rate.bits) {
        lemma_item_change_in_diff(old, new, i, j, change_of("损耗率"@, o.loss_rate.text@, n.loss_rate.text@, m));
    }
    if !bits_eq(o.unit_price.bits, n.unit_price.bits) {
        lemma_item_change_in_diff(old, new, i, j, change_of("单价"@, o.unit_price.text@, n.unit_price.text@, m));
    }
    if o.supplier@ != n.supplier@ {
        lemma_item_change_in_diff(old, new, i, j, change_of("供应商"@, o.supplier@, n.supplier@, m));
    }
    if o.remark@ != n.remark@ {
        lemma_item_change_in_diff(old, new, i, j, change_of("备注"@, o.remark@, n.remark@, m));
    }
}

/// A new item whose material number the old BOM lacks is reported as added,
/// with its name; an old item whose material number the new BOM lacks is
/// reported as removed, with its name.
pub proof fn lemma_diff_reports_additions_removals(old: Seq<BomItem>, new: Seq<BomItem>)
    ensures
        forall|i: int|
            0 <= i < new.len() && (forall|j: int| 0 <= j < old.len() ==> (#[trigger] old[j]).material_no@
                != new[i].material_no@) ==> bom_changes(old, new).contains(
                change_of("新增物料"@, seq![], (#[trigger] new[i]).material_name@, new[i].material_no@),
            ),
        forall|i: int|
            0 <= i < old.len() && (forall|j: int| 0 <= j < new.len() ==> (#[trigger] new[j]).material_no@
                != old[i].material_no@) ==> bom_changes(old, new).contains(
                change_of("删除物料"@, (#[trigger] old[i]).material_name@, seq![], old[i].material_no@),
            ),
{
    let s1 = Seq::new(new.len(), |t: int| item_changes(old, new[t]));
    let s2 = Seq::new(old.len(), |t: int| removal_changes(new, old[t]));
    assert(bom_changes(old, new) == s1.flatten() + s2.flatten());
    assert forall|i: int|
        0 <= i < new.len() && (forall|j: int| 0 <= j < old.len() ==> (#[trigger] old[j]).material_no@
            != new[i].material_no@) implies bom_changes(old, new).contains(
            change_of("新增物料"@, seq![], (#[trigger] new[i]).material_name@, new[i].material_no@),
        ) by {
        let c = change_of("新增物料"@, seq![], new[i].material_name@, new[i].material_no@);
        assert(!has_material(old, new[i].material_no@));
        assert(s1[i][0] == c);
        crate::validation::lemma_in_flatten(s1, i, 0);
        lemma_concat_contains(s1.flatten(), s2.flatten(), c);
    }
    assert forall|i: int|
        0 <= i < old.len() && (forall|j: int| 0 <= j < new.len() ==> (#[trigger] new[j]).material_no@
            != old[i].material_no@) implies bom_changes(old, new).contains(
            change_of("删除物料"@, (#[trigger] old[i]).material_name@, seq![], old[i].material_no@),
        ) by {
        let c = change_of("删除物料"@, old[i].material_name@, seq![], old[i].material_no@);
        assert(!has_material(new, old[i].material_no@));
        assert(s2[i][0] == c);
        crate::validation::lemma_in_flatten(s2, i, 0);
        lemma_concat_contains(s1.flatten(), s2.flatten(), c);
    }
}

/// A moment in UTC: whole seconds since the Unix epoch and the nanoseconds
/// past them.
#[derive(Clone, Copy, Debug, PartialEq, Eq, Structural)]
pub struct Timestamp {
    pub seconds: i64,
    pub nanos: u32,
}

/// Wrapper of `chrono::Utc::now`: the current time, taken apart into
/// seconds and nanoseconds. It depends on the clock, so nothing is stated
/// of it.
#[verifier::external_body]
fn now_utc() -> Timestamp {
    let t = chrono::Utc::now();
    Timestamp { seconds: t.timestamp(), nanos: t.timestamp_subsec_nanos() }
}

/// A lower-case hexadecimal digit.
pub open spec fn is_lower_hex(c: char) -> bool {
    (48 <= (c as u32) <= 57) || (97 <= (c as u32) <= 102)
}

/// The text of a random (version 4) UUID in hyphenated form: 36 characters,
/// hyphens at positions 8, 13, 18 and 23, lower-case hexadecimal digits
/// elsewhere, the version digit 4 at position 14 and the variant digit 8, 9,
/// a or b at position 19.
pub open spec fn is_v4_uuid_text(s: Seq<char>) -> bool {
    &&& s.len() == 36
    &&& forall|i: int|
        0 <= i < 36 ==> if i == 8 || i == 13 || i == 18 || i == 23 {
            #[trigger] s[i] == '-'
        } else {
            is_lower_hex(s[i])
        }
    &&& s[14] == '4'
    &&& (s[19] == '8' || s[19] == '9' || s[19] == 'a' || s[19] == 'b')
}

/// Wrapper of `uuid::Uuid::new_v4`, rendered with `to_string`: a fresh
/// random identifier. Its value depends on chance; the clause states its
/// form: `new_v4` sets the version and variant bits, and `Display` writes the
/// hyphenated lower-case form.
#[verifier::external_body]
fn new_version_id() -> (r: String)
    ensures
        is_v4_uuid_text(r@),
{
    uuid::Uuid::new_v4().to_string()
}

/// One version of a BOM.
#[derive(Debug)]
pub struct BomVersion {
    pub version_id: String,
    pub version_number: u32,
    pub bom_id: String,
    pub data: Vec<BomItem>,
    pub created_at: Timestamp,
    pub modified_by: String,
    pub change_reason: String,
    pub change_description: Vec<ChangeItem>,
    pub is_current: bool,
}

/// The history of one BOM.
#[derive(Debug)]
pub struct VersionHistory {
    pub bom_id: String,
    pub versions: Vec<BomVersion>,
    pub current_version: u32,
}

/// A line of the list of versions.
#[derive(Debug)]
pub struct BomVersionSummary {
    pub version_number: u32,
    pub version_id: String,
    pub created_at: Timestamp,
    pub modified_by: String,
    pub change_reason: String,
    pub change_count: usize,
    pub is_current: bool,
}

/// The change recorded for the first version of a BOM.
pub open spec fn initial_change() -> ChangeModel {
    ChangeModel { field: "BOM"@, old_value: seq![], new_value: "初始版本"@, material_no: None }
}

/// `i` is the first version marked current.
pub open spec fn first_current(vs: Seq<BomVersion>, i: int) -> bool {
    &&& 0 <= i < vs.len()
    &&& vs[i].is_current
    &&& forall|j: int| 0 <= j < i ==> !(#[trigger] vs[j]).is_current
}

/// The position of the current version: the first marked current, else
/// the last.
pub open spec fn current_index(vs: Seq<BomVersion>) -> int {
    if exists|i: int| first_current(vs, i) {
        choose|i: int| first_current(vs, i)
    } else {
        vs.len() - 1
    }
}

/// `i` is the first version numbered `n`.
pub open spec fn first_numbered(vs: Seq<BomVersion>, n: u32, i: int) -> bool {
    &&& 0 <= i < vs.len()
    &&& vs[i].version_number == n
    &&& forall|j: int| 0 <= j < i ==> (#[trigger] vs[j]).version_number != n
}

/// Some version is numbered `n`.
pub open spec fn has_version(vs: Seq<BomVersion>, n: u32) -> bool {
    exists|i: int| 0 <= i < vs.len() && (#[trigger] vs[i]).version_number == n
}

/// The history is in the shape its operations keep: versions numbered
/// 1, 2, ... in order, only the last one current, and the current version
/// number that of the last.
pub open spec fn history_wf(h: VersionHistory) -> bool {
    &&& h.versions@.len() >= 1
    &&& h.current_version == h.versions@.len()
    &&& forall|i: int|
        0 <= i < h.versions@.len() ==> (#[trigger] h.versions@[i]).version_number == i + 1
            && h.versions@[i].is_current == (i == h.versions@.len() - 1)
}

/// The version as it is once a later version has been added.
pub open spec fn superseded(v: BomVersion) -> BomVersion {
    BomVersion { is_current: false, ..v }
}

/// `f` is `o` with a version added holding `data`, made by `by` for the
/// reason `why`, whose changes are those from the current version of `o`,
/// under a fresh random identifier.
pub open spec fn version_added(
    o: VersionHistory,
    f: VersionHistory,
    data: Seq<BomItem>,
    by: Seq<char>,
    why: Seq<char>,
) -> bool {
    let cur = o.versions@[current_index(o.versions@)];
    let n = f.versions@.last();
    &&& f.bom_id == o.bom_id
    &&& f.current_version == o.current_version + 1
    &&& f.versions@.len() == o.versions@.len() + 1
    &&& forall|i: int|
        0 <= i < o.versions@.len() ==> f.versions@[i] == superseded(#[trigger] o.versions@[i])
    &&& n.version_number == o.current_version + 1
    &&& n.bom_id == o.bom_id
    &&& n.data@ == data
    &&& n.modified_by@ == by
    &&& n.change_reason@ == why
    &&& change_views(n.change_description@) == bom_changes(cur.data@, data)
    &&& n.is_current
    &&& is_v4_uuid_text(n.version_id@)
    &&& current_index(f.versions@) == f.versions@.len() - 1
}

impl VersionHistory {
    /// A history holding one version, number 1, with the initial data.
    pub fn new(bom_id: &str, initial_data: Vec<BomItem>, created_by: &str, reason: &str) -> (r:
        VersionHistory)
        ensures
            r.bom_id@ == bom_id@,
            r.current_version == 1,
            r.versions@.len() == 1,
            r.versions@[0].version_number == 1,
            r.versions@[0].bom_id@ == bom_id@,
            r.versions@[0].data == initial_data,
            r.versions@[0].modified_by@ == created_by@,
            r.versions@[0].change_reason@ == reason@,
            change_views(r.versions@[0].change_description@) == seq![initial_change()],
            r.versions@[0].is_current,
            is_v4_uuid_text(r.versions@[0].version_id@),
            history_wf(r),
    {
        let first_change = ChangeItem {
            field: owned("BOM"),
            old_value: String::new(),
            new_value: owned("初始版本"),
            material_no: None,
        };
        let mut description: Vec<ChangeItem> = Vec::new();
        description.push(first_change);
        let first_version = BomVersion {
            version_id: new_version_id(),
            version_number: 1,
            bom_id: owned(bom_id),
            data: initial_data,
            created_at: now_utc(),
            modified_by: owned(created_by),
            change_reason: owned(reason),
            change_description: description,
            is_current: true,
        };
        let mut versions: Vec<BomVersion> = Vec::new();
        versions.push(first_version);
        let r = VersionHistory { bom_id: owned(bom_id), versions, current_version: 1 };
        proof {
            assert(change_views(r.versions@[0].change_description@) =~= seq![initial_change()]);
        }
        r
    }

    /// The current version: the first marked current, else the last.
    pub fn current(&self) -> (r: &BomVersion)
        requires
            self.versions@.len() > 0,
        ensures
            *r == self.versions@[current_index(self.versions@)],
    {
        let mut i: usize = 0;
        while i < self.versions.len()
            invariant
                i <= self.versions@.len(),
                forall|j: int| 0 <= j < i ==> !(#[trigger] self.versions@[j]).is_current,
            decreases self.versions@.len() - i,
        {
            if self.versions[i].is_current {
                proof {
                    assert(first_current(self.versions@, i as int));
                    let k = current_index(self.versions@);
                    assert(first_current(self.versions@, k));
                    if k < i {
                        assert(!self.versions@[k].is_current);
                    } else if i < k {
                        assert(!self.versions@[i as int].is_current);
                    }
                }
                return &self.versions[i];
            }
            i = i + 1;
        }
        proof {
            assert(!exists|k: int| first_current(self.versions@, k));
        }
        &self.versions[self.versions.len() - 1]
    }

    /// Adds a version holding `new_data`, numbered one past the current
    /// version number, recording the changes from the current version; it
    /// becomes the only current version.
    pub fn add_version(&mut self, new_data: Vec<BomItem>, modified_by: &str, reason: &str) -> (r:
        &BomVersion)
        requires
            old(self).versions@.len() > 0,
            old(self).current_version < u32::MAX,
        ensures
            version_added(*old(self), *final(self), new_data@, modified_by@, reason@),
            *r == final(self).versions@.last(),
            history_wf(*old(self)) ==> history_wf(*final(self)),
    {
        let changes = {
            let old_version = self.current();
            diff_bom(&old_version.data, &new_data)
        };
        let number = self.current_version + 1;
        let new_version = BomVersion {
            version_id: new_version_id(),
            version_number: number,
            bom_id: self.bom_id.clone(),
            data: new_data,
            created_at: now_utc(),
            modified_by: owned(modified_by),
            change_reason: owned(reason),
            change_description: changes,
            is_current: true,
        };
        let ghost before = self.versions@;
        let mut i: usize = 0;
        while i < self.versions.len()
            invariant
                i <= self.versions@.len(),
                before == old(self).versions@,
                self.bom_id == old(self).bom_id,
                self.current_version == old(self).current_version,
                self.versions@.len() == before.len(),
                forall|j: int| 0 <= j < i ==> self.versions@[j] == superseded(#[trigger] before[j]),
                forall|j: int| i <= j < before.len() ==> self.versions@[j] == #[trigger] before[j],
            decreases self.versions@.len() - i,
        {
            self.versions[i].is_current = false;
            i = i + 1;
        }
        self.versions.push(new_version);
        self.current_version = number;
        proof {
            let o = *old(self);
            let last = self.versions@.len() - 1;
            assert(first_current(self.versions@, last)) by {
                assert forall|j: int| 0 <= j < last implies !(#[trigger] self.versions@[j]).is_current by {
                    assert(self.versions@[j] == superseded(before[j]));
                }
            }
            let c = current_index(self.versions@);
            assert(first_current(self.versions@, c));
            if c < last {
                assert(self.versions@[c] == superseded(before[c]));
            }
            if history_wf(o) {
                assert forall|j: int| 0 <= j < self.versions@.len() implies (#[trigger] self.versions@[j]).version_number
                    == j + 1 && self.versions@[j].is_current == (j == self.versions@.len() - 1) by {
                    if j < before.len() {
                        assert(self.versions@[j] == superseded(before[j]));
                    }
                }
            }
        }
        let k = self.versions.len() - 1;
        &self.versions[k]
    }
}

/// The position of the first version numbered `n`.
pub open spec fn numbered_index(vs: Seq<BomVersion>, n: u32) -> int {
    choose|i: int| first_numbered(vs, n, i)
}

/// The reason recorded for a rollback to version `n`.
pub open spec fn rollback_reason(n: u32, reason: Seq<char>) -> Seq<char> {
    "回滚到版本 "@ + decimal(n as nat) + ": "@ + reason
}

/// The message for a missing version `n`.
pub open spec fn missing_version_message(n: u32) -> Seq<char> {
    "版本 "@ + decimal(n as nat) + " 不存在"@
}

/// The summary line of a version.
pub open spec fn summary_of(s: BomVersionSummary, v: BomVersion) -> bool {
    &&& s.version_number == v.version_number
    &&& s.version_id == v.version_id
    &&& s.created_at == v.created_at
    &&& s.modified_by == v.modified_by
    &&& s.change_reason == v.change_reason
    &&& s.change_count == v.change_description@.len()
    &&& s.is_current == v.is_current
}

/// The two versions hold the same values.
pub open spec fn same_version(a: BomVersion, b: BomVersion) -> bool {
    &&& a.version_id == b.version_id
    &&& a.version_number == b.version_number
    &&& a.bom_id == b.bom_id
    &&& a.data@ == b.data@
    &&& a.created_at == b.created_at
    &&& a.modified_by == b.modified_by
    &&& a.change_reason == b.change_reason
    &&& a.change_description@ == b.change_description@
    &&& a.is_current == b.is_current
}

proof fn lemma_first_numbered(vs: Seq<BomVersion>, n: u32, i: int)
    requires
        first_numbered(vs, n, i),
    ensures
        numbered_index(vs, n) == i,
{
    let k = numbered_index(vs, n);
    assert(first_numbered(vs, n, k));
    if k < i {
        assert(vs[k].version_number != n);
    } else if i < k {
        assert(vs[i].version_number != n);
    }
}

/// A copy of a list of items.
pub fn copy_items(v: &Vec<BomItem>) -> (r: Vec<BomItem>)
    ensures
        r@ == v@,
{
    let mut r: Vec<BomItem> = Vec::new();
    let mut i: usize = 0;
    while i < v.len()
        invariant
            i <= v@.len(),
            r@ == v@.take(i as int),
        decreases v@.len() - i,
    {
        r.push(v[i].duplicate());
        proof {
            assert(r@ =~= v@.take(i + 1));
        }
        i = i + 1;
    }
    assert(v@.take(i as int) =~= v@);
    r
}

impl ChangeItem {
    /// A copy of this change.
    pub fn duplicate(&self) -> (r: ChangeItem)
        ensures
            r == *self,
    {
        ChangeItem {
            field: self.field.clone(),
            old_value: self.old_value.clone(),
            new_value: self.new_value.clone(),
            material_no: copy_opt_string(&self.material_no),
        }
    }
}

impl Clone for ChangeItem {
    fn clone(&self) -> (r: ChangeItem)
        ensures
            r == *self,
    {
        self.duplicate()
    }
}

/// A copy of a list of changes.
fn copy_changes(v: &Vec<ChangeItem>) -> (r: Vec<ChangeItem>)
    ensures
        r@ == v@,
{
    let mut r: Vec<ChangeItem> = Vec::new();
    let mut i: usize = 0;
    while i < v.len()
        invariant
            i <= v@.len(),
            r@ == v@.take(i as int),
        decreases v@.len() - i,
    {
        r.push(v[i].duplicate());
        proof {
            assert(r@ =~= v@.take(i + 1));
        }
        i = i + 1;
    }
    assert(v@.take(i as int) =~= v@);
    r
}

impl BomVersion {
    /// A copy of this version.
    pub fn duplicate(&self) -> (r: BomVersion)
        ensures
            same_version(r, *self),
    {
        BomVersion {
            version_id: self.version_id.clone(),
            version_number: self.version_number,
            bom_id: self.bom_id.clone(),
            data: copy_items(&self.data),
            created_at: self.created_at,
            modified_by: self.modified_by.clone(),
            change_reason: self.change_reason.clone(),
            change_description: copy_changes(&self.change_description),
            is_current: self.is_current,
        }
    }
}

impl Clone for BomVersion {
    fn clone(&self) -> (r: BomVersion)
        ensures
            same_version(r, *self),
    {
        self.duplicate()
    }
}

impl VersionHistory {
    /// The position of the first version numbered `n`, if any.
    fn find_numbered(&self, n: u32) -> (r: Option<usize>)
        ensures
            match r {
                Some(i) => first_numbered(self.versions@, n, i as int),
                None => !has_version(self.versions@, n),
            },
    {
        let mut i: usize = 0;
        while i < self.versions.len()
            invariant
                i <= self.versions@.len(),
                forall|j: int| 0 <= j < i ==> (#[trigger] self.versions@[j]).version_number != n,
            decreases self.versions@.len() - i,
        {
            if self.versions[i].version_number == n {
                return Some(i);
            }
            i = i + 1;
        }
        None
    }

    /// Adds a version holding a copy of the data of the first version
    /// numbered `version_number`, with the reason marked as a rollback; an
    /// error when there is no such version.
    pub fn rollback(&mut self, version_number: u32, modified_by: &str, reason: &str) -> (r: Result<
        &BomVersion,
        String,
    >)
        requires
            old(self).versions@.len() > 0,
            has_version(old(self).versions@, version_number) ==> old(self).current_version
                < u32::MAX,
        ensures
            !has_version(old(self).versions@, version_number) ==> {
                &&& r matches Err(e) && e@ == missing_version_message(version_number)
                &&& *final(self) == *old(self)
            },
            has_version(old(self).versions@, version_number) ==> {
                let target = old(self).versions@[numbered_index(old(self).versions@, version_number)];
                &&& r matches Ok(v) && *v == final(self).versions@.last()
                &&& version_added(
                    *old(self),
                    *final(self),
                    target.data@,
                    modified_by@,
                    rollback_reason(version_number, reason@),
                )
                &&& final(self).versions@[current_index(final(self).versions@)].data@ == target.data@
            },
            history_wf(*old(self)) ==> history_wf(*final(self)),
    {
        match self.find_numbered(version_number) {
            None => Err(concat3("版本 ", u32_text(version_number).as_str(), " 不存在")),
            Some(i) => {
                proof {
                    lemma_first_numbered(self.versions@, version_number, i as int);
                }
                let data = copy_items(&self.versions[i].data);
                let why = concat4("回滚到版本 ", u32_text(version_number).as_str(), ": ", reason);
                Ok(self.add_version(data, modified_by, why.as_str()))
            },
        }
    }

    /// The first version numbered `version_number`, if any.
    pub fn get_version(&self, version_number: u32) -> (r: Option<&BomVersion>)
        ensures
            has_version(self.versions@, version_number) ==> (r matches Some(v) && *v
                == self.versions@[numbered_index(self.versions@, version_number)]),
            !has_version(self.versions@, version_number) ==> r is None,
    {
        match self.find_numbered(version_number) {
            None => None,
            Some(i) => {
                proof {
                    lemma_first_numbered(self.versions@, version_number, i as int);
                }
                Some(&self.versions[i])
            },
        }
    }

    /// The number of versions.
    pub fn version_count(&self) -> (r: usize)
        ensures
            r == self.versions@.len(),
    {
        self.versions.len()
    }

    /// The summary lines of the versions, in order.
    pub fn list_versions(&self) -> (r: Vec<BomVersionSummary>)
        ensures
            r@.len() == self.versions@.len(),
            forall|i: int| 0 <= i < r@.len() ==> summary_of(#[trigger] r@[i], self.versions@[i]),
    {
        let mut r: Vec<BomVersionSummary> = Vec::new();
        let mut i: usize = 0;
        while i < self.versions.len()
            invariant
                i <= self.versions@.len(),
                r@.len() == i,
                forall|j: int| 0 <= j < i ==> summary_of(#[trigger] r@[j], self.versions@[j]),
            decreases self.versions@.len() - i,
        {
            let v = &self.versions[i];
            r.push(
                BomVersionSummary {
                    version_number: v.version_number,
                    version_id: v.version_id.clone(),
                    created_at: v.created_at,
                    modified_by: v.modified_by.clone(),
                    change_reason: v.change_reason.clone(),
                    change_count: v.change_description.len(),
                    is_current: v.is_current,
                },
            );
            i = i + 1;
        }
        r
    }
}

/// A history as `VersionHistory::new` makes it.
pub open spec fn fresh_history(
    h: VersionHistory,
    bom_id: Seq<char>,
    data: Seq<BomItem>,
    by: Seq<char>,
    why: Seq<char>,
) -> bool {
    &&& h.bom_id@ == bom_id
    &&& h.current_version == 1
    &&& h.versions@.len() == 1
    &&& h.versions@[0].version_number == 1
    &&& h.versions@[0].bom_id@ == bom_id
    &&& h.versions@[0].data@ == data
    &&& h.versions@[0].modified_by@ == by
    &&& h.versions@[0].change_reason@ == why
    &&& change_views(h.versions@[0].change_description@) == seq![initial_change()]
    &&& h.versions@[0].is_current
    &&& is_v4_uuid_text(h.versions@[0].version_id@)
    &&& history_wf(h)
}

/// The histories by BOM id (a later history of the same id wins).
pub open spec fn histories_map(hs: Seq<VersionHistory>) -> Map<Seq<char>, VersionHistory>
    decreases hs.len(),
{
    if hs.len() == 0 {
        Map::empty()
    } else {
        histories_map(hs.drop_last()).insert(hs.last().bom_id@, hs.last())
    }
}

/// No two histories share a BOM id.
pub open spec fn distinct_ids(hs: Seq<VersionHistory>) -> bool {
    forall|i: int, j: int|
        0 <= i < hs.len() && 0 <= j < hs.len() && i != j ==> (#[trigger] hs[i]).bom_id@
            != (#[trigger] hs[j]).bom_id@
}

/// The histories of all BOMs, by BOM id.
pub struct VersionManager {
    histories: Vec<VersionHistory>,
}

impl View for VersionManager {
    type V = Map<Seq<char>, VersionHistory>;

    closed spec fn view(&self) -> Map<Seq<char>, VersionHistory> {
        histories_map(self.histories@)
    }
}

proof fn lemma_histories_map(hs: Seq<VersionHistory>)
    requires
        distinct_ids(hs),
    ensures
        forall|k: Seq<char>|
            histories_map(hs).contains_key(k) <==> exists|i: int|
                0 <= i < hs.len() && (#[trigger] hs[i]).bom_id@ == k,
        forall|i: int| 0 <= i < hs.len() ==> histories_map(hs)[(#[trigger] hs[i]).bom_id@] == hs[i],
    decreases hs.len(),
{
    if hs.len() > 0 {
        let init = hs.drop_last();
        assert(distinct_ids(init)) by {
            assert forall|i: int, j: int|
                0 <= i < init.len() && 0 <= j < init.len() && i != j implies (#[trigger] init[i]).bom_id@
                != (#[trigger] init[j]).bom_id@ by {
                assert(init[i] == hs[i] && init[j] == hs[j]);
            }
        }
        lemma_histories_map(init);
        let last = hs[hs.len() - 1];
        assert(histories_map(hs) == histories_map(init).insert(last.bom_id@, last));
        assert forall|k: Seq<char>|
            histories_map(hs).contains_key(k) <==> exists|i: int|
                0 <= i < hs.len() && (#[trigger] hs[i]).bom_id@ == k by {
            if histories_map(hs).contains_key(k) {
                if k == last.bom_id@ {
                    assert(hs[hs.len() - 1].bom_id@ == k);
                } else {
                    assert(histories_map(init).contains_key(k));
                    let i = choose|i: int| 0 <= i < init.len() && (#[trigger] init[i]).bom_id@ == k;
                    assert(hs[i] == init[i]);
                }
            }
            if exists|i: int| 0 <= i < hs.len() && (#[trigger] hs[i]).bom_id@ == k {
                let i = choose|i: int| 0 <= i < hs.len() && (#[trigger] hs[i]).bom_id@ == k;
                if i < init.len() {
                    assert(init[i] == hs[i]);
                }
            }
        }
        assert forall|i: int| 0 <= i < hs.len() implies histories_map(hs)[(#[trigger] hs[i]).bom_id@]
            == hs[i] by {
            if i < init.len() {
                assert(init[i] == hs[i]);
                assert(hs[i].bom_id@ != hs[hs.len() - 1].bom_id@);
            }
        }
    }
}

proof fn lemma_map_set(hs: Seq<VersionHistory>, i: int, h: VersionHistory)
    requires
        distinct_ids(hs),
        0 <= i < hs.len(),
        h.bom_id@ == hs[i].bom_id@,
    ensures
        distinct_ids(hs.update(i, h)),
        histories_map(hs.update(i, h)) == histories_map(hs).insert(h.bom_id@, h),
{
    let u = hs.update(i, h);
    assert(distinct_ids(u)) by {
        assert forall|a: int, b: int|
            0 <= a < u.len() && 0 <= b < u.len() && a != b implies (#[trigger] u[a]).bom_id@
            != (#[trigger] u[b]).bom_id@ by {
            assert(hs[a].bom_id@ != hs[b].bom_id@);
        }
    }
    lemma_histories_map(hs);
    lemma_histories_map(u);
    let m1 = histories_map(u);
    let m2 = histories_map(hs).insert(h.bom_id@, h);
    assert forall|k: Seq<char>| m1.contains_key(k) <==> m2.contains_key(k) by {
        if m1.contains_key(k) {
            let a = choose|a: int| 0 <= a < u.len() && (#[trigger] u[a]).bom_id@ == k;
            if a != i {
                assert(hs[a] == u[a]);
            }
        }
        if m2.contains_key(k) {
            if k == h.bom_id@ {
                assert(u[i] == h);
            } else {
                let a = choose|a: int| 0 <= a < hs.len() && (#[trigger] hs[a]).bom_id@ == k;
                assert(u[a] == hs[a]);
            }
        }
    }
    assert forall|k: Seq<char>| m1.contains_key(k) implies m1[k] == m2[k] by {
        let a = choose|a: int| 0 <= a < u.len() && (#[trigger] u[a]).bom_id@ == k;
        if a != i {
            assert(hs[a] == u[a]);
        }
    }
    assert(m1 =~= m2);
}

proof fn lemma_map_push(hs: Seq<VersionHistory>, h: VersionHistory)
    requires
        distinct_ids(hs),
        forall|i: int| 0 <= i < hs.len() ==> (#[trigger] hs[i]).bom_id@ != h.bom_id@,
    ensures
        distinct_ids(hs.push(h)),
        histories_map(hs.push(h)) == histories_map(hs).insert(h.bom_id@, h),
{
    let u = hs.push(h);
    assert(u.drop_last() =~= hs);
    assert(distinct_ids(u)) by {
        assert forall|a: int, b: int|
            0 <= a < u.len() && 0 <= b < u.len() && a != b implies (#[trigger] u[a]).bom_id@
            != (#[trigger] u[b]).bom_id@ by {
            if a < hs.len() && b < hs.len() {
                assert(hs[a].bom_id@ != hs[b].bom_id@);
            } else if a < hs.len() {
                assert(hs[a].bom_id@ != h.bom_id@);
            } else if b < hs.len() {
                assert(hs[b].bom_id@ != h.bom_id@);
            }
        }
    }
}

impl VersionManager {
    /// The histories have distinct BOM ids and each holds a version.
    pub closed spec fn wf(&self) -> bool {
        &&& distinct_ids(self.histories@)
        &&& forall|i: int| 0 <= i < self.histories@.len() ==> history_wf(#[trigger] self.histories@[i])
    }

    /// A manager with no BOM.
    pub fn new() -> (r: VersionManager)
        ensures
            r.wf(),
            r@ == Map::<Seq<char>, VersionHistory>::empty(),
    {
        let r = VersionManager { histories: Vec::new() };
        proof {
            assert(histories_map(r.histories@) =~= Map::<Seq<char>, VersionHistory>::empty());
        }
        r
    }

    /// The position of the history of `bom_id`, if any.
    fn position(&self, bom_id: &str) -> (r: Option<usize>)
        requires
            self.wf(),
        ensures
            match r {
                Some(i) => i < self.histories@.len() && self.histories@[i as int].bom_id@ == bom_id@
                    && self@.contains_key(bom_id@) && self@[bom_id@] == self.histories@[i as int],
                None => !self@.contains_key(bom_id@) && forall|i: int|
                    0 <= i < self.histories@.len() ==> (#[trigger] self.histories@[i]).bom_id@ != bom_id@,
            },
    {
        proof {
            lemma_histories_map(self.histories@);
        }
        let mut i: usize = 0;
        while i < self.histories.len()
            invariant
                self.wf(),
                i <= self.histories@.len(),
                forall|j: int| 0 <= j < i ==> (#[trigger] self.histories@[j]).bom_id@ != bom_id@,
            decreases self.histories@.len() - i,
        {
            if str_equal(self.histories[i].bom_id.as_str(), bom_id) {
                proof {
                    lemma_histories_map(self.histories@);
                }
                return Some(i);
            }
            i = i + 1;
        }
        None
    }

    /// Starts (or restarts) the history of `bom_id` with one version
    /// holding `data`, and gives that version.
    pub fn create_bom(&mut self, bom_id: &str, data: Vec<BomItem>, created_by: &str, reason: &str) -> (r:
        &BomVersion)
        requires
            old(self).wf(),
        ensures
            final(self).wf(),
            final(self)@ == old(self)@.insert(bom_id@, final(self)@[bom_id@]),
            fresh_history(final(self)@[bom_id@], bom_id@, data@, created_by@, reason@),
            *r == final(self)@[bom_id@].versions@[0],
    {
        let ghost data_view = data@;
        let history = VersionHistory::new(bom_id, data, created_by, reason);
        let pos = self.position(bom_id);
        match pos {
            Some(i) => {
                proof {
                    lemma_map_set(self.histories@, i as int, history);
                }
                self.histories.set(i, history);
                proof {
                    lemma_histories_map(self.histories@);
                }
                &self.histories[i].versions[0]
            },
            None => {
                proof {
                    lemma_map_push(self.histories@, history);
                }
                self.histories.push(history);
                let k = self.histories.len() - 1;
                proof {
                    lemma_histories_map(self.histories@);
                }
                &self.histories[k].versions[0]
            },
        }
    }

    /// The message for a missing BOM.
    fn missing_bom(bom_id: &str) -> (r: String)
        ensures
            r@ == missing_bom_message(bom_id@),
    {
        concat3("BOM ", bom_id, " 不存在")
    }

    /// Adds a version holding `data` to the history of `bom_id` (see
    /// `VersionHistory::add_version`); an error when there is no such BOM.
    pub fn update_bom(&mut self, bom_id: &str, data: Vec<BomItem>, modified_by: &str, reason: &str) -> (r:
        Result<&BomVersion, String>)
        requires
            old(self).wf(),
            old(self)@.contains_key(bom_id@) ==> old(self)@[bom_id@].current_version < u32::MAX,
        ensures
            final(self).wf(),
            !old(self)@.contains_key(bom_id@) ==> {
                &&& r matches Err(e) && e@ == missing_bom_message(bom_id@)
                &&& final(self)@ == old(self)@
            },
            old(self)@.contains_key(bom_id@) ==> {
                &&& r matches Ok(v) && *v == final(self)@[bom_id@].versions@.last()
                &&& final(self)@ == old(self)@.insert(bom_id@, final(self)@[bom_id@])
                &&& version_added(
                    old(self)@[bom_id@],
                    final(self)@[bom_id@],
                    data@,
                    modified_by@,
                    reason@,
                )
            },
    {
        match self.position(bom_id) {
            None => Err(Self::missing_bom(bom_id)),
            Some(i) => {
                let ghost before = self.histories@;
                let _ = self.histories[i].add_version(data, modified_by, reason);
                proof {
                    let h = self.histories@[i as int];
                    assert(self.histories@ == before.update(i as int, h));
                    lemma_map_set(before, i as int, h);
                    lemma_histories_map(self.histories@);
                    assert forall|j: int| 0 <= j < self.histories@.len() implies (#[trigger] self.histories@[j]).versions@.len() > 0 by {
                        if j != i {
                            assert(self.histories@[j] == before[j]);
                        }
                    }
                }
                let k = self.histories[i].versions.len() - 1;
                Ok(&self.histories[i].versions[k])
            },
        }
    }

    /// Rolls the history of `bom_id` back to version `version_number` (see
    /// `VersionHistory::rollback`); an error when there is no such BOM or
    /// no such version.
    pub fn rollback(&mut self, bom_id: &str, version_number: u32, modified_by: &str, reason: &str) -> (r:
        Result<&BomVersion, String>)
        requires
            old(self).wf(),
            old(self)@.contains_key(bom_id@) && has_version(old(self)@[bom_id@].versions@, version_number)
                ==> old(self)@[bom_id@].current_version < u32::MAX,
        ensures
            final(self).wf(),
            !old(self)@.contains_key(bom_id@) ==> {
                &&& r matches Err(e) && e@ == missing_bom_message(bom_id@)
                &&& final(self)@ == old(self)@
            },
            old(self)@.contains_key(bom_id@) && !has_version(old(self)@[bom_id@].versions@, version_number)
                ==> {
                &&& r matches Err(e) && e@ == missing_version_message(version_number)
                &&& final(self)@ == old(self)@
            },
            old(self)@.contains_key(bom_id@) && has_version(old(self)@[bom_id@].versions@, version_number)
                ==> {
                let o = old(self)@[bom_id@];
                let target = o.versions@[numbered_index(o.versions@, version_number)];
                &&& r matches Ok(v) && *v == final(self)@[bom_id@].versions@.last()
                &&& final(self)@ == old(self)@.insert(bom_id@, final(self)@[bom_id@])
                &&& version_added(
                    o,
                    final(self)@[bom_id@],
                    target.data@,
                    modified_by@,
                    rollback_reason(version_number, reason@),
                )
            },
    {
        match self.position(bom_id) {
            None => Err(Self::missing_bom(bom_id)),
            Some(i) => {
                let ghost before = self.histories@;
                let failure = match self.histories[i].rollback(version_number, modified_by, reason) {
                    Ok(_) => None,
                    Err(e) => Some(e),
                };
                proof {
                    let h = self.histories@[i as int];
                    assert(self.histories@ == before.update(i as int, h));
                    lemma_map_set(before, i as int, h);
                    lemma_histories_map(self.histories@);
                    assert forall|j: int| 0 <= j < self.histories@.len() implies (#[trigger] self.histories@[j]).versions@.len() > 0 by {
                        if j != i {
                            assert(self.histories@[j] == before[j]);
                        }
                    }
                    if failure is Some {
                        lemma_histories_map(before);
                        assert(histories_map(before).insert(h.bom_id@, h) =~= histories_map(before));
                    }
                }
                match failure {
                    Some(e) => Err(e),
                    None => {
                        let k = self.histories[i].versions.len() - 1;
                        Ok(&self.histories[i].versions[k])
                    },
                }
            },
        }
    }

    /// The current version of `bom_id`, if there is such a BOM.
    pub fn get_current(&self, bom_id: &str) -> (r: Option<&BomVersion>)
        requires
            self.wf(),
        ensures
            self@.contains_key(bom_id@) ==> (r matches Some(v) && *v == self@[bom_id@].versions@[current_index(
                self@[bom_id@].versions@,
            )]),
            self@.contains_key(bom_id@) ==> history_wf(self@[bom_id@]) && (r matches Some(v)
                && v.version_number == self@[bom_id@].current_version),
            !self@.contains_key(bom_id@) ==> r is None,
    {
        match self.position(bom_id) {
            None => None,
            Some(i) => {
                proof {
                    let h = self.histories@[i as int];
                    let last = h.versions@.len() - 1;
                    assert(history_wf(h));
                    assert(first_current(h.versions@, last)) by {
                        assert forall|j: int| 0 <= j < last implies !(#[trigger] h.versions@[j]).is_current by {
                            assert(h.versions@[j].is_current == (j == last));
                        }
                    }
                    let c = current_index(h.versions@);
                    assert(first_current(h.versions@, c));
                    assert(h.versions@[c].is_current == (c == last));
                }
                Some(self.histories[i].current())
            },
        }
    }

    /// The first version numbered `version_number` of `bom_id`, if any.
    pub fn get_version(&self, bom_id: &str, version_number: u32) -> (r: Option<&BomVersion>)
        requires
            self.wf(),
        ensures
            self@.contains_key(bom_id@) && has_version(self@[bom_id@].versions@, version_number) ==> (r matches Some(v)
                && *v == self@[bom_id@].versions@[numbered_index(
                self@[bom_id@].versions@,
                version_number,
            )]),
            !(self@.contains_key(bom_id@) && has_version(self@[bom_id@].versions@, version_number)) ==> r is None,
    {
        match self.position(bom_id) {
            None => None,
            Some(i) => self.histories[i].get_version(version_number),
        }
    }

    /// The summary lines of the versions of `bom_id`, if there is such a BOM.
    pub fn list_versions(&self, bom_id: &str) -> (r: Option<Vec<BomVersionSummary>>)
        requires
            self.wf(),
        ensures
            self@.contains_key(bom_id@) ==> (r matches Some(s) && s@.len() == self@[bom_id@].versions@.len()
                && forall|i: int| 0 <= i < s@.len() ==> summary_of(#[trigger] s@[i], self@[bom_id@].versions@[i])),
            !self@.contains_key(bom_id@) ==> r is None,
    {
        match self.position(bom_id) {
            None => None,
            Some(i) => Some(self.histories[i].list_versions()),
        }
    }

    /// Whether there is a BOM `bom_id`.
    pub fn has_bom(&self, bom_id: &str) -> (r: bool)
        requires
            self.wf(),
        ensures
            r == self@.contains_key(bom_id@),
    {
        self.position(bom_id).is_some()
    }

    /// The ids of all BOMs, each once.
    pub fn all_bom_ids(&self) -> (r: Vec<String>)
        requires
            self.wf(),
        ensures
            texts(r@).no_duplicates(),
            forall|k: Seq<char>| texts(r@).contains(k) <==> self@.contains_key(k),
    {
        proof {
            lemma_histories_map(self.histories@);
        }
        let mut r: Vec<String> = Vec::new();
        let mut i: usize = 0;
        while i < self.histories.len()
            invariant
                self.wf(),
                i <= self.histories@.len(),
                r@.len() == i,
                forall|j: int| 0 <= j < i ==> (#[trigger] r@[j])@ == self.histories@[j].bom_id@,
            decreases self.histories@.len() - i,
        {
            r.push(self.histories[i].bom_id.clone());
            i = i + 1;
        }
        proof {
            lemma_histories_map(self.histories@);
            let t = texts(r@);
            assert forall|a: int, b: int| 0 <= a < t.len() && 0 <= b < t.len() && a != b implies t[a] != t[b] by {
                assert(self.histories@[a].bom_id@ != self.histories@[b].bom_id@);
            }
            assert forall|k: Seq<char>| t.contains(k) <==> self@.contains_key(k) by {
                if t.contains(k) {
                    let a = choose|a: int| 0 <= a < t.len() && t[a] == k;
                    assert(self.histories@[a].bom_id@ == k);
                }
                if self@.contains_key(k) {
                    let a = choose|a: int| 0 <= a < self.histories@.len() && (#[trigger] self.histories@[a]).bom_id@ == k;
                    assert(t[a] == k);
                }
            }
        }
        r
    }
}

/// The message for a missing BOM.
pub open spec fn missing_bom_message(bom_id: Seq<char>) -> Seq<char> {
    "BOM "@ + bom_id + " 不存在"@
}

impl Default for VersionManager {
    fn default() -> (r: VersionManager)
        ensures
            r.wf(),
            r@ == Map::<Seq<char>, VersionHistory>::empty(),
    {
        VersionManager::new()
    }
}


/// The author recorded for an imported BOM: the one the request names, or
/// "system".
pub open spec fn import_author(created_by: Option<Seq<char>>) -> Seq<char> {
    match created_by {
        Some(a) => a,
        None => "system"@,
    }
}

/// The reason recorded for an uploaded BOM: the one the request gives, or
/// "上传导入".
pub open spec fn upload_reason(reason: Option<Seq<char>>) -> Seq<char> {
    match reason {
        Some(w) => w,
        None => "上传导入"@,
    }
}

/// Who made an uploaded BOM and why, with the defaults where the request
/// names none.
pub fn upload_attribution(created_by: Option<&str>, reason: Option<&str>) -> (r: (String, String))
    ensures
        r.0@ == import_author(
            match created_by {
                Some(a) => Some(a@),
                None => None,
            },
        ),
        r.1@ == upload_reason(
            match reason {
                Some(w) => Some(w@),
                None => None,
            },
        ),
{
    let author = match created_by {
        Some(a) => owned(a),
        None => owned("system"),
    };
    let why = match reason {
        Some(w) => owned(w),
        None => owned("上传导入"),
    };
    (author, why)
}

} // verus!
