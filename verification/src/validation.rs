//! Checking a BOM: required fields, master data, quantities, loss rates
//! and circular parent references.
pub mod cycles;

use vstd::prelude::*;
use crate::bom::BomItem;
use crate::number::{Number, bits_le, bits_lt, is_nan_bits, lemma_zero_bits_key, order_key, zero_bits};
use crate::bom::parser::{texts, opt_text};
use crate::text::{concat2, concat3, concat4, owned};
use crate::validation::cycles::{cycle_report, find_cycles};

verus! {

/// How serious an issue is.
#[derive(Clone, Copy, Debug, PartialEq, Eq, Structural)]
pub enum IssueLevel {
    Error,
    Warning,
    Info,
}

/// One finding of a check.
#[derive(Debug)]
pub struct ValidationIssue {
    pub level: IssueLevel,
    pub code: String,
    pub message: String,
    pub material_no: Option<String>,
    pub field: Option<String>,
}

/// The mathematical form of a `ValidationIssue`.
pub struct IssueModel {
    pub level: IssueLevel,
    pub code: Seq<char>,
    pub message: Seq<char>,
    pub material_no: Option<Seq<char>>,
    pub field: Option<Seq<char>>,
}

impl View for ValidationIssue {
    type V = IssueModel;

    open spec fn view(&self) -> IssueModel {
        IssueModel {
            level: self.level,
            code: self.code@,
            message: self.message@,
            material_no: opt_text(self.material_no),
            field: opt_text(self.field),
        }
    }
}

/// The views of a list of issues.
pub open spec fn issue_views(s: Seq<ValidationIssue>) -> Seq<IssueModel> {
    s.map_values(|i: ValidationIssue| i@)
}

/// The number of issues of a level.
pub open spec fn count_level(s: Seq<IssueModel>, l: IssueLevel) -> nat
    decreases s.len(),
{
    if s.len() == 0 {
        0
    } else {
        count_level(s.drop_last(), l) + if s.last().level == l {
            1nat
        } else {
            0nat
        }
    }
}

/// The outcome of the checks.
#[derive(Debug)]
pub struct ValidationResult {
    pub valid: bool,
    pub issues: Vec<ValidationIssue>,
    pub error_count: usize,
    pub warning_count: usize,
    pub info_count: usize,
}

impl ValidationResult {
    /// Its counts and validity agree with its issues.
    pub open spec fn consistent(&self) -> bool {
        &&& self.error_count == count_level(issue_views(self.issues@), IssueLevel::Error)
        &&& self.warning_count == count_level(issue_views(self.issues@), IssueLevel::Warning)
        &&& self.info_count == count_level(issue_views(self.issues@), IssueLevel::Info)
        &&& self.valid == (self.error_count == 0)
    }

    /// A valid result without issues.
    pub fn new() -> (r: ValidationResult)
        ensures
            r.valid,
            r.issues@.len() == 0,
            r.error_count == 0,
            r.warning_count == 0,
            r.info_count == 0,
            r.consistent(),
    {
        ValidationResult {
            valid: true,
            issues: Vec::new(),
            error_count: 0,
            warning_count: 0,
            info_count: 0,
        }
    }

    /// Records an issue: counts it by level, and an error makes the result invalid.
    pub fn add_issue(&mut self, issue: ValidationIssue)
        requires
            issue.level == IssueLevel::Error ==> old(self).error_count < usize::MAX,
            issue.level == IssueLevel::Warning ==> old(self).warning_count < usize::MAX,
            issue.level == IssueLevel::Info ==> old(self).info_count < usize::MAX,
        ensures
            final(self).issues@ == old(self).issues@.push(issue),
            final(self).valid == (old(self).valid && issue.level != IssueLevel::Error),
            final(self).error_count == old(self).error_count + if issue.level == IssueLevel::Error {
                1int
            } else {
                0int
            },
            final(self).warning_count == old(self).warning_count + if issue.level
                == IssueLevel::Warning {
                1int
            } else {
                0int
            },
            final(self).info_count == old(self).info_count + if issue.level == IssueLevel::Info {
                1int
            } else {
                0int
            },
            old(self).consistent() ==> final(self).consistent(),
    {
        let ghost before = issue_views(self.issues@);
        match issue.level {
            IssueLevel::Error => {
                self.valid = false;
                self.error_count = self.error_count + 1;
            },
            IssueLevel::Warning => self.warning_count = self.warning_count + 1,
            IssueLevel::Info => self.info_count = self.info_count + 1,
        }
        let ghost iv = issue@;
        self.issues.push(issue);
        proof {
            assert(issue_views(self.issues@) =~= before.push(iv));
            assert(issue_views(self.issues@).drop_last() =~= before);
        }
    }

    /// Records every issue of `other`, in order.
    pub fn merge(&mut self, other: ValidationResult)
        requires
            old(self).error_count + count_level(issue_views(other.issues@), IssueLevel::Error)
                <= usize::MAX,
            old(self).warning_count + count_level(issue_views(other.issues@), IssueLevel::Warning)
                <= usize::MAX,
            old(self).info_count + count_level(issue_views(other.issues@), IssueLevel::Info)
                <= usize::MAX,
        ensures
            final(self).issues@ == old(self).issues@ + other.issues@,
            final(self).valid == (old(self).valid && count_level(
                issue_views(other.issues@),
                IssueLevel::Error,
            ) == 0),
            final(self).error_count == old(self).error_count + count_level(
                issue_views(other.issues@),
                IssueLevel::Error,
            ),
            final(self).warning_count == old(self).warning_count + count_level(
                issue_views(other.issues@),
                IssueLevel::Warning,
            ),
            final(self).info_count == old(self).info_count + count_level(
                issue_views(other.issues@),
                IssueLevel::Info,
            ),
            old(self).consistent() ==> final(self).consistent(),
    {
        let ghost start = *self;
        let ghost os = issue_views(other.issues@);
        let n = other.issues.len();
        let mut idx: usize = 0;
        while idx < n
            invariant
                n == other.issues@.len(),
                idx <= n,
                os == issue_views(other.issues@),
                self.issues@ == start.issues@ + other.issues@.subrange(0, idx as int),
                self.valid == (start.valid && count_level(os.subrange(0, idx as int), IssueLevel::Error) == 0),
                self.error_count == start.error_count + count_level(os.subrange(0, idx as int), IssueLevel::Error),
                self.warning_count == start.warning_count + count_level(os.subrange(0, idx as int), IssueLevel::Warning),
                self.info_count == start.info_count + count_level(os.subrange(0, idx as int), IssueLevel::Info),
                start.consistent() ==> self.consistent(),
                start.error_count + count_level(os, IssueLevel::Error) <= usize::MAX,
                start.warning_count + count_level(os, IssueLevel::Warning) <= usize::MAX,
                start.info_count + count_level(os, IssueLevel::Info) <= usize::MAX,
            decreases n - idx,
        {
            let x = other.issues[idx].clone_issue();
            proof {
                lemma_count_prefix_le(os, idx as int + 1);
                assert(os.subrange(0, idx as int + 1).drop_last() =~= os.subrange(0, idx as int));
                assert(os[idx as int] == x@);
                let pre = os.subrange(0, idx as int + 1);
                assert(pre.last() == x@);
                assert(count_level(pre, IssueLevel::Error) <= count_level(os, IssueLevel::Error));
                assert(count_level(pre, IssueLevel::Warning) <= count_level(os, IssueLevel::Warning));
                assert(count_level(pre, IssueLevel::Info) <= count_level(os, IssueLevel::Info));
            }
            self.add_issue(x);
            idx = idx + 1;
            assert(self.issues@ =~= start.issues@ + other.issues@.subrange(0, idx as int));
        }
        assert(other.issues@.subrange(0, n as int) =~= other.issues@);
        assert(os.subrange(0, n as int) =~= os);
    }
}

proof fn lemma_count_prefix_le(s: Seq<IssueModel>, k: int)
    requires
        0 <= k <= s.len(),
    ensures
        forall|l: IssueLevel| #[trigger] count_level(s.subrange(0, k), l) <= count_level(s, l),
    decreases s.len() - k,
{
    if k < s.len() {
        lemma_count_prefix_le(s, k + 1);
        assert forall|l: IssueLevel| #[trigger] count_level(s.subrange(0, k), l) <= count_level(s, l) by {
            assert(count_level(s.subrange(0, k + 1), l) <= count_level(s, l));
            assert(s.subrange(0, k + 1).drop_last() =~= s.subrange(0, k));
        }
    } else {
        assert(s.subrange(0, k) =~= s);
    }
}

impl ValidationIssue {
    /// A copy of this issue.
    pub fn clone_issue(&self) -> (r: ValidationIssue)
        ensures
            r == *self,
    {
        ValidationIssue {
            level: self.level,
            code: self.code.clone(),
            message: self.message.clone(),
            material_no: crate::bom::copy_opt_string(&self.material_no),
            field: crate::bom::copy_opt_string(&self.field),
        }
    }
}

/// An issue with the given parts.
pub open spec fn issue_of(
    level: IssueLevel,
    code: Seq<char>,
    message: Seq<char>,
    material_no: Option<Seq<char>>,
    field: Seq<char>,
) -> IssueModel {
    IssueModel { level, code, message, material_no, field: Some(field) }
}

/// The sequence holding `x` when `c` holds, else the empty sequence.
pub open spec fn only_if<A>(c: bool, x: A) -> Seq<A> {
    if c {
        seq![x]
    } else {
        seq![]
    }
}

/// An earlier item has the same material number as item `i`.
pub open spec fn duplicate_before(items: Seq<BomItem>, i: int) -> bool {
    exists|j: int| 0 <= j < i && #[trigger] items[j].material_no@ == items[i].material_no@
}

/// The field findings for item `i`: an empty material number (and nothing
/// else for that item), a repeated material number, an empty name, an
/// empty unit.
pub open spec fn field_issues_of(items: Seq<BomItem>, i: int) -> Seq<IssueModel> {
    let it = items[i];
    let no = it.material_no@;
    if no.len() == 0 {
        seq![issue_of(IssueLevel::Error, "EMPTY_MATERIAL_NO"@, "物料号不能为空"@, None, "物料号"@)]
    } else {
        only_if(
            duplicate_before(items, i),
            issue_of(
                IssueLevel::Error,
                "DUPLICATE_MATERIAL_NO"@,
                "物料号 "@ + no + " 重复"@,
                Some(no),
                "物料号"@,
            ),
        ) + only_if(
            it.material_name@.len() == 0,
            issue_of(
                IssueLevel::Warning,
                "EMPTY_MATERIAL_NAME"@,
                "物料 "@ + no + " 名称为空"@,
                Some(no),
                "物料名称"@,
            ),
        ) + only_if(
            it.unit@.len() == 0,
            issue_of(
                IssueLevel::Warning,
                "EMPTY_UNIT"@,
                "物料 "@ + no + " 单位为空"@,
                Some(no),
                "单位"@,
            ),
        )
    }
}

/// The master-data finding for item `i`.
pub open spec fn master_issues_of(items: Seq<BomItem>, master: Set<Seq<char>>, i: int) -> Seq<
    IssueModel,
> {
    let no = items[i].material_no@;
    only_if(
        !master.contains(no),
        issue_of(
            IssueLevel::Error,
            "MATERIAL_NOT_IN_MASTER"@,
            "物料号 "@ + no + " 不在主数据中"@,
            Some(no),
            "物料号"@,
        ),
    )
}

/// The quantity and price findings for item `i`.
pub open spec fn quantity_issues_of(items: Seq<BomItem>, i: int) -> Seq<IssueModel> {
    let it = items[i];
    let no = it.material_no@;
    only_if(
        bits_le(it.quantity.bits, zero_bits()),
        issue_of(
            IssueLevel::Error,
            "INVALID_QUANTITY"@,
            "物料 "@ + no + " 数量 "@ + it.quantity.text@ + " 必须为正数"@,
            Some(no),
            "数量"@,
        ),
    ) + only_if(
        bits_lt(it.unit_price.bits, zero_bits()),
        issue_of(
            IssueLevel::Error,
            "NEGATIVE_PRICE"@,
            "物料 "@ + no + " 单价 "@ + it.unit_price.text@ + " 不能为负数"@,
            Some(no),
            "单价"@,
        ),
    )
}

/// The loss-rate findings for item `i` against the limit `max`.
pub open spec fn loss_issues_of(items: Seq<BomItem>, max: Number, i: int) -> Seq<IssueModel> {
    let it = items[i];
    let no = it.material_no@;
    only_if(
        bits_lt(it.loss_rate.bits, zero_bits()),
        issue_of(
            IssueLevel::Error,
            "NEGATIVE_LOSS_RATE"@,
            "物料 "@ + no + " 损耗率 "@ + it.loss_rate.text@ + " 不能为负数"@,
            Some(no),
            "损耗率"@,
        ),
    ) + only_if(
        bits_lt(max.bits, it.loss_rate.bits),
        issue_of(
            IssueLevel::Error,
            "LOSS_RATE_TOO_HIGH"@,
            "物料 "@ + no + " 损耗率 "@ + it.loss_rate.percent_text@ + "% 超过上限 "@
                + max.percent_text@ + "%"@,
            Some(no),
            "损耗率"@,
        ),
    )
}

/// The field findings for all items, in item order.
pub open spec fn field_issues(items: Seq<BomItem>) -> Seq<IssueModel> {
    Seq::new(items.len(), |i: int| field_issues_of(items, i)).flatten()
}

/// The master-data findings (none when the master data is empty).
pub open spec fn master_issues(items: Seq<BomItem>, master: Set<Seq<char>>) -> Seq<IssueModel> {
    if master.is_empty() {
        seq![]
    } else {
        Seq::new(items.len(), |i: int| master_issues_of(items, master, i)).flatten()
    }
}

/// The quantity and price findings for all items.
pub open spec fn quantity_issues(items: Seq<BomItem>) -> Seq<IssueModel> {
    Seq::new(items.len(), |i: int| quantity_issues_of(items, i)).flatten()
}

/// The loss-rate findings for all items.
pub open spec fn loss_issues(items: Seq<BomItem>, max: Number) -> Seq<IssueModel> {
    Seq::new(items.len(), |i: int| loss_issues_of(items, max, i)).flatten()
}

/// An issue of level `level` with a fixed code and field.
fn make_issue(
    level: IssueLevel,
    code: &str,
    message: String,
    material_no: Option<String>,
    field: &str,
) -> (r: ValidationIssue)
    ensures
        r@ == issue_of(level, code@, message@, opt_text(material_no), field@),
{
    ValidationIssue {
        level,
        code: owned(code),
        message,
        material_no,
        field: Some(owned(field)),
    }
}

proof fn lemma_flatten_take(s: Seq<Seq<IssueModel>>, i: int)
    requires
        0 <= i < s.len(),
    ensures
        s.take(i + 1).flatten() == s.take(i).flatten() + s[i],
{
    assert(s.take(i + 1) =~= s.take(i).push(s[i]));
    s.take(i).lemma_flatten_push(s[i]);
}

/// Every entry of every part is an entry of the concatenation of the parts.
pub(crate) proof fn lemma_in_flatten<A>(s: Seq<Seq<A>>, i: int, t: int)
    requires
        0 <= i < s.len(),
        0 <= t < s[i].len(),
    ensures
        exists|k: int| 0 <= k < s.flatten().len() && s.flatten()[k] == s[i][t],
    decreases s.len(),
{
    if i == 0 {
        assert(s.flatten()[t] == s[i][t]);
    } else {
        let rest = s.drop_first();
        assert(rest[i - 1] == s[i]);
        lemma_in_flatten(rest, i - 1, t);
        let k2 = choose|k: int| 0 <= k < rest.flatten().len() && rest.flatten()[k] == s[i][t];
        assert(s.flatten()[s[0].len() + k2] == s[i][t]);
    }
}

/// An entry of a level makes the count of that level positive.
proof fn lemma_level_counted(s: Seq<IssueModel>, l: IssueLevel, k: int)
    requires
        0 <= k < s.len(),
        s[k].level == l,
    ensures
        count_level(s, l) > 0,
    decreases s.len(),
{
    if k < s.len() - 1 {
        lemma_level_counted(s.drop_last(), l, k);
    }
}

/// An entry of the findings of one item, in one of the four groups of
/// per-item checks, is among the findings of all the checks.
proof fn lemma_item_part_checked(
    items: Seq<BomItem>,
    master: Set<Seq<char>>,
    max: Number,
    j: int,
    x: IssueModel,
)
    requires
        0 <= j < items.len(),
        field_issues_of(items, j).contains(x) || (!master.is_empty() && master_issues_of(
            items,
            master,
            j,
        ).contains(x)) || quantity_issues_of(items, j).contains(x) || loss_issues_of(
            items,
            max,
            j,
        ).contains(x),
    ensures
        checked_issues(items, master, max).contains(x),
{
    let f = field_issues(items);
    let m = master_issues(items, master);
    let q = quantity_issues(items);
    let l = loss_issues(items, max);
    let all = checked_issues(items, master, max);
    assert(all == f + m + q + l);
    if field_issues_of(items, j).contains(x) {
        let per = Seq::new(items.len(), |i: int| field_issues_of(items, i));
        assert(per[j] == field_issues_of(items, j));
        let t = choose|t: int| 0 <= t < per[j].len() && per[j][t] == x;
        lemma_in_flatten(per, j, t);
        let k = choose|k: int| 0 <= k < per.flatten().len() && per.flatten()[k] == per[j][t];
        assert(all[k] == x);
    } else if !master.is_empty() && master_issues_of(items, master, j).contains(x) {
        let per = Seq::new(items.len(), |i: int| master_issues_of(items, master, i));
        assert(per[j] == master_issues_of(items, master, j));
        let t = choose|t: int| 0 <= t < per[j].len() && per[j][t] == x;
        lemma_in_flatten(per, j, t);
        let k = choose|k: int| 0 <= k < per.flatten().len() && per.flatten()[k] == per[j][t];
        assert(all[f.len() + k] == x);
    } else if quantity_issues_of(items, j).contains(x) {
        let per = Seq::new(items.len(), |i: int| quantity_issues_of(items, i));
        assert(per[j] == quantity_issues_of(items, j));
        let t = choose|t: int| 0 <= t < per[j].len() && per[j][t] == x;
        lemma_in_flatten(per, j, t);
        let k = choose|k: int| 0 <= k < per.flatten().len() && per.flatten()[k] == per[j][t];
        assert(all[f.len() + m.len() + k] == x);
    } else {
        let per = Seq::new(items.len(), |i: int| loss_issues_of(items, max, i));
        assert(per[j] == loss_issues_of(items, max, j));
        let t = choose|t: int| 0 <= t < per[j].len() && per[j][t] == x;
        lemma_in_flatten(per, j, t);
        let k = choose|k: int| 0 <= k < per.flatten().len() && per.flatten()[k] == per[j][t];
        assert(all[f.len() + m.len() + q.len() + k] == x);
    }
}

/// What the checks find of each item: an empty material number; a
/// material number that an earlier item has; an empty name or unit
/// (warnings); a material number missing from non-empty master data; a
/// quantity not above zero; a loss rate below zero or above the limit
/// (comparisons in IEEE order, so a NaN triggers none of them).
pub proof fn lemma_item_findings_reported(
    items: Seq<BomItem>,
    master: Set<Seq<char>>,
    max: Number,
    j: int,
)
    requires
        0 <= j < items.len(),
    ensures
        items[j].material_no@.len() == 0 ==> checked_issues(items, master, max).contains(
            issue_of(IssueLevel::Error, "EMPTY_MATERIAL_NO"@, "物料号不能为空"@, None, "物料号"@),
        ),
        items[j].material_no@.len() > 0 && (exists|i: int|
            0 <= i < j && (#[trigger] items[i]).material_no@ == items[j].material_no@)
            ==> checked_issues(items, master, max).contains(
            issue_of(
                IssueLevel::Error,
                "DUPLICATE_MATERIAL_NO"@,
                "物料号 "@ + items[j].material_no@ + " 重复"@,
                Some(items[j].material_no@),
                "物料号"@,
            ),
        ),
        items[j].material_no@.len() > 0 && items[j].material_name@.len() == 0 ==> checked_issues(
            items,
            master,
            max,
        ).contains(
            issue_of(
                IssueLevel::Warning,
                "EMPTY_MATERIAL_NAME"@,
                "物料 "@ + items[j].material_no@ + " 名称为空"@,
                Some(items[j].material_no@),
                "物料名称"@,
            ),
        ),
        items[j].material_no@.len() > 0 && items[j].unit@.len() == 0 ==> checked_issues(
            items,
            master,
            max,
        ).contains(
            issue_of(
                IssueLevel::Warning,
                "EMPTY_UNIT"@,
                "物料 "@ + items[j].material_no@ + " 单位为空"@,
                Some(items[j].material_no@),
                "单位"@,
            ),
        ),
        !master.is_empty() && !master.contains(items[j].material_no@) ==> checked_issues(
            items,
            master,
            max,
        ).contains(
            issue_of(
                IssueLevel::Error,
                "MATERIAL_NOT_IN_MASTER"@,
                "物料号 "@ + items[j].material_no@ + " 不在主数据中"@,
                Some(items[j].material_no@),
                "物料号"@,
            ),
        ),
        !is_nan_bits(items[j].quantity.bits) && order_key(items[j].quantity.bits) <= 0
            ==> checked_issues(items, master, max).contains(
            issue_of(
                IssueLevel::Error,
                "INVALID_QUANTITY"@,
                "物料 "@ + items[j].material_no@ + " 数量 "@ + items[j].quantity.text@ + " 必须为正数"@,
                Some(items[j].material_no@),
                "数量"@,
            ),
        ),
        !is_nan_bits(items[j].loss_rate.bits) && order_key(items[j].loss_rate.bits) < 0
            ==> checked_issues(items, master, max).contains(
            issue_of(
                IssueLevel::Error,
                "NEGATIVE_LOSS_RATE"@,
                "物料 "@ + items[j].material_no@ + " 损耗率 "@ + items[j].loss_rate.text@ + " 不能为负数"@,
                Some(items[j].material_no@),
                "损耗率"@,
            ),
        ),
        !is_nan_bits(items[j].loss_rate.bits) && !is_nan_bits(max.bits) && order_key(max.bits)
            < order_key(items[j].loss_rate.bits) ==> checked_issues(items, master, max).contains(
            issue_of(
                IssueLevel::Error,
                "LOSS_RATE_TOO_HIGH"@,
                "物料 "@ + items[j].material_no@ + " 损耗率 "@ + items[j].loss_rate.percent_text@
                    + "% 超过上限 "@ + max.percent_text@ + "%"@,
                Some(items[j].material_no@),
                "损耗率"@,
            ),
        ),
{
    lemma_zero_bits_key();
    let it = items[j];
    let no = it.material_no@;
    let fo = field_issues_of(items, j);
    let mo = master_issues_of(items, master, j);
    let qo = quantity_issues_of(items, j);
    let lo = loss_issues_of(items, max, j);
    if no.len() == 0 {
        assert(fo[0] == issue_of(IssueLevel::Error, "EMPTY_MATERIAL_NO"@, "物料号不能为空"@, None, "物料号"@));
        lemma_item_part_checked(items, master, max, j, fo[0]);
    } else {
        let d = only_if(
            duplicate_before(items, j),
            issue_of(IssueLevel::Error, "DUPLICATE_MATERIAL_NO"@, "物料号 "@ + no + " 重复"@, Some(no), "物料号"@),
        );
        let e1 = only_if(
            it.material_name@.len() == 0,
            issue_of(IssueLevel::Warning, "EMPTY_MATERIAL_NAME"@, "物料 "@ + no + " 名称为空"@, Some(no), "物料名称"@),
        );
        let e2 = only_if(
            it.unit@.len() == 0,
            issue_of(IssueLevel::Warning, "EMPTY_UNIT"@, "物料 "@ + no + " 单位为空"@, Some(no), "单位"@),
        );
        assert(fo == d + e1 + e2);
        if exists|i: int| 0 <= i < j && (#[trigger] items[i]).material_no@ == no {
            assert(duplicate_before(items, j));
            assert(fo[0] == d[0]);
            lemma_item_part_checked(items, master, max, j, fo[0]);
        }
        if it.material_name@.len() == 0 {
            assert(fo[d.len() as int] == e1[0]);
            lemma_item_part_checked(items, master, max, j, fo[d.len() as int]);
        }
        if it.unit@.len() == 0 {
            assert(fo[(d.len() + e1.len()) as int] == e2[0]);
            lemma_item_part_checked(items, master, max, j, fo[(d.len() + e1.len()) as int]);
        }
    }
    if !master.is_empty() && !master.contains(no) {
        assert(mo.contains(mo[0]));
        lemma_item_part_checked(items, master, max, j, mo[0]);
    }
    if !is_nan_bits(it.quantity.bits) && order_key(it.quantity.bits) <= 0 {
        assert(qo.contains(qo[0]));
        lemma_item_part_checked(items, master, max, j, qo[0]);
    }
    if !is_nan_bits(it.loss_rate.bits) && order_key(it.loss_rate.bits) < 0 {
        assert(lo.contains(lo[0]));
        lemma_item_part_checked(items, master, max, j, lo[0]);
    }
    if !is_nan_bits(it.loss_rate.bits) && !is_nan_bits(max.bits) && order_key(max.bits) < order_key(
        it.loss_rate.bits,
    ) {
        let t = lo.len() - 1;
        assert(lo.contains(lo[t]));
        lemma_item_part_checked(items, master, max, j, lo[t]);
    }
}

/// A result whose counts agree with its issues is valid exactly when none
/// of its issues is an error.
pub proof fn lemma_valid_iff_no_error(r: ValidationResult)
    requires
        r.consistent(),
    ensures
        r.valid == forall|k: int|
            0 <= k < r.issues@.len() ==> (#[trigger] issue_views(r.issues@)[k]).level != IssueLevel::Error,
{
    let vs = issue_views(r.issues@);
    if exists|k: int| 0 <= k < r.issues@.len() && (#[trigger] vs[k]).level == IssueLevel::Error {
        let k = choose|k: int| 0 <= k < r.issues@.len() && (#[trigger] vs[k]).level == IssueLevel::Error;
        lemma_level_counted(vs, IssueLevel::Error, k);
    } else if !r.valid {
        lemma_error_present(vs);
    }
}

/// A positive count of a level has an entry of that level.
proof fn lemma_error_present(s: Seq<IssueModel>)
    requires
        count_level(s, IssueLevel::Error) > 0,
    ensures
        exists|k: int| 0 <= k < s.len() && (#[trigger] s[k]).level == IssueLevel::Error,
    decreases s.len(),
{
    if s.last().level != IssueLevel::Error {
        lemma_error_present(s.drop_last());
        let k = choose|k: int| 0 <= k < s.drop_last().len() && (#[trigger] s.drop_last()[k]).level == IssueLevel::Error;
        assert(s[k] == s.drop_last()[k]);
    } else {
        assert(s[s.len() - 1].level == IssueLevel::Error);
    }
}

/// The finding for an item whose unit price is below zero.
pub open spec fn negative_price_finding(it: BomItem) -> IssueModel {
    issue_of(
        IssueLevel::Error,
        "NEGATIVE_PRICE"@,
        "物料 "@ + it.material_no@ + " 单价 "@ + it.unit_price.text@ + " 不能为负数"@,
        Some(it.material_no@),
        "单价"@,
    )
}

/// Every item whose unit price is below zero (a NaN price is not) has its
/// negative-price error among the findings of the checks.
pub proof fn lemma_negative_price_reported(
    items: Seq<BomItem>,
    master: Set<Seq<char>>,
    max: Number,
    j: int,
)
    requires
        0 <= j < items.len(),
        bits_lt(items[j].unit_price.bits, zero_bits()),
    ensures
        exists|k: int|
            0 <= k < checked_issues(items, master, max).len() && checked_issues(items, master, max)[k]
                == negative_price_finding(items[j]),
{
    let per = Seq::new(items.len(), |i: int| quantity_issues_of(items, i));
    let q = quantity_issues_of(items, j);
    assert(per[j] == q);
    let t = q.len() - 1;
    assert(q[t] == negative_price_finding(items[j]));
    lemma_in_flatten(per, j, t);
    let k = choose|k: int| 0 <= k < per.flatten().len() && per.flatten()[k] == per[j][t];
    let pre = field_issues(items) + master_issues(items, master);
    let all = checked_issues(items, master, max);
    assert(all == pre + quantity_issues(items) + loss_issues(items, max));
    assert(all[pre.len() + k] == negative_price_finding(items[j]));
}

/// Appends `extra` to `acc`.
fn append_issues(acc: &mut Vec<ValidationIssue>, extra: Vec<ValidationIssue>)
    ensures
        final(acc)@ == old(acc)@ + extra@,
{
    let mut extra = extra;
    acc.append(&mut extra);
}

proof fn lemma_views_concat(a: Seq<ValidationIssue>, b: Seq<ValidationIssue>)
    ensures
        issue_views(a + b) == issue_views(a) + issue_views(b),
{
    assert(issue_views(a + b) =~= issue_views(a) + issue_views(b));
}

/// The findings for one item's fields.
fn check_fields_of(items: &Vec<BomItem>, i: usize, seen: &Vec<String>) -> (r: Vec<ValidationIssue>)
    requires
        i < items@.len(),
        forall|x: Seq<char>|
            texts(seen@).contains(x) <==> exists|j: int|
                0 <= j < i && #[trigger] items@[j].material_no@ == x && x.len() > 0,
    ensures
        issue_views(r@) == field_issues_of(items@, i as int),
{
    let it = &items[i];
    let no = it.material_no.as_str();
    let mut r: Vec<ValidationIssue> = Vec::new();
    if no.is_empty() {
        r.push(
            make_issue(IssueLevel::Error, "EMPTY_MATERIAL_NO", owned("物料号不能为空"), None, "物料号"),
        );
        assert(issue_views(r@) =~= field_issues_of(items@, i as int));
        return r;
    }
    let mut dup = false;
    let mut k: usize = 0;
    while k < seen.len()
        invariant
            k <= seen@.len(),
            dup == exists|j: int| 0 <= j < k && seen@[j]@ == no@,
        decreases seen@.len() - k,
    {
        if crate::text::str_equal(seen[k].as_str(), no) {
            dup = true;
        }
        k = k + 1;
    }
    proof {
        assert(dup == texts(seen@).contains(no@)) by {
            if dup {
                let j = choose|j: int| 0 <= j < k && seen@[j]@ == no@;
                assert(texts(seen@)[j] == no@);
            }
            if texts(seen@).contains(no@) {
                let j = choose|j: int| 0 <= j < texts(seen@).len() && texts(seen@)[j] == no@;
                assert(seen@[j]@ == no@);
            }
        }
        assert(dup == duplicate_before(items@, i as int)) by {
            if duplicate_before(items@, i as int) {
                let j = choose|j: int| 0 <= j < i && #[trigger] items@[j].material_no@ == items@[i as int].material_no@;
                assert(items@[j].material_no@ == no@ && no@.len() > 0);
            }
        }
    }
    let ghost a = r@;
    if dup {
        r.push(
            make_issue(
                IssueLevel::Error,
                "DUPLICATE_MATERIAL_NO",
                concat3("物料号 ", no, " 重复"),
                Some(owned(no)),
                "物料号",
            ),
        );
    }
    let ghost b = r@;
    if it.material_name.as_str().is_empty() {
        r.push(
            make_issue(
                IssueLevel::Warning,
                "EMPTY_MATERIAL_NAME",
                concat3("物料 ", no, " 名称为空"),
                Some(owned(no)),
                "物料名称",
            ),
        );
    }
    let ghost c = r@;
    if it.unit.as_str().is_empty() {
        r.push(
            make_issue(
                IssueLevel::Warning,
                "EMPTY_UNIT",
                concat3("物料 ", no, " 单位为空"),
                Some(owned(no)),
                "单位",
            ),
        );
    }
    assert(issue_views(r@) =~= field_issues_of(items@, i as int));
    r
}

/// The master-data finding for one item.
fn check_master_of(items: &Vec<BomItem>, i: usize, master: &Vec<String>) -> (r: Vec<ValidationIssue>)
    requires
        i < items@.len(),
    ensures
        issue_views(r@) == master_issues_of(items@, texts(master@).to_set(), i as int),
{
    let no = items[i].material_no.as_str();
    let mut found = false;
    let mut k: usize = 0;
    while k < master.len()
        invariant
            k <= master@.len(),
            found == exists|j: int| 0 <= j < k && master@[j]@ == no@,
        decreases master@.len() - k,
    {
        if crate::text::str_equal(master[k].as_str(), no) {
            found = true;
        }
        k = k + 1;
    }
    proof {
        assert(found == texts(master@).to_set().contains(no@)) by {
            if found {
                let j = choose|j: int| 0 <= j < k && master@[j]@ == no@;
                assert(texts(master@)[j] == no@);
            }
            if texts(master@).to_set().contains(no@) {
                assert(texts(master@).contains(no@));
                let j = choose|j: int| 0 <= j < texts(master@).len() && texts(master@)[j] == no@;
                assert(master@[j]@ == no@);
            }
        }
    }
    let mut r: Vec<ValidationIssue> = Vec::new();
    if !found {
        r.push(
            make_issue(
                IssueLevel::Error,
                "MATERIAL_NOT_IN_MASTER",
                concat3("物料号 ", no, " 不在主数据中"),
                Some(owned(no)),
                "物料号",
            ),
        );
    }
    assert(issue_views(r@) =~= master_issues_of(items@, texts(master@).to_set(), i as int));
    r
}

/// The quantity and price findings for one item.
fn check_quantity_of(items: &Vec<BomItem>, i: usize) -> (r: Vec<ValidationIssue>)
    requires
        i < items@.len(),
    ensures
        issue_views(r@) == quantity_issues_of(items@, i as int),
{
    let it = &items[i];
    let no = it.material_no.as_str();
    let mut r: Vec<ValidationIssue> = Vec::new();
    if it.quantity.is_at_most_zero() {
        r.push(
            make_issue(
                IssueLevel::Error,
                "INVALID_QUANTITY",
                concat4(concat2("物料 ", no).as_str(), " 数量 ", it.quantity.text.as_str(), " 必须为正数"),
                Some(owned(no)),
                "数量",
            ),
        );
    }
    if it.unit_price.is_below_zero() {
        r.push(
            make_issue(
                IssueLevel::Error,
                "NEGATIVE_PRICE",
                concat4(concat2("物料 ", no).as_str(), " 单价 ", it.unit_price.text.as_str(), " 不能为负数"),
                Some(owned(no)),
                "单价",
            ),
        );
    }
    assert(issue_views(r@) =~= quantity_issues_of(items@, i as int));
    r
}

/// The loss-rate findings for one item.
fn check_loss_of(items: &Vec<BomItem>, i: usize, max: &Number) -> (r: Vec<ValidationIssue>)
    requires
        i < items@.len(),
    ensures
        issue_views(r@) == loss_issues_of(items@, *max, i as int),
{
    let it = &items[i];
    let no = it.material_no.as_str();
    let mut r: Vec<ValidationIssue> = Vec::new();
    if it.loss_rate.is_below_zero() {
        r.push(
            make_issue(
                IssueLevel::Error,
                "NEGATIVE_LOSS_RATE",
                concat4(concat2("物料 ", no).as_str(), " 损耗率 ", it.loss_rate.text.as_str(), " 不能为负数"),
                Some(owned(no)),
                "损耗率",
            ),
        );
    }
    if max.lt(&it.loss_rate) {
        let head = concat4("物料 ", no, " 损耗率 ", it.loss_rate.percent_text.as_str());
        let tail = concat3("% 超过上限 ", max.percent_text.as_str(), "%");
        r.push(
            make_issue(
                IssueLevel::Error,
                "LOSS_RATE_TOO_HIGH",
                concat2(head.as_str(), tail.as_str()),
                Some(owned(no)),
                "损耗率",
            ),
        );
    }
    proof {
        let no = items@[i as int].material_no@;
        let it = items@[i as int];
        assert("物料 "@ + no + " 损耗率 "@ + it.loss_rate.percent_text@ + ("% 超过上限 "@
            + max.percent_text@ + "%"@) =~= "物料 "@ + no + " 损耗率 "@ + it.loss_rate.percent_text@
            + "% 超过上限 "@ + max.percent_text@ + "%"@);
    }
    assert(issue_views(r@) =~= loss_issues_of(items@, *max, i as int));
    r
}

/// Checks a BOM against required fields, master data, quantities, loss
/// rates and circular parent references.
pub struct BomValidator {
    master_data: Vec<String>,
    max_loss_rate: Number,
}

impl BomValidator {
    /// The known material numbers (empty: no master-data check).
    pub closed spec fn master_set(&self) -> Set<Seq<char>> {
        texts(self.master_data@).to_set()
    }

    /// The highest loss rate accepted.
    pub closed spec fn max_loss(&self) -> Number {
        self.max_loss_rate
    }

    /// A validator without master data, accepting loss rates up to 0.5.
    pub fn new() -> (r: BomValidator)
        ensures
            r.master_set().is_empty(),
            r.max_loss().bits == 0x3FE0_0000_0000_0000u64,
            r.max_loss().text@ == "0.5"@,
            r.max_loss().percent_text@ == "50.0"@,
    {
        let r = BomValidator {
            master_data: Vec::new(),
            max_loss_rate: Number::new(0x3FE0_0000_0000_0000u64, owned("0.5"), owned("50.0")),
        };
        assert(texts(r.master_data@) =~= Seq::<Seq<char>>::empty());
        r
    }

    /// This validator with another loss-rate limit.
    pub fn with_max_loss_rate(self, max_loss_rate: Number) -> (r: BomValidator)
        ensures
            r.master_set() == self.master_set(),
            r.max_loss() == max_loss_rate,
    {
        BomValidator { master_data: self.master_data, max_loss_rate }
    }

    /// Replaces the master data by the given material numbers.
    pub fn load_master_data(&mut self, material_nos: Vec<String>)
        ensures
            final(self).master_set() == texts(material_nos@).to_set(),
            final(self).max_loss() == old(self).max_loss(),
    {
        self.master_data = material_nos;
    }

    /// Adds one material number to the master data.
    pub fn add_master_material(&mut self, material_no: &str)
        ensures
            final(self).master_set() == old(self).master_set().insert(material_no@),
            final(self).max_loss() == old(self).max_loss(),
    {
        let ghost before = texts(self.master_data@);
        self.master_data.push(owned(material_no));
        proof {
            assert(texts(self.master_data@) =~= before.push(material_no@));
            before.lemma_push_to_set_commute(material_no@);
        }
    }

    fn validate_fields(&self, items: &Vec<BomItem>) -> (r: Vec<ValidationIssue>)
        ensures
            issue_views(r@) == field_issues(items@),
    {
        let ghost per = Seq::new(items@.len(), |i: int| field_issues_of(items@, i));
        let mut acc: Vec<ValidationIssue> = Vec::new();
        let mut seen: Vec<String> = Vec::new();
        let mut i: usize = 0;
        while i < items.len()
            invariant
                i <= items@.len(),
                per == Seq::new(items@.len(), |i: int| field_issues_of(items@, i)),
                issue_views(acc@) == per.take(i as int).flatten(),
                forall|x: Seq<char>|
                    texts(seen@).contains(x) <==> exists|j: int|
                        0 <= j < i && #[trigger] items@[j].material_no@ == x && x.len() > 0,
            decreases items@.len() - i,
        {
            let part = check_fields_of(items, i, &seen);
            proof {
                lemma_flatten_take(per, i as int);
                lemma_views_concat(acc@, part@);
            }
            append_issues(&mut acc, part);
            let ghost old_seen = texts(seen@);
            if !items[i].material_no.as_str().is_empty() {
                seen.push(items[i].material_no.clone());
            }
            proof {
                let no = items@[i as int].material_no@;
                assert forall|x: Seq<char>|
                    texts(seen@).contains(x) <==> exists|j: int|
                        0 <= j < i + 1 && #[trigger] items@[j].material_no@ == x && x.len() > 0 by {
                    if no.len() > 0 {
                        assert(texts(seen@) =~= old_seen.push(no));
                        if texts(seen@).contains(x) {
                            let k = choose|k: int| 0 <= k < texts(seen@).len() && texts(seen@)[k] == x;
                            if k < old_seen.len() {
                                assert(old_seen[k] == x);
                                assert(old_seen.contains(x));
                            } else {
                                assert(items@[i as int].material_no@ == x);
                            }
                        }
                        if exists|j: int| 0 <= j < i + 1 && #[trigger] items@[j].material_no@ == x && x.len() > 0 {
                            let j = choose|j: int| 0 <= j < i + 1 && #[trigger] items@[j].material_no@ == x && x.len() > 0;
                            if j < i {
                                assert(old_seen.contains(x));
                                let k = choose|k: int| 0 <= k < old_seen.len() && old_seen[k] == x;
                                assert(texts(seen@)[k] == x);
                            } else {
                                assert(texts(seen@)[old_seen.len() as int] == x);
                            }
                        }
                    } else {
                        assert(texts(seen@) =~= old_seen);
                        if exists|j: int| 0 <= j < i + 1 && #[trigger] items@[j].material_no@ == x && x.len() > 0 {
                            let j = choose|j: int| 0 <= j < i + 1 && #[trigger] items@[j].material_no@ == x && x.len() > 0;
                            assert(j < i);
                        }
                    }
                }
            }
            i = i + 1;
        }
        assert(per.take(items@.len() as int) =~= per);
        acc
    }

    fn validate_master_data(&self, items: &Vec<BomItem>) -> (r: Vec<ValidationIssue>)
        ensures
            issue_views(r@) == master_issues(items@, self.master_set()),
    {
        let mut acc: Vec<ValidationIssue> = Vec::new();
        if self.master_data.len() == 0 {
            assert(texts(self.master_data@) =~= Seq::<Seq<char>>::empty());
            assert(self.master_set() =~= Set::<Seq<char>>::empty());
            assert(issue_views(acc@) =~= Seq::<IssueModel>::empty());
            return acc;
        }
        assert(self.master_set().contains(texts(self.master_data@)[0]));
        let ghost master = self.master_set();
        let ghost per = Seq::new(items@.len(), |i: int| master_issues_of(items@, master, i));
        let mut i: usize = 0;
        while i < items.len()
            invariant
                i <= items@.len(),
                master == texts(self.master_data@).to_set(),
                per == Seq::new(items@.len(), |i: int| master_issues_of(items@, master, i)),
                issue_views(acc@) == per.take(i as int).flatten(),
            decreases items@.len() - i,
        {
            let part = check_master_of(items, i, &self.master_data);
            proof {
                lemma_flatten_take(per, i as int);
                lemma_views_concat(acc@, part@);
            }
            append_issues(&mut acc, part);
            i = i + 1;
        }
        assert(per.take(items@.len() as int) =~= per);
        acc
    }

    fn validate_quantities(&self, items: &Vec<BomItem>) -> (r: Vec<ValidationIssue>)
        ensures
            issue_views(r@) == quantity_issues(items@),
    {
        let ghost per = Seq::new(items@.len(), |i: int| quantity_issues_of(items@, i));
        let mut acc: Vec<ValidationIssue> = Vec::new();
        let mut i: usize = 0;
        while i < items.len()
            invariant
                i <= items@.len(),
                per == Seq::new(items@.len(), |i: int| quantity_issues_of(items@, i)),
                issue_views(acc@) == per.take(i as int).flatten(),
            decreases items@.len() - i,
        {
            let part = check_quantity_of(items, i);
            proof {
                lemma_flatten_take(per, i as int);
                lemma_views_concat(acc@, part@);
            }
            append_issues(&mut acc, part);
            i = i + 1;
        }
        assert(per.take(items@.len() as int) =~= per);
        acc
    }

    fn validate_loss_rates(&self, items: &Vec<BomItem>) -> (r: Vec<ValidationIssue>)
        ensures
            issue_views(r@) == loss_issues(items@, self.max_loss()),
    {
        let ghost per = Seq::new(items@.len(), |i: int| loss_issues_of(items@, self.max_loss_rate, i));
        let mut acc: Vec<ValidationIssue> = Vec::new();
        let mut i: usize = 0;
        while i < items.len()
            invariant
                i <= items@.len(),
                per == Seq::new(items@.len(), |i: int| loss_issues_of(items@, self.max_loss_rate, i)),
                issue_views(acc@) == per.take(i as int).flatten(),
            decreases items@.len() - i,
        {
            let part = check_loss_of(items, i, &self.max_loss_rate);
            proof {
                lemma_flatten_take(per, i as int);
                lemma_views_concat(acc@, part@);
            }
            append_issues(&mut acc, part);
            i = i + 1;
        }
        assert(per.take(items@.len() as int) =~= per);
        acc
    }
}

proof fn lemma_count_le_len(s: Seq<IssueModel>, l: IssueLevel)
    ensures
        count_level(s, l) <= s.len(),
    decreases s.len(),
{
    if s.len() > 0 {
        lemma_count_le_len(s.drop_last(), l);
    }
}

/// A result holding exactly the given issues, counted by level.
fn result_of(issues: Vec<ValidationIssue>) -> (r: ValidationResult)
    ensures
        r.issues@ == issues@,
        r.consistent(),
{
    let ghost all = issue_views(issues@);
    let n = issues.len();
    let mut e: usize = 0;
    let mut w: usize = 0;
    let mut f: usize = 0;
    let mut i: usize = 0;
    while i < n
        invariant
            n == issues@.len(),
            all == issue_views(issues@),
            i <= n,
            e == count_level(all.take(i as int), IssueLevel::Error),
            w == count_level(all.take(i as int), IssueLevel::Warning),
            f == count_level(all.take(i as int), IssueLevel::Info),
        decreases n - i,
    {
        proof {
            lemma_count_le_len(all.take(i as int), IssueLevel::Error);
            lemma_count_le_len(all.take(i as int), IssueLevel::Warning);
            lemma_count_le_len(all.take(i as int), IssueLevel::Info);
            assert(all.take(i as int + 1).drop_last() =~= all.take(i as int));
            assert(all.take(i as int + 1).last() == issues@[i as int]@);
        }
        match issues[i].level {
            IssueLevel::Error => e = e + 1,
            IssueLevel::Warning => w = w + 1,
            IssueLevel::Info => f = f + 1,
        }
        i = i + 1;
    }
    assert(all.take(n as int) =~= all);
    ValidationResult { valid: e == 0, issues, error_count: e, warning_count: w, info_count: f }
}

/// The findings of every check but the circular-reference one, in the
/// order the checks run.
pub open spec fn checked_issues(items: Seq<BomItem>, master: Set<Seq<char>>, max: Number) -> Seq<
    IssueModel,
> {
    field_issues(items) + master_issues(items, master) + quantity_issues(items) + loss_issues(
        items,
        max,
    )
}

impl BomValidator {
    /// Runs all checks: required fields, master data, quantities and prices,
    /// loss rates, then circular parent references.
    pub fn validate(&self, items: &Vec<BomItem>) -> (r: ValidationResult)
        ensures
            r.consistent(),
            issue_views(r.issues@).len() >= checked_issues(
                items@,
                self.master_set(),
                self.max_loss(),
            ).len(),
            issue_views(r.issues@).subrange(
                0,
                checked_issues(items@, self.master_set(), self.max_loss()).len() as int,
            ) == checked_issues(items@, self.master_set(), self.max_loss()),
            cycle_report(
                items@,
                issue_views(r.issues@).subrange(
                    checked_issues(items@, self.master_set(), self.max_loss()).len() as int,
                    r.issues@.len() as int,
                ),
            ),
            forall|j: int|
                0 <= j < items@.len() && bits_lt(#[trigger] items@[j].unit_price.bits, zero_bits())
                    ==> !r.valid && exists|k: int|
                    0 <= k < r.issues@.len() && issue_views(r.issues@)[k]
                        == negative_price_finding(items@[j]),
    {
        let mut all = self.validate_fields(items);
        let ghost a = all@;
        let m = self.validate_master_data(items);
        append_issues(&mut all, m);
        let q = self.validate_quantities(items);
        append_issues(&mut all, q);
        let l = self.validate_loss_rates(items);
        append_issues(&mut all, l);
        let ghost fixed_part = all@;
        let c = find_cycles(items);
        let ghost cyc = c@;
        append_issues(&mut all, c);
        proof {
            let fixed = checked_issues(items@, self.master_set(), self.max_loss());
            assert(issue_views(fixed_part) =~= fixed);
            assert(all@ =~= fixed_part + cyc);
            lemma_views_concat(fixed_part, cyc);
            assert(issue_views(all@).subrange(0, fixed.len() as int) =~= fixed);
            assert(issue_views(all@).subrange(fixed.len() as int, all@.len() as int) =~= issue_views(cyc));
        }
        let r = result_of(all);
        proof {
            let fixed = checked_issues(items@, self.master_set(), self.max_loss());
            let vs = issue_views(r.issues@);
            assert forall|j: int|
                0 <= j < items@.len() && bits_lt(#[trigger] items@[j].unit_price.bits, zero_bits())
                    implies !r.valid && exists|k: int|
                    0 <= k < r.issues@.len() && vs[k] == negative_price_finding(items@[j]) by {
                lemma_negative_price_reported(items@, self.master_set(), self.max_loss(), j);
                let k = choose|k: int|
                    0 <= k < fixed.len() && fixed[k] == negative_price_finding(items@[j]);
                assert(vs.subrange(0, fixed.len() as int)[k] == vs[k]);
                lemma_level_counted(vs, IssueLevel::Error, k);
            }
        }
        r
    }
}

impl Default for ValidationResult {
    fn default() -> (r: ValidationResult)
        ensures
            r.valid,
            r.issues@.len() == 0,
            r.consistent(),
    {
        ValidationResult::new()
    }
}

impl Default for BomValidator {
    fn default() -> (r: BomValidator)
        ensures
            r.master_set().is_empty(),
            r.max_loss().bits == 0x3FE0_0000_0000_0000u64,
    {
        BomValidator::new()
    }
}

impl Clone for ValidationIssue {
    fn clone(&self) -> (r: ValidationIssue)
        ensures
            r == *self,
    {
        self.clone_issue()
    }
}

impl ValidationResult {
    /// A copy of this result.
    pub fn duplicate(&self) -> (r: ValidationResult)
        ensures
            r.valid == self.valid,
            r.issues@ == self.issues@,
            r.error_count == self.error_count,
            r.warning_count == self.warning_count,
            r.info_count == self.info_count,
    {
        let mut issues: Vec<ValidationIssue> = Vec::new();
        let mut i: usize = 0;
        while i < self.issues.len()
            invariant
                i <= self.issues@.len(),
                issues@ == self.issues@.take(i as int),
            decreases self.issues@.len() - i,
        {
            issues.push(self.issues[i].clone_issue());
            proof {
                assert(issues@ =~= self.issues@.take(i + 1));
            }
            i = i + 1;
        }
        proof {
            assert(self.issues@.take(i as int) =~= self.issues@);
        }
        ValidationResult {
            valid: self.valid,
            issues,
            error_count: self.error_count,
            warning_count: self.warning_count,
            info_count: self.info_count,
        }
    }
}

impl Clone for ValidationResult {
    fn clone(&self) -> (r: ValidationResult)
        ensures
            r.valid == self.valid,
            r.issues@ == self.issues@,
            r.error_count == self.error_count,
            r.warning_count == self.warning_count,
            r.info_count == self.info_count,
    {
        self.duplicate()
    }
}

} // verus!
