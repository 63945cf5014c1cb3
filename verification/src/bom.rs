//! BOM items, their kinds, and the errors of reading them.
pub mod numeral;
pub mod parser;

use vstd::prelude::*;
use crate::number::Number;
use crate::text::{
    concat2, is_ascii_or_ideograph, is_white_space, lowercased, owned, simple_lower, str_equal,
    to_lowercase_str, trim_end, trim_start, trim_str, trimmed,
};

verus! {

/// Errors of reading a BOM.
#[derive(Debug)]
pub enum BomError {
    CsvError(String),
    ExcelError(String),
    InvalidField(String),
    MissingField(String),
    DuplicateMaterial(String),
}

/// The mathematical form of a `BomError`: its variant and message.
pub enum ErrorModel {
    Csv(Seq<char>),
    Excel(Seq<char>),
    InvalidField(Seq<char>),
    MissingField(Seq<char>),
    DuplicateMaterial(Seq<char>),
}

impl View for BomError {
    type V = ErrorModel;

    open spec fn view(&self) -> ErrorModel {
        match self {
            BomError::CsvError(m) => ErrorModel::Csv(m@),
            BomError::ExcelError(m) => ErrorModel::Excel(m@),
            BomError::InvalidField(m) => ErrorModel::InvalidField(m@),
            BomError::MissingField(m) => ErrorModel::MissingField(m@),
            BomError::DuplicateMaterial(m) => ErrorModel::DuplicateMaterial(m@),
        }
    }
}

/// The text shown for an error.
pub open spec fn error_text(e: ErrorModel) -> Seq<char> {
    match e {
        ErrorModel::Csv(m) => "CSV parse error: "@ + m,
        ErrorModel::Excel(m) => "Excel parse error: "@ + m,
        ErrorModel::InvalidField(m) => "Invalid field: "@ + m,
        ErrorModel::MissingField(m) => "Missing required field: "@ + m,
        ErrorModel::DuplicateMaterial(m) => "Duplicate material number: "@ + m,
    }
}

impl BomError {
    /// The text shown for this error.
    pub fn message(&self) -> (r: String)
        ensures
            r@ == error_text(self@),
    {
        match self {
            BomError::CsvError(m) => concat2("CSV parse error: ", m.as_str()),
            BomError::ExcelError(m) => concat2("Excel parse error: ", m.as_str()),
            BomError::InvalidField(m) => concat2("Invalid field: ", m.as_str()),
            BomError::MissingField(m) => concat2("Missing required field: ", m.as_str()),
            BomError::DuplicateMaterial(m) => concat2("Duplicate material number: ", m.as_str()),
        }
    }
}

/// The kind of a BOM item.
#[derive(Clone, Copy, Debug, PartialEq, Eq, Structural)]
pub enum BomType {
    FinishedProduct,
    SemiFinished,
    RawMaterial,
    Virtual,
}

/// Where a BOM item comes from.
#[derive(Clone, Copy, Debug, PartialEq, Eq, Structural)]
pub enum SourceType {
    SelfMade,
    Purchased,
    Outsourced,
}

/// The kind named by a (trimmed, lower-cased) key, if any.
pub open spec fn bom_type_for_key(k: Seq<char>) -> Option<BomType> {
    if k == "成品"@ || k == "finished_product"@ || k == "finished"@ {
        Some(BomType::FinishedProduct)
    } else if k == "半成品"@ || k == "semi_finished"@ || k == "semifinished"@ {
        Some(BomType::SemiFinished)
    } else if k == "原材料"@ || k == "raw_material"@ || k == "raw"@ {
        Some(BomType::RawMaterial)
    } else if k == "虚拟件"@ || k == "virtual"@ {
        Some(BomType::Virtual)
    } else {
        None
    }
}

/// The source named by a (trimmed, lower-cased) key, if any.
pub open spec fn source_for_key(k: Seq<char>) -> Option<SourceType> {
    if k == "自制"@ || k == "self_made"@ || k == "selfmade"@ {
        Some(SourceType::SelfMade)
    } else if k == "外购"@ || k == "purchased"@ || k == "buy"@ {
        Some(SourceType::Purchased)
    } else if k == "外协"@ || k == "outsourced"@ || k == "outsource"@ {
        Some(SourceType::Outsourced)
    } else {
        None
    }
}

/// The key under which a text is looked up: trimmed, then lower-cased.
pub open spec fn lookup_key(s: Seq<char>) -> Seq<char> {
    lowercased(trimmed(s))
}

/// The text holds only ASCII characters and CJK ideographs.
pub open spec fn plain_text(s: Seq<char>) -> bool {
    forall|i: int| 0 <= i < s.len() ==> is_ascii_or_ideograph(#[trigger] s[i])
}

/// The lookup key of a text whose trimmed form is plain: trimmed, then
/// `A`..`Z` lowered (what `lookup_key` is for such a text).
pub open spec fn plain_key(s: Seq<char>) -> Seq<char> {
    trimmed(s).map_values(|c: char| simple_lower(c))
}

/// The outcome of reading a kind from a text.
pub open spec fn bom_type_parse(s: Seq<char>) -> Result<BomType, ErrorModel> {
    match bom_type_for_key(lookup_key(s)) {
        Some(t) => Ok(t),
        None => Err(ErrorModel::InvalidField("未知类型: "@ + s)),
    }
}

/// The outcome of reading a source from a text.
pub open spec fn source_parse(s: Seq<char>) -> Result<SourceType, ErrorModel> {
    match source_for_key(lookup_key(s)) {
        Some(t) => Ok(t),
        None => Err(ErrorModel::InvalidField("未知来源: "@ + s)),
    }
}

/// The display label of a kind.
pub open spec fn bom_type_label(t: BomType) -> Seq<char> {
    match t {
        BomType::FinishedProduct => "成品"@,
        BomType::SemiFinished => "半成品"@,
        BomType::RawMaterial => "原材料"@,
        BomType::Virtual => "虚拟件"@,
    }
}

/// The display label of a source.
pub open spec fn source_label(t: SourceType) -> Seq<char> {
    match t {
        SourceType::SelfMade => "自制"@,
        SourceType::Purchased => "外购"@,
        SourceType::Outsourced => "外协"@,
    }
}

/// Lifts a parse outcome over the error's view.
pub open spec fn result_view<T>(r: Result<T, BomError>) -> Result<T, ErrorModel> {
    match r {
        Ok(t) => Ok(t),
        Err(e) => Err(e@),
    }
}

/// The text is made of CJK ideographs only.
pub open spec fn all_ideographs(s: Seq<char>) -> bool {
    s.len() >= 1 && forall|i: int| 0 <= i < s.len() ==> 0x4E00 <= (#[trigger] s[i] as u32) <= 0x9FFF
}

/// A text of ideographs has no surrounding white space and no letter case.
proof fn lemma_ideograph_key(s: Seq<char>)
    requires
        all_ideographs(s),
    ensures
        trimmed(s) == s,
        forall|i: int| 0 <= i < trimmed(s).len() ==> is_ascii_or_ideograph(#[trigger] trimmed(s)[i]),
        trimmed(s).map_values(|c: char| simple_lower(c)) == s,
{
    assert(!is_white_space(s[0]));
    assert(trim_start(s) == s);
    assert(!is_white_space(s.last()));
    assert(trim_end(s) == s);
    assert(s.map_values(|c: char| simple_lower(c)) =~= s);
}

/// The kind labels are made of ideographs.
proof fn lemma_kind_labels()
    ensures
        forall|t: BomType| all_ideographs(#[trigger] bom_type_label(t)),
{
    reveal_strlit("成品");
    reveal_strlit("半成品");
    reveal_strlit("原材料");
    reveal_strlit("虚拟件");
    assert forall|t: BomType| all_ideographs(#[trigger] bom_type_label(t)) by {
        let l = bom_type_label(t);
        assert forall|i: int| 0 <= i < l.len() implies 0x4E00 <= (#[trigger] l[i] as u32) <= 0x9FFF by {
            assert(0 <= i < 3);
        }
    }
}

impl BomType {
    /// Reads a kind from its Chinese or English name, ignoring surrounding
    /// white space and letter case. The label of a kind reads back as that
    /// kind.
    pub fn from_str(s: &str) -> (r: Result<BomType, BomError>)
        ensures
            result_view(r) == bom_type_parse(s@),
            plain_text(trimmed(s@)) ==> result_view(r) == match bom_type_for_key(plain_key(s@)) {
                Some(t) => Ok(t),
                None => Err(ErrorModel::InvalidField("未知类型: "@ + s@)),
            },
            forall|t: BomType| s@ == bom_type_label(t) ==> (r matches Ok(x) && x == t),
            plain_text(trimmed(s@)) && (plain_key(s@) == "成品"@ || plain_key(s@) == "finished_product"@
                || plain_key(s@) == "finished"@) ==> r matches Ok(BomType::FinishedProduct),
            plain_text(trimmed(s@)) && (plain_key(s@) == "半成品"@ || plain_key(s@) == "semi_finished"@
                || plain_key(s@) == "semifinished"@) ==> r matches Ok(BomType::SemiFinished),
            plain_text(trimmed(s@)) && (plain_key(s@) == "原材料"@ || plain_key(s@) == "raw_material"@
                || plain_key(s@) == "raw"@) ==> r matches Ok(BomType::RawMaterial),
            plain_text(trimmed(s@)) && (plain_key(s@) == "虚拟件"@ || plain_key(s@) == "virtual"@)
                ==> r matches Ok(BomType::Virtual),
    {
        let key = to_lowercase_str(trim_str(s));
        proof {
            lemma_bom_type_aliases(plain_key(s@));
            lemma_kind_labels();
            if exists|t: BomType| s@ == bom_type_label(t) {
                let t = choose|t: BomType| s@ == bom_type_label(t);
                assert(all_ideographs(bom_type_label(t)));
                lemma_ideograph_key(s@);
                assert(key@ == s@);
                reveal_strlit("成品");
                reveal_strlit("半成品");
                reveal_strlit("原材料");
                reveal_strlit("虚拟件");
                reveal_strlit("finished_product");
                reveal_strlit("finished");
                reveal_strlit("semi_finished");
                reveal_strlit("semifinished");
                reveal_strlit("raw_material");
                reveal_strlit("raw");
                reveal_strlit("virtual");
            }
        }
        let k = key.as_str();
        if str_equal(k, "成品") || str_equal(k, "finished_product") || str_equal(k, "finished") {
            Ok(BomType::FinishedProduct)
        } else if str_equal(k, "半成品") || str_equal(k, "semi_finished") || str_equal(
            k,
            "semifinished",
        ) {
            Ok(BomType::SemiFinished)
        } else if str_equal(k, "原材料") || str_equal(k, "raw_material") || str_equal(k, "raw") {
            Ok(BomType::RawMaterial)
        } else if str_equal(k, "虚拟件") || str_equal(k, "virtual") {
            Ok(BomType::Virtual)
        } else {
            Err(BomError::InvalidField(concat2("未知类型: ", s)))
        }
    }

    /// The display label of this kind.
    pub fn label(&self) -> (r: String)
        ensures
            r@ == bom_type_label(*self),
    {
        match self {
            BomType::FinishedProduct => owned("成品"),
            BomType::SemiFinished => owned("半成品"),
            BomType::RawMaterial => owned("原材料"),
            BomType::Virtual => owned("虚拟件"),
        }
    }
}

/// The source labels are made of ideographs.
proof fn lemma_source_labels()
    ensures
        forall|t: SourceType| all_ideographs(#[trigger] source_label(t)),
{
    reveal_strlit("自制");
    reveal_strlit("外购");
    reveal_strlit("外协");
    assert forall|t: SourceType| all_ideographs(#[trigger] source_label(t)) by {
        let l = source_label(t);
        assert forall|i: int| 0 <= i < l.len() implies 0x4E00 <= (#[trigger] l[i] as u32) <= 0x9FFF by {
            assert(0 <= i < 2);
        }
    }
}

/// The names of the sources: 自制, self_made and selfmade name a part made
/// in house; 外购, purchased and buy one that is bought; 外协, outsourced
/// and outsource one made outside. No key names two sources, and no other
/// key names any.
pub proof fn lemma_source_aliases(k: Seq<char>)
    ensures
        (source_for_key(k) == Some(SourceType::SelfMade)) == (k == "自制"@ || k == "self_made"@ || k
            == "selfmade"@),
        (source_for_key(k) == Some(SourceType::Purchased)) == (k == "外购"@ || k == "purchased"@ || k
            == "buy"@),
        (source_for_key(k) == Some(SourceType::Outsourced)) == (k == "外协"@ || k == "outsourced"@ || k
            == "outsource"@),
{
    reveal_strlit("自制");
    reveal_strlit("外购");
    reveal_strlit("外协");
    reveal_strlit("self_made");
    reveal_strlit("selfmade");
    reveal_strlit("purchased");
    reveal_strlit("buy");
    reveal_strlit("outsourced");
    reveal_strlit("outsource");
    assert("自制"@.len() == 2 && "自制"@[0] == '自');
    assert("外购"@.len() == 2 && "外购"@[0] == '外' && "外购"@[1] == '购');
    assert("外协"@.len() == 2 && "外协"@[0] == '外' && "外协"@[1] == '协');
    assert("self_made"@.len() == 9 && "self_made"@[0] == 's');
    assert("selfmade"@.len() == 8 && "selfmade"@[0] == 's');
    assert("purchased"@.len() == 9 && "purchased"@[0] == 'p');
    assert("buy"@.len() == 3 && "buy"@[0] == 'b');
    assert("outsourced"@.len() == 10 && "outsourced"@[0] == 'o');
    assert("outsource"@.len() == 9 && "outsource"@[0] == 'o');
}

/// The names of the kinds: 成品, finished_product and finished name a
/// finished product; 半成品, semi_finished and semifinished a semi-finished
/// one; 原材料, raw_material and raw a raw material; 虚拟件 and virtual a
/// virtual part. No key names two kinds, and no other key names any.
pub proof fn lemma_bom_type_aliases(k: Seq<char>)
    ensures
        (bom_type_for_key(k) == Some(BomType::FinishedProduct)) == (k == "成品"@ || k
            == "finished_product"@ || k == "finished"@),
        (bom_type_for_key(k) == Some(BomType::SemiFinished)) == (k == "半成品"@ || k
            == "semi_finished"@ || k == "semifinished"@),
        (bom_type_for_key(k) == Some(BomType::RawMaterial)) == (k == "原材料"@ || k == "raw_material"@
            || k == "raw"@),
        (bom_type_for_key(k) == Some(BomType::Virtual)) == (k == "虚拟件"@ || k == "virtual"@),
{
    reveal_strlit("成品");
    reveal_strlit("半成品");
    reveal_strlit("原材料");
    reveal_strlit("虚拟件");
    reveal_strlit("finished_product");
    reveal_strlit("finished");
    reveal_strlit("semi_finished");
    reveal_strlit("semifinished");
    reveal_strlit("raw_material");
    reveal_strlit("raw");
    reveal_strlit("virtual");
    assert("成品"@.len() == 2 && "成品"@[0] == '成');
    assert("半成品"@.len() == 3 && "半成品"@[0] == '半');
    assert("原材料"@.len() == 3 && "原材料"@[0] == '原');
    assert("虚拟件"@.len() == 3 && "虚拟件"@[0] == '虚');
    assert("finished_product"@.len() == 16 && "finished_product"@[0] == 'f');
    assert("finished"@.len() == 8 && "finished"@[0] == 'f');
    assert("semi_finished"@.len() == 13 && "semi_finished"@[0] == 's');
    assert("semifinished"@.len() == 12 && "semifinished"@[0] == 's');
    assert("raw_material"@.len() == 12 && "raw_material"@[0] == 'r');
    assert("raw"@.len() == 3 && "raw"@[0] == 'r');
    assert("virtual"@.len() == 7 && "virtual"@[0] == 'v');
}

impl SourceType {
    /// Reads a source from its Chinese or English name, ignoring surrounding
    /// white space and letter case. The label of a source reads back as
    /// that source.
    pub fn from_str(s: &str) -> (r: Result<SourceType, BomError>)
        ensures
            result_view(r) == source_parse(s@),
            plain_text(trimmed(s@)) ==> result_view(r) == match source_for_key(plain_key(s@)) {
                Some(t) => Ok(t),
                None => Err(ErrorModel::InvalidField("未知来源: "@ + s@)),
            },
            forall|t: SourceType| s@ == source_label(t) ==> (r matches Ok(x) && x == t),
            plain_text(trimmed(s@)) && (plain_key(s@) == "自制"@ || plain_key(s@) == "self_made"@
                || plain_key(s@) == "selfmade"@) ==> r matches Ok(SourceType::SelfMade),
            plain_text(trimmed(s@)) && (plain_key(s@) == "外购"@ || plain_key(s@) == "purchased"@
                || plain_key(s@) == "buy"@) ==> r matches Ok(SourceType::Purchased),
            plain_text(trimmed(s@)) && (plain_key(s@) == "外协"@ || plain_key(s@) == "outsourced"@
                || plain_key(s@) == "outsource"@) ==> r matches Ok(SourceType::Outsourced),
    {
        let key = to_lowercase_str(trim_str(s));
        proof {
            lemma_source_aliases(plain_key(s@));
            lemma_source_labels();
            if exists|t: SourceType| s@ == source_label(t) {
                let t = choose|t: SourceType| s@ == source_label(t);
                assert(all_ideographs(source_label(t)));
                lemma_ideograph_key(s@);
                assert(key@ == s@);
                reveal_strlit("自制");
                reveal_strlit("外购");
                reveal_strlit("外协");
                reveal_strlit("self_made");
                reveal_strlit("selfmade");
                reveal_strlit("purchased");
                reveal_strlit("buy");
                reveal_strlit("outsourced");
                reveal_strlit("outsource");
            }
        }
        let k = key.as_str();
        if str_equal(k, "自制") || str_equal(k, "self_made") || str_equal(k, "selfmade") {
            Ok(SourceType::SelfMade)
        } else if str_equal(k, "外购") || str_equal(k, "purchased") || str_equal(k, "buy") {
            Ok(SourceType::Purchased)
        } else if str_equal(k, "外协") || str_equal(k, "outsourced") || str_equal(k, "outsource") {
            Ok(SourceType::Outsourced)
        } else {
            Err(BomError::InvalidField(concat2("未知来源: ", s)))
        }
    }

    /// The display label of this source.
    pub fn label(&self) -> (r: String)
        ensures
            r@ == source_label(*self),
    {
        match self {
            SourceType::SelfMade => owned("自制"),
            SourceType::Purchased => owned("外购"),
            SourceType::Outsourced => owned("外协"),
        }
    }
}

/// One line of a bill of materials.
#[derive(Debug)]
pub struct BomItem {
    pub material_no: String,
    pub material_name: String,
    pub specification: String,
    pub bom_type: BomType,
    pub quantity: Number,
    pub unit: String,
    pub loss_rate: Number,
    pub supplier: String,
    pub unit_price: Number,
    pub source: SourceType,
    pub effective_date: String,
    pub expiry_date: String,
    pub remark: String,
    pub parent_material_no: Option<String>,
}

/// No two items share a material number.
pub open spec fn distinct_materials(items: Seq<BomItem>) -> bool {
    forall|i: int, j: int|
        0 <= i < items.len() && 0 <= j < items.len() && i != j ==> (#[trigger] items[i]).material_no@
            != (#[trigger] items[j]).material_no@
}

/// A copy of an optional string.
pub fn copy_opt_string(o: &Option<String>) -> (r: Option<String>)
    ensures
        r == *o,
{
    match o {
        Some(s) => Some(s.clone()),
        None => None,
    }
}

impl BomItem {
    /// A copy of this item.
    pub fn duplicate(&self) -> (r: BomItem)
        ensures
            r == *self,
    {
        BomItem {
            material_no: self.material_no.clone(),
            material_name: self.material_name.clone(),
            specification: self.specification.clone(),
            bom_type: self.bom_type,
            quantity: self.quantity.duplicate(),
            unit: self.unit.clone(),
            loss_rate: self.loss_rate.duplicate(),
            supplier: self.supplier.clone(),
            unit_price: self.unit_price.duplicate(),
            source: self.source,
            effective_date: self.effective_date.clone(),
            expiry_date: self.expiry_date.clone(),
            remark: self.remark.clone(),
            parent_material_no: copy_opt_string(&self.parent_material_no),
        }
    }

    /// The item is a virtual (phantom) part.
    pub fn is_virtual(&self) -> (r: bool)
        ensures
            r == (self.bom_type == BomType::Virtual),
    {
        matches!(self.bom_type, BomType::Virtual)
    }

    /// The item is a raw material.
    pub fn is_raw_material(&self) -> (r: bool)
        ensures
            r == (self.bom_type == BomType::RawMaterial),
    {
        matches!(self.bom_type, BomType::RawMaterial)
    }
}

impl Clone for BomItem {
    fn clone(&self) -> (r: BomItem)
        ensures
            r == *self,
    {
        self.duplicate()
    }
}

} // verus!
