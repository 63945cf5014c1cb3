//! Reading BOM records from CSV and Excel tables.
use vstd::prelude::*;
use crate::bom::{
    BomError, BomItem, BomType, ErrorModel, SourceType, bom_type_parse, plain_text, result_view, source_parse,
};
use crate::bom::numeral::{float_literal, is_float_literal};
use crate::number::Number;
use crate::text::{
    concat2, concat3, concat4, decimal, eq_ignore_ascii_case, eq_ignore_case_str, lowercased, owned,
    simple_lower, str_equal, to_lowercase_str, trim_str, trimmed, usize_text,
};

verus! {

/// The texts of a sequence of strings.
pub open spec fn texts(v: Seq<String>) -> Seq<Seq<char>> {
    Seq::new(v.len(), |i: int| v[i]@)
}

/// The view of an optional string.
pub open spec fn opt_text(o: Option<String>) -> Option<Seq<char>> {
    match o {
        Some(s) => Some(s@),
        None => None,
    }
}

/// A header cell names the column `name` (both trimmed, ASCII case ignored).
pub open spec fn header_is(h: Seq<char>, name: Seq<char>) -> bool {
    eq_ignore_ascii_case(trimmed(h), trimmed(name))
}

/// `i` is the first column whose header names `name`.
pub open spec fn first_header(headers: Seq<Seq<char>>, name: Seq<char>, i: int) -> bool {
    &&& 0 <= i < headers.len()
    &&& header_is(headers[i], name)
    &&& forall|j: int| 0 <= j < i ==> !header_is(#[trigger] headers[j], name)
}

/// The column of `name`, if a header names it.
pub open spec fn header_position(headers: Seq<Seq<char>>, name: Seq<char>) -> Option<int> {
    if exists|i: int| first_header(headers, name, i) {
        Some(choose|i: int| first_header(headers, name, i))
    } else {
        None
    }
}

/// The trimmed cell of column `name` in `row`, if the column exists and the
/// row reaches it.
pub open spec fn field_value(headers: Seq<Seq<char>>, row: Seq<Seq<char>>, name: Seq<char>) -> Option<
    Seq<char>,
> {
    match header_position(headers, name) {
        Some(i) => if i < row.len() {
            Some(trimmed(row[i]))
        } else {
            None
        },
        None => None,
    }
}

/// Like `field_value`, but an empty cell counts as absent.
pub open spec fn field_present(headers: Seq<Seq<char>>, row: Seq<Seq<char>>, name: Seq<char>) -> Option<
    Seq<char>,
> {
    match field_value(headers, row, name) {
        Some(v) => if v.len() > 0 {
            Some(v)
        } else {
            None
        },
        None => None,
    }
}

/// An optional text with a default.
pub open spec fn or_default(o: Option<Seq<char>>, d: Seq<char>) -> Seq<char> {
    match o {
        Some(v) => v,
        None => d,
    }
}

/// The error for a missing required column.
pub open spec fn missing_field(name: Seq<char>, line: nat) -> ErrorModel {
    ErrorModel::MissingField(name + " (行 "@ + decimal(line) + ")"@)
}

/// The error for a cell that does not hold a number.
pub open spec fn bad_number(label: Seq<char>, line: nat) -> ErrorModel {
    ErrorModel::InvalidField(label + "格式错误 (行 "@ + decimal(line) + ")"@)
}

/// A BOM line as read from a table, its numbers still as text.
#[derive(Debug)]
pub struct BomRecord {
    pub material_no: String,
    pub material_name: String,
    pub specification: String,
    pub bom_type: BomType,
    pub quantity_text: String,
    pub unit: String,
    pub loss_rate_text: String,
    pub supplier: String,
    pub unit_price_text: String,
    pub source: SourceType,
    pub effective_date: String,
    pub expiry_date: String,
    pub remark: String,
    pub parent_material_no: Option<String>,
}

/// The mathematical form of a `BomRecord`.
pub struct RecordModel {
    pub material_no: Seq<char>,
    pub material_name: Seq<char>,
    pub specification: Seq<char>,
    pub bom_type: BomType,
    pub quantity_text: Seq<char>,
    pub unit: Seq<char>,
    pub loss_rate_text: Seq<char>,
    pub supplier: Seq<char>,
    pub unit_price_text: Seq<char>,
    pub source: SourceType,
    pub effective_date: Seq<char>,
    pub expiry_date: Seq<char>,
    pub remark: Seq<char>,
    pub parent_material_no: Option<Seq<char>>,
}

impl View for BomRecord {
    type V = RecordModel;

    open spec fn view(&self) -> RecordModel {
        RecordModel {
            material_no: self.material_no@,
            material_name: self.material_name@,
            specification: self.specification@,
            bom_type: self.bom_type,
            quantity_text: self.quantity_text@,
            unit: self.unit@,
            loss_rate_text: self.loss_rate_text@,
            supplier: self.supplier@,
            unit_price_text: self.unit_price_text@,
            source: self.source,
            effective_date: self.effective_date@,
            expiry_date: self.expiry_date@,
            remark: self.remark@,
            parent_material_no: opt_text(self.parent_material_no),
        }
    }
}

/// What one table row reads as: a record, or the first error met, checking
/// the columns in the order 物料号, 物料名称, 类型, 数量, 单位, 损耗率, 单价, 来源.
pub open spec fn row_record(headers: Seq<Seq<char>>, row: Seq<Seq<char>>, line: nat) -> Result<
    RecordModel,
    ErrorModel,
> {
    match field_value(headers, row, "物料号"@) {
        None => Err(missing_field("物料号"@, line)),
        Some(no) => match field_value(headers, row, "物料名称"@) {
            None => Err(missing_field("物料名称"@, line)),
            Some(name) => match field_value(headers, row, "类型"@) {
                None => Err(missing_field("类型"@, line)),
                Some(type_text) => match bom_type_parse(type_text) {
                    Err(e) => Err(e),
                    Ok(bom_type) => match field_value(headers, row, "数量"@) {
                        None => Err(missing_field("数量"@, line)),
                        Some(qty) => if !float_literal(qty) {
                            Err(bad_number("数量"@, line))
                        } else {
                            match field_value(headers, row, "单位"@) {
                                None => Err(missing_field("单位"@, line)),
                                Some(unit) => {
                                    let loss = or_default(
                                        field_present(headers, row, "损耗率"@),
                                        "0"@,
                                    );
                                    let price = or_default(
                                        field_present(headers, row, "单价"@),
                                        "0"@,
                                    );
                                    if !float_literal(loss) {
                                        Err(bad_number("损耗率"@, line))
                                    } else if !float_literal(price) {
                                        Err(bad_number("单价"@, line))
                                    } else {
                                        match source_parse(
                                            or_default(field_present(headers, row, "来源"@), "自制"@),
                                        ) {
                                            Err(e) => Err(e),
                                            Ok(source) => Ok(
                                                RecordModel {
                                                    material_no: no,
                                                    material_name: name,
                                                    specification: or_default(
                                                        field_present(headers, row, "规格"@),
                                                        ""@,
                                                    ),
                                                    bom_type,
                                                    quantity_text: qty,
                                                    unit,
                                                    loss_rate_text: loss,
                                                    supplier: or_default(
                                                        field_present(headers, row, "供应商"@),
                                                        ""@,
                                                    ),
                                                    unit_price_text: price,
                                                    source,
                                                    effective_date: or_default(
                                                        field_present(headers, row, "生效日期"@),
                                                        ""@,
                                                    ),
                                                    expiry_date: or_default(
                                                        field_present(headers, row, "失效日期"@),
                                                        ""@,
                                                    ),
                                                    remark: or_default(
                                                        field_present(headers, row, "备注"@),
                                                        ""@,
                                                    ),
                                                    parent_material_no: field_present(
                                                        headers,
                                                        row,
                                                        "父件物料号"@,
                                                    ),
                                                },
                                            ),
                                        }
                                    }
                                },
                            }
                        },
                    },
                },
            },
        },
    }
}

/// The view of a row-reading result.
pub open spec fn record_result_view(r: Result<BomRecord, BomError>) -> Result<RecordModel, ErrorModel> {
    match r {
        Ok(rec) => Ok(rec@),
        Err(e) => Err(e@),
    }
}

/// A named column's trimmed cell, when the first column whose header names
/// it is `i`: present when the row reaches that column and the cell is not
/// blank after trimming.
pub proof fn lemma_field_present_column(headers: Seq<Seq<char>>, row: Seq<Seq<char>>, name: Seq<char>, i: int)
    requires
        first_header(headers, name, i),
    ensures
        field_value(headers, row, name) == (if i < row.len() {
            Some(trimmed(row[i]))
        } else {
            None::<Seq<char>>
        }),
        field_present(headers, row, name) == (if i < row.len() && trimmed(row[i]).len() > 0 {
            Some(trimmed(row[i]))
        } else {
            None::<Seq<char>>
        }),
{
    let k = choose|k: int| first_header(headers, name, k);
    if k < i {
        assert(!header_is(headers[k], name));
    } else if i < k {
        assert(!header_is(headers[i], name));
    }
    assert(header_position(headers, name) == Some(i));
}

/// A column that no header names is absent from every row.
pub proof fn lemma_field_without_column(headers: Seq<Seq<char>>, row: Seq<Seq<char>>, name: Seq<char>)
    requires
        forall|j: int| 0 <= j < headers.len() ==> !header_is(#[trigger] headers[j], name),
    ensures
        field_value(headers, row, name) is None,
        field_present(headers, row, name) is None,
{
}

/// Each field of a record read from a row comes from the column whose
/// header names that field: the required ones (物料号, 物料名称, 类型, 数量,
/// 单位) from their trimmed cells, the optional ones from their non-blank
/// trimmed cells or their defaults (损耗率 and 单价 "0", 来源 自制, the
/// others empty, 父件物料号 none).
pub proof fn lemma_record_fields(headers: Seq<Seq<char>>, row: Seq<Seq<char>>, line: nat, rec: RecordModel)
    requires
        row_record(headers, row, line) == Ok::<RecordModel, ErrorModel>(rec),
    ensures
        field_value(headers, row, "物料号"@) == Some(rec.material_no),
        field_value(headers, row, "物料名称"@) == Some(rec.material_name),
        rec.specification == or_default(field_present(headers, row, "规格"@), ""@),
        field_value(headers, row, "类型"@) is Some,
        bom_type_parse(field_value(headers, row, "类型"@).unwrap()) == Ok::<BomType, ErrorModel>(rec.bom_type),
        field_value(headers, row, "数量"@) == Some(rec.quantity_text),
        field_value(headers, row, "单位"@) == Some(rec.unit),
        rec.loss_rate_text == or_default(field_present(headers, row, "损耗率"@), "0"@),
        rec.supplier == or_default(field_present(headers, row, "供应商"@), ""@),
        rec.unit_price_text == or_default(field_present(headers, row, "单价"@), "0"@),
        source_parse(or_default(field_present(headers, row, "来源"@), "自制"@)) == Ok::<SourceType, ErrorModel>(rec.source),
        rec.effective_date == or_default(field_present(headers, row, "生效日期"@), ""@),
        rec.expiry_date == or_default(field_present(headers, row, "失效日期"@), ""@),
        rec.remark == or_default(field_present(headers, row, "备注"@), ""@),
        rec.parent_material_no == field_present(headers, row, "父件物料号"@),
{
}

/// A row reads as a record exactly when its required cells (物料号, 物料名称,
/// 类型, 数量, 单位) are there, its kind and its source (自制 when blank)
/// name a kind and a source, and its quantity, loss rate and unit price
/// (0 when blank) are decimal numbers.
pub proof fn lemma_record_succeeds(headers: Seq<Seq<char>>, row: Seq<Seq<char>>, line: nat)
    ensures
        row_record(headers, row, line) is Ok <==> {
            &&& field_value(headers, row, "物料号"@) is Some
            &&& field_value(headers, row, "物料名称"@) is Some
            &&& field_value(headers, row, "类型"@) is Some
            &&& bom_type_parse(field_value(headers, row, "类型"@).unwrap()) is Ok
            &&& field_value(headers, row, "数量"@) is Some
            &&& float_literal(field_value(headers, row, "数量"@).unwrap())
            &&& field_value(headers, row, "单位"@) is Some
            &&& float_literal(or_default(field_present(headers, row, "损耗率"@), "0"@))
            &&& float_literal(or_default(field_present(headers, row, "单价"@), "0"@))
            &&& source_parse(or_default(field_present(headers, row, "来源"@), "自制"@)) is Ok
        },
{
}

/// The first column whose header names `name`.
fn find_header(headers: &Vec<String>, name: &str) -> (r: Option<usize>)
    ensures
        match r {
            Some(i) => header_position(texts(headers@), name@) == Some(i as int),
            None => header_position(texts(headers@), name@) is None,
        },
{
    let ghost hs = texts(headers@);
    let key = trim_str(name);
    let mut i: usize = 0;
    while i < headers.len()
        invariant
            hs == texts(headers@),
            key@ == trimmed(name@),
            i <= headers@.len(),
            forall|j: int| 0 <= j < i ==> !header_is(#[trigger] hs[j], name@),
        decreases headers@.len() - i,
    {
        let h = trim_str(headers[i].as_str());
        if eq_ignore_case_str(h, key) {
            assert(first_header(hs, name@, i as int));
            proof {
                let c = choose|c: int| first_header(hs, name@, c);
                if c < i {
                    assert(!header_is(hs[c], name@));
                } else if c > i {
                    assert(!header_is(hs[i as int], name@));
                }
            }
            return Some(i);
        }
        i = i + 1;
    }
    proof {
        if exists|c: int| first_header(hs, name@, c) {
            let c = choose|c: int| first_header(hs, name@, c);
            assert(!header_is(hs[c], name@));
        }
    }
    None
}

/// The trimmed cell of column `name`, if present.
fn field(headers: &Vec<String>, row: &Vec<String>, name: &str) -> (r: Option<String>)
    ensures
        opt_text(r) == field_value(texts(headers@), texts(row@), name@),
{
    match find_header(headers, name) {
        Some(i) => {
            if i < row.len() {
                Some(owned(trim_str(row[i].as_str())))
            } else {
                None
            }
        },
        None => None,
    }
}

/// The trimmed, non-empty cell of column `name`, if present.
fn field_opt(headers: &Vec<String>, row: &Vec<String>, name: &str) -> (r: Option<String>)
    ensures
        opt_text(r) == field_present(texts(headers@), texts(row@), name@),
{
    match field(headers, row, name) {
        Some(v) => {
            if v.as_str().is_empty() {
                None
            } else {
                Some(v)
            }
        },
        None => None,
    }
}

/// An optional text, or a default.
fn text_or(o: Option<String>, d: &str) -> (r: String)
    ensures
        r@ == or_default(opt_text(o), d@),
{
    match o {
        Some(v) => v,
        None => owned(d),
    }
}

/// The error for a missing column.
fn missing_error(name: &str, line: usize) -> (e: BomError)
    ensures
        e@ == missing_field(name@, line as nat),
{
    let n = usize_text(line);
    BomError::MissingField(concat4(name, " (行 ", n.as_str(), ")"))
}

/// The error for a cell that does not hold a number.
fn number_error(label: &str, line: usize) -> (e: BomError)
    ensures
        e@ == bad_number(label@, line as nat),
{
    let n = usize_text(line);
    let head = concat2(label, "格式错误 (行 ");
    BomError::InvalidField(concat3(head.as_str(), n.as_str(), ")"))
}

/// Reads one table row (line number `line`) as a record.
fn parse_row(headers: &Vec<String>, row: &Vec<String>, line: usize) -> (r: Result<BomRecord, BomError>)
    ensures
        record_result_view(r) == row_record(texts(headers@), texts(row@), line as nat),
{
    let material_no = match field(headers, row, "物料号") {
        Some(v) => v,
        None => return Err(missing_error("物料号", line)),
    };
    let material_name = match field(headers, row, "物料名称") {
        Some(v) => v,
        None => return Err(missing_error("物料名称", line)),
    };
    let specification = text_or(field_opt(headers, row, "规格"), "");
    let type_text = match field(headers, row, "类型") {
        Some(v) => v,
        None => return Err(missing_error("类型", line)),
    };
    let bom_type = match BomType::from_str(type_text.as_str()) {
        Ok(t) => t,
        Err(e) => return Err(e),
    };
    let quantity_text = match field(headers, row, "数量") {
        Some(v) => v,
        None => return Err(missing_error("数量", line)),
    };
    if !is_float_literal(quantity_text.as_str()) {
        return Err(number_error("数量", line));
    }
    let unit = match field(headers, row, "单位") {
        Some(v) => v,
        None => return Err(missing_error("单位", line)),
    };
    let loss_rate_text = text_or(field_opt(headers, row, "损耗率"), "0");
    if !is_float_literal(loss_rate_text.as_str()) {
        return Err(number_error("损耗率", line));
    }
    let supplier = text_or(field_opt(headers, row, "供应商"), "");
    let unit_price_text = text_or(field_opt(headers, row, "单价"), "0");
    if !is_float_literal(unit_price_text.as_str()) {
        return Err(number_error("单价", line));
    }
    let source_text = text_or(field_opt(headers, row, "来源"), "自制");
    let source = match SourceType::from_str(source_text.as_str()) {
        Ok(s) => s,
        Err(e) => return Err(e),
    };
    let effective_date = text_or(field_opt(headers, row, "生效日期"), "");
    let expiry_date = text_or(field_opt(headers, row, "失效日期"), "");
    let remark = text_or(field_opt(headers, row, "备注"), "");
    let parent_material_no = field_opt(headers, row, "父件物料号");
    Ok(
        BomRecord {
            material_no,
            material_name,
            specification,
            bom_type,
            quantity_text,
            unit,
            loss_rate_text,
            supplier,
            unit_price_text,
            source,
            effective_date,
            expiry_date,
            remark,
            parent_material_no,
        },
    )
}


/// What one table row yields: `Ok(None)` for a row that is skipped.
pub type RowOutcome = Result<Option<RecordModel>, ErrorModel>;

/// What a CSV row yields.
pub open spec fn csv_row_outcome(headers: Seq<Seq<char>>, row: Seq<Seq<char>>, line: nat) -> RowOutcome {
    match row_record(headers, row, line) {
        Ok(r) => Ok(Some(r)),
        Err(e) => Err(e),
    }
}

/// What a worksheet row yields: like a CSV row, except that a row whose
/// material number is empty is skipped.
pub open spec fn sheet_row_outcome(headers: Seq<Seq<char>>, row: Seq<Seq<char>>, line: nat) -> RowOutcome {
    match field_value(headers, row, "物料号"@) {
        None => Err(missing_field("物料号"@, line)),
        Some(no) => if no.len() == 0 {
            Ok(None)
        } else {
            csv_row_outcome(headers, row, line)
        },
    }
}

/// What each data row of a table yields; the row at index `i` is line `i + 2`.
pub open spec fn table_outcomes(skip_blank: bool, headers: Seq<Seq<char>>, rows: Seq<Seq<Seq<char>>>) -> Seq<
    RowOutcome,
> {
    Seq::new(
        rows.len(),
        |i: int|
            if skip_blank {
                sheet_row_outcome(headers, rows[i], (i + 2) as nat)
            } else {
                csv_row_outcome(headers, rows[i], (i + 2) as nat)
            },
    )
}

/// The records kept, in order.
pub open spec fn kept_records(outs: Seq<RowOutcome>) -> Seq<RecordModel>
    decreases outs.len(),
{
    if outs.len() == 0 {
        seq![]
    } else {
        let prev = kept_records(outs.drop_last());
        match outs.last() {
            Ok(Some(r)) => prev.push(r),
            _ => prev,
        }
    }
}

/// The material numbers of the records kept, in order.
pub open spec fn kept_numbers(outs: Seq<RowOutcome>) -> Seq<Seq<char>> {
    kept_records(outs).map_values(|r: RecordModel| r.material_no)
}

/// The error that row `k` raises: its own error, or a duplicate of the
/// material number of a record kept before it.
pub open spec fn problem_at(outs: Seq<RowOutcome>, k: int) -> Option<ErrorModel> {
    match outs[k] {
        Err(e) => Some(e),
        Ok(None) => None,
        Ok(Some(r)) => if kept_numbers(outs.take(k)).contains(r.material_no) {
            Some(ErrorModel::DuplicateMaterial(r.material_no))
        } else {
            None
        },
    }
}

/// Row `k` is the first row that raises an error.
pub open spec fn first_problem(outs: Seq<RowOutcome>, k: int) -> bool {
    &&& 0 <= k < outs.len()
    &&& problem_at(outs, k) is Some
    &&& forall|j: int| 0 <= j < k ==> problem_at(outs, j) is None
}

/// The outcome of reading all rows: the first row error if any, else the
/// error that ended the reading of rows if any, else the records kept.
pub open spec fn rows_outcome(outs: Seq<RowOutcome>, trailer: Option<ErrorModel>) -> Result<
    Seq<RecordModel>,
    ErrorModel,
> {
    if exists|k: int| first_problem(outs, k) {
        match problem_at(outs, choose|k: int| first_problem(outs, k)) {
            Some(e) => Err(e),
            None => Err(ErrorModel::Csv(seq![])),
        }
    } else {
        match trailer {
            Some(e) => Err(e),
            None => Ok(kept_records(outs)),
        }
    }
}

/// The view of a table-reading result.
pub open spec fn records_result_view(r: Result<Vec<BomRecord>, BomError>) -> Result<
    Seq<RecordModel>,
    ErrorModel,
> {
    match r {
        Ok(v) => Ok(v@.map_values(|x: BomRecord| x@)),
        Err(e) => Err(e@),
    }
}

/// The texts of the rows of a table.
pub open spec fn table_texts(rows: Seq<Vec<String>>) -> Seq<Seq<Seq<char>>> {
    Seq::new(rows.len(), |i: int| texts(rows[i]@))
}

proof fn lemma_first_problem(outs: Seq<RowOutcome>, k: int, trailer: Option<ErrorModel>)
    requires
        0 <= k < outs.len(),
        problem_at(outs, k) is Some,
        forall|j: int| 0 <= j < k ==> problem_at(outs, j) is None,
    ensures
        rows_outcome(outs, trailer) == Err::<Seq<RecordModel>, ErrorModel>(
            problem_at(outs, k)->Some_0,
        ),
{
    assert(first_problem(outs, k));
    let c = choose|c: int| first_problem(outs, c);
    assert(first_problem(outs, c));
    if c < k {
        assert(problem_at(outs, c) is None);
    } else if c > k {
        assert(problem_at(outs, k) is None);
    }
}

proof fn lemma_kept_step(outs: Seq<RowOutcome>, i: int)
    requires
        0 <= i < outs.len(),
    ensures
        kept_records(outs.take(i + 1)) == (match outs[i] {
            Ok(Some(r)) => kept_records(outs.take(i)).push(r),
            _ => kept_records(outs.take(i)),
        }),
        kept_numbers(outs.take(i + 1)) == (match outs[i] {
            Ok(Some(r)) => kept_numbers(outs.take(i)).push(r.material_no),
            _ => kept_numbers(outs.take(i)),
        }),
{
    assert(outs.take(i + 1).drop_last() =~= outs.take(i));
    assert(outs.take(i + 1).last() == outs[i]);
    match outs[i] {
        Ok(Some(r)) => {
            assert(kept_records(outs.take(i)).push(r).map_values(|x: RecordModel| x.material_no)
                =~= kept_records(outs.take(i)).map_values(|x: RecordModel| x.material_no).push(
                r.material_no,
            ));
        },
        _ => {},
    }
}

proof fn lemma_no_problem(outs: Seq<RowOutcome>, trailer: Option<ErrorModel>)
    requires
        forall|j: int| 0 <= j < outs.len() ==> problem_at(outs, j) is None,
    ensures
        rows_outcome(outs, trailer) == (match trailer {
            Some(e) => Err(e),
            None => Ok(kept_records(outs)),
        }),
{
    if exists|k: int| first_problem(outs, k) {
        let k = choose|k: int| first_problem(outs, k);
        assert(problem_at(outs, k) is None);
    }
}

/// Whether a string occurs in a list.
fn contains_text(v: &Vec<String>, s: &String) -> (r: bool)
    ensures
        r == texts(v@).contains(s@),
{
    let mut i: usize = 0;
    while i < v.len()
        invariant
            i <= v@.len(),
            forall|j: int| 0 <= j < i ==> v@[j]@ != s@,
        decreases v@.len() - i,
    {
        if v[i] == *s {
            assert(texts(v@)[i as int] == s@);
            return true;
        }
        i = i + 1;
    }
    proof {
        if texts(v@).contains(s@) {
            let j = choose|j: int| 0 <= j < texts(v@).len() && texts(v@)[j] == s@;
            assert(v@[j]@ == s@);
        }
    }
    false
}

/// Reads one data row; `skip_blank` selects the worksheet rule.
fn read_one(headers: &Vec<String>, row: &Vec<String>, line: usize, skip_blank: bool) -> (r: Result<
    Option<BomRecord>,
    BomError,
>)
    ensures
        (match r {
            Ok(Some(rec)) => Ok(Some(rec@)),
            Ok(None) => Ok(None),
            Err(e) => Err(e@),
        }) == (if skip_blank {
            sheet_row_outcome(texts(headers@), texts(row@), line as nat)
        } else {
            csv_row_outcome(texts(headers@), texts(row@), line as nat)
        }),
{
    if skip_blank {
        match field(headers, row, "物料号") {
            None => {
                return Err(missing_error("物料号", line));
            },
            Some(no) => {
                if no.as_str().is_empty() {
                    return Ok(None);
                }
            },
        }
    }
    match parse_row(headers, row, line) {
        Ok(rec) => Ok(Some(rec)),
        Err(e) => Err(e),
    }
}

/// Reads the data rows of a table against its header row.
#[verifier::spinoff_prover]
#[verifier::rlimit(30)]
fn read_rows(
    headers: &Vec<String>,
    rows: &Vec<Vec<String>>,
    skip_blank: bool,
    trailer: Option<BomError>,
) -> (r: Result<Vec<BomRecord>, BomError>)
    requires
        rows@.len() <= isize::MAX,
    ensures
        records_result_view(r) == rows_outcome(
            table_outcomes(skip_blank, texts(headers@), table_texts(rows@)),
            match trailer {
                Some(e) => Some(e@),
                None => None,
            },
        ),
{
    let ghost outs = table_outcomes(skip_blank, texts(headers@), table_texts(rows@));
    let ghost tr = match &trailer {
        Some(e) => Some(e@),
        None => None,
    };
    let mut items: Vec<BomRecord> = Vec::new();
    let mut seen: Vec<String> = Vec::new();
    let mut i: usize = 0;
    while i < rows.len()
        invariant
            rows@.len() <= isize::MAX,
            outs == table_outcomes(skip_blank, texts(headers@), table_texts(rows@)),
            tr == (match trailer {
                Some(e) => Some(e@),
                None => None,
            }),
            i <= rows@.len(),
            forall|j: int| 0 <= j < i ==> problem_at(outs, j) is None,
            items@.map_values(|x: BomRecord| x@) == kept_records(outs.take(i as int)),
            texts(seen@) == kept_numbers(outs.take(i as int)),
        decreases rows@.len() - i,
    {
        let line = i + 2;
        assert(table_texts(rows@)[i as int] == texts(rows@[i as int]@));
        proof {
            lemma_kept_step(outs, i as int);
        }
        let row = &rows[i];
        assert(outs[i as int] == (if skip_blank {
            sheet_row_outcome(texts(headers@), texts(row@), line as nat)
        } else {
            csv_row_outcome(texts(headers@), texts(row@), line as nat)
        }));
        match read_one(headers, row, line, skip_blank) {
            Err(e) => {
                proof {
                    assert(problem_at(outs, i as int) == Some(e@));
                    lemma_first_problem(outs, i as int, tr);
                }
                return Err(e);
            },
            Ok(None) => {},
            Ok(Some(rec)) => {
                if contains_text(&seen, &rec.material_no) {
                    proof {
                        assert(problem_at(outs, i as int) == Some(
                            ErrorModel::DuplicateMaterial(rec.material_no@),
                        ));
                        lemma_first_problem(outs, i as int, tr);
                    }
                    return Err(BomError::DuplicateMaterial(rec.material_no));
                }
                let ghost old_items = items@;
                let ghost old_seen = seen@;
                seen.push(rec.material_no.clone());
                items.push(rec);
                proof {
                    assert(items@.map_values(|x: BomRecord| x@) =~= old_items.map_values(
                        |x: BomRecord| x@,
                    ).push(rec@));
                    assert(texts(seen@) =~= texts(old_seen).push(rec.material_no@));
                }
            },
        }
        i = i + 1;
    }
    proof {
        assert(outs.take(rows@.len() as int) =~= outs);
        lemma_no_problem(outs, tr);
    }
    match trailer {
        Some(e) => Err(e),
        None => Ok(items),
    }
}

/// The header row that the `csv` crate reads from the bytes (with headers
/// expected and rows of any length allowed), or its error message.
pub uninterp spec fn csv_header_cells(data: Seq<u8>) -> Result<Seq<Seq<char>>, Seq<char>>;

/// The data rows that the `csv` crate reads from the bytes, up to the first
/// row it fails on, and that failure's message.
pub uninterp spec fn csv_record_cells(data: Seq<u8>) -> (Seq<Seq<Seq<char>>>, Option<Seq<char>>);

/// Wrapper of `csv::ReaderBuilder` (`has_headers(true)`, `flexible(true)`)
/// and `csv::Reader::headers`: the header cells, or the error's text;
/// named `csv_header_cells`.
#[verifier::external_body]
fn csv_headers(data: &[u8]) -> (r: Result<Vec<String>, String>)
    ensures
        match r {
            Ok(h) => csv_header_cells(data@) == Ok::<Seq<Seq<char>>, Seq<char>>(texts(h@)),
            Err(m) => csv_header_cells(data@) == Err::<Seq<Seq<char>>, Seq<char>>(m@),
        },
{
    let mut rdr = csv::ReaderBuilder::new().has_headers(true).flexible(true).from_reader(data);
    match rdr.headers() {
        Ok(h) => Ok(h.iter().map(|c| c.to_string()).collect()),
        Err(e) => Err(e.to_string()),
    }
}

/// Wrapper of `csv::Reader::records` on a reader built as in `csv_headers`:
/// the cells of the rows read before the first failure, and that failure's
/// text; named `csv_record_cells`.  A `Vec` holds at most `isize::MAX` bytes,
/// so it holds fewer rows than that.
#[verifier::external_body]
fn csv_records(data: &[u8]) -> (r: (Vec<Vec<String>>, Option<String>))
    ensures
        csv_record_cells(data@) == (table_texts(r.0@), opt_text(r.1)),
        r.0@.len() <= isize::MAX,
{
    let mut rdr = csv::ReaderBuilder::new().has_headers(true).flexible(true).from_reader(data);
    let mut rows: Vec<Vec<String>> = Vec::new();
    for rec in rdr.records() {
        match rec {
            Ok(r) => rows.push(r.iter().map(|c| c.to_string()).collect()),
            Err(e) => return (rows, Some(e.to_string())),
        }
    }
    (rows, None)
}

/// What reading CSV bytes gives: the records, or the first error met.
pub open spec fn csv_outcome(data: Seq<u8>) -> Result<Seq<RecordModel>, ErrorModel> {
    match csv_header_cells(data) {
        Err(m) => Err(ErrorModel::Csv(m)),
        Ok(h) => {
            let rows = csv_record_cells(data).0;
            let trailer = match csv_record_cells(data).1 {
                Some(m) => Some(ErrorModel::Csv("行 "@ + decimal(rows.len() + 2) + ": "@ + m)),
                None => None,
            };
            rows_outcome(table_outcomes(false, h, rows), trailer)
        },
    }
}

/// Reads a BOM from CSV bytes whose first row names the columns.
pub fn parse_csv(data: &[u8]) -> (r: Result<Vec<BomRecord>, BomError>)
    ensures
        records_result_view(r) == csv_outcome(data@),
{
    let headers = match csv_headers(data) {
        Ok(h) => h,
        Err(m) => return Err(BomError::CsvError(m)),
    };
    let (rows, failure) = csv_records(data);
    let trailer = match failure {
        Some(m) => {
            let n = usize_text(rows.len() + 2);
            let head = concat3("行 ", n.as_str(), ": ");
            Some(BomError::CsvError(concat2(head.as_str(), m.as_str())))
        },
        None => None,
    };
    read_rows(&headers, &rows, false, trailer)
}

/// The cells of a worksheet as a workbook reader gives them: whether the
/// sheet's range is empty, and each row's cells, with a cell's text where
/// it holds text.
pub struct SheetCells {
    pub empty: bool,
    pub rows: Vec<Vec<Option<String>>>,
}

/// The texts of the cells of a worksheet.
pub open spec fn cell_texts(rows: Seq<Vec<Option<String>>>) -> Seq<Seq<Option<Seq<char>>>> {
    Seq::new(rows.len(), |i: int| Seq::new(rows[i]@.len(), |j: int| opt_text(rows[i]@[j])))
}

/// What reading a workbook's sheet names gave: the names, or the error's
/// text.
pub open spec fn names_view(r: Result<Vec<String>, String>) -> Result<Seq<Seq<char>>, Seq<char>> {
    match r {
        Ok(v) => Ok(texts(v@)),
        Err(m) => Err(m@),
    }
}

/// What reading a worksheet gave: whether it is empty and its cells, or the
/// error's text.
pub open spec fn sheet_view(r: Result<SheetCells, String>) -> Result<(bool, Seq<Seq<Option<Seq<char>>>>), Seq<char>> {
    match r {
        Ok(c) => Ok((c.empty, cell_texts(c.rows@))),
        Err(m) => Err(m@),
    }
}

/// The sheet a BOM is read from: the first of the workbook, or the error
/// of opening it, or the refusal of a workbook without sheets.
pub open spec fn first_sheet_outcome(names: Result<Seq<Seq<char>>, Seq<char>>) -> Result<Seq<char>, ErrorModel> {
    match names {
        Err(m) => Err(ErrorModel::Excel(m)),
        Ok(v) => if v.len() == 0 {
            Err(ErrorModel::Excel("Excel 文件中没有工作表"@))
        } else {
            Ok(v[0])
        },
    }
}

/// Picks the sheet a BOM is read from, given what reading the workbook's
/// sheet names gave.
pub fn first_sheet(names: Result<Vec<String>, String>) -> (r: Result<String, BomError>)
    ensures
        match r {
            Ok(n) => first_sheet_outcome(names_view(names)) == Ok::<Seq<char>, ErrorModel>(n@),
            Err(e) => first_sheet_outcome(names_view(names)) == Err::<Seq<char>, ErrorModel>(e@),
        },
{
    match names {
        Err(m) => Err(BomError::ExcelError(m)),
        Ok(v) => {
            if v.len() == 0 {
                Err(BomError::ExcelError(owned("Excel 文件中没有工作表")))
            } else {
                Ok(v[0].clone())
            }
        },
    }
}

/// A cell's text, empty for a cell that holds no text.
pub open spec fn cell_or_empty(c: Option<Seq<char>>) -> Seq<char> {
    match c {
        Some(t) => t,
        None => seq![],
    }
}

/// The rows of a worksheet as texts.
pub open spec fn sheet_rows(cells: Seq<Seq<Option<Seq<char>>>>) -> Seq<Seq<Seq<char>>> {
    Seq::new(cells.len(), |i: int| Seq::new(cells[i].len(), |j: int| cell_or_empty(cells[i][j])))
}

/// What a worksheet reads as: its records, the first row naming the
/// columns and rows with an empty material number skipped; or the first
/// error met.
pub open spec fn sheet_outcome(sheet: Result<(bool, Seq<Seq<Option<Seq<char>>>>), Seq<char>>) -> Result<
    Seq<RecordModel>,
    ErrorModel,
> {
    match sheet {
        Err(m) => Err(ErrorModel::Excel(m)),
        Ok(sheet) => if sheet.0 {
            Err(ErrorModel::Excel("工作表为空"@))
        } else {
            let rows = sheet_rows(sheet.1);
            if rows.len() < 2 {
                Err(ErrorModel::Excel("工作表至少需要表头和一行数据"@))
            } else {
                let headers = rows[0].map_values(|h: Seq<char>| trimmed(h));
                rows_outcome(table_outcomes(true, headers, rows.drop_first()), None)
            }
        },
    }
}

/// The cells of one worksheet row as texts.
fn row_texts(cells: &Vec<Option<String>>) -> (r: Vec<String>)
    ensures
        texts(r@) == Seq::new(cells@.len(), |j: int| cell_or_empty(opt_text(cells@[j]))),
{
    let mut r: Vec<String> = Vec::new();
    let mut j: usize = 0;
    while j < cells.len()
        invariant
            j <= cells@.len(),
            r@.len() == j,
            forall|k: int| 0 <= k < j ==> #[trigger] r@[k]@ == cell_or_empty(opt_text(cells@[k])),
        decreases cells@.len() - j,
    {
        let t = match &cells[j] {
            Some(s) => s.clone(),
            None => String::new(),
        };
        r.push(t);
        j = j + 1;
    }
    assert(texts(r@) =~= Seq::new(cells@.len(), |j: int| cell_or_empty(opt_text(cells@[j]))));
    r
}

/// A copy of a list of strings.
pub fn copy_strings(v: &Vec<String>) -> (r: Vec<String>)
    ensures
        r@ == v@,
{
    let mut r: Vec<String> = Vec::new();
    let mut i: usize = 0;
    while i < v.len()
        invariant
            i <= v@.len(),
            r@ == v@.subrange(0, i as int),
        decreases v@.len() - i,
    {
        r.push(v[i].clone());
        i = i + 1;
        assert(r@ =~= v@.subrange(0, i as int));
    }
    assert(r@ =~= v@);
    r
}

/// Reads a BOM from a worksheet, given what reading it gave: the first row
/// names the columns, and rows with an empty material number are skipped.
pub fn parse_sheet(sheet: Result<SheetCells, String>) -> (r: Result<Vec<BomRecord>, BomError>)
    requires
        sheet matches Ok(c) ==> c.rows@.len() <= isize::MAX,
    ensures
        records_result_view(r) == sheet_outcome(sheet_view(sheet)),
{
    let sheet = match sheet {
        Ok(c) => c,
        Err(m) => return Err(BomError::ExcelError(m)),
    };
    if sheet.empty {
        return Err(BomError::ExcelError(owned("工作表为空")));
    }
    let ghost cells = cell_texts(sheet.rows@);
    let ghost all = sheet_rows(cells);
    let mut rows: Vec<Vec<String>> = Vec::new();
    let mut i: usize = 0;
    while i < sheet.rows.len()
        invariant
            cells == cell_texts(sheet.rows@),
            all == sheet_rows(cells),
            i <= sheet.rows@.len(),
            rows@.len() == i,
            forall|k: int| 0 <= k < i ==> #[trigger] texts(rows@[k]@) == all[k],
        decreases sheet.rows@.len() - i,
    {
        let t = row_texts(&sheet.rows[i]);
        assert(texts(t@) =~= all[i as int]);
        rows.push(t);
        i = i + 1;
    }
    assert(table_texts(rows@) =~= all);
    if rows.len() < 2 {
        return Err(BomError::ExcelError(owned("工作表至少需要表头和一行数据")));
    }
    let mut headers: Vec<String> = Vec::new();
    let mut j: usize = 0;
    while j < rows[0].len()
        invariant
            rows@.len() >= 2,
            j <= rows@[0]@.len(),
            headers@.len() == j,
            forall|k: int| 0 <= k < j ==> #[trigger] headers@[k]@ == trimmed(rows@[0]@[k]@),
        decreases rows@[0]@.len() - j,
    {
        headers.push(owned(trim_str(rows[0][j].as_str())));
        j = j + 1;
    }
    let mut data_rows: Vec<Vec<String>> = Vec::new();
    let mut k: usize = 1;
    while k < rows.len()
        invariant
            1 <= k <= rows@.len(),
            rows@.len() <= isize::MAX,
            data_rows@.len() == k - 1,
            forall|m: int| 0 <= m < k - 1 ==> #[trigger] data_rows@[m]@ == rows@[m + 1]@,
        decreases rows@.len() - k,
    {
        data_rows.push(copy_strings(&rows[k]));
        k = k + 1;
    }
    proof {
        assert(texts(headers@) =~= all[0].map_values(|h: Seq<char>| trimmed(h)));
        assert(table_texts(data_rows@) =~= all.drop_first());
    }
    read_rows(&headers, &data_rows, true, None)
}

impl BomRecord {
    /// The item this record describes, with its numbers given as values.
    pub fn into_item(self, quantity: Number, loss_rate: Number, unit_price: Number) -> (r: BomItem)
        ensures
            r.material_no == self.material_no,
            r.material_name == self.material_name,
            r.specification == self.specification,
            r.bom_type == self.bom_type,
            r.quantity == quantity,
            r.unit == self.unit,
            r.loss_rate == loss_rate,
            r.supplier == self.supplier,
            r.unit_price == unit_price,
            r.source == self.source,
            r.effective_date == self.effective_date,
            r.expiry_date == self.expiry_date,
            r.remark == self.remark,
            r.parent_material_no == self.parent_material_no,
    {
        BomItem {
            material_no: self.material_no,
            material_name: self.material_name,
            specification: self.specification,
            bom_type: self.bom_type,
            quantity,
            unit: self.unit,
            loss_rate,
            supplier: self.supplier,
            unit_price,
            source: self.source,
            effective_date: self.effective_date,
            expiry_date: self.expiry_date,
            remark: self.remark,
            parent_material_no: self.parent_material_no,
        }
    }
}

/// The file types read as CSV and as workbooks (after lower-casing).
pub open spec fn is_csv_type(t: Seq<char>) -> bool {
    t == "csv"@
}

/// The file types read as workbooks (after lower-casing).
pub open spec fn is_excel_type(t: Seq<char>) -> bool {
    t == "xlsx"@ || t == "xls"@ || t == "excel"@
}

/// How a BOM file is read.
#[derive(Clone, Copy, Debug, PartialEq, Eq, Structural)]
pub enum BomFileKind {
    Csv,
    Workbook,
}

/// How a file of the given (lower-cased) type is read: "csv" as CSV,
/// "xlsx", "xls" or "excel" as a workbook; any other type is refused.
pub open spec fn file_kind_of(key: Seq<char>, file_type: Seq<char>) -> Result<BomFileKind, ErrorModel> {
    if is_csv_type(key) {
        Ok(BomFileKind::Csv)
    } else if is_excel_type(key) {
        Ok(BomFileKind::Workbook)
    } else {
        Err(ErrorModel::InvalidField("不支持的文件类型: "@ + file_type))
    }
}

/// The view of a file-kind decision.
pub open spec fn kind_view(r: Result<BomFileKind, BomError>) -> Result<BomFileKind, ErrorModel> {
    match r {
        Ok(k) => Ok(k),
        Err(e) => Err(e@),
    }
}

/// Decides how a BOM file of the given type is read, ignoring the type's
/// letter case.
pub fn bom_file_kind(file_type: &str) -> (r: Result<BomFileKind, BomError>)
    ensures
        kind_view(r) == file_kind_of(lowercased(file_type@), file_type@),
        plain_text(file_type@) ==> kind_view(r) == file_kind_of(
            file_type@.map_values(|c: char| simple_lower(c)),
            file_type@,
        ),
{
    let t = to_lowercase_str(file_type);
    let k = t.as_str();
    proof {
        reveal_strlit("csv");
        reveal_strlit("xlsx");
        reveal_strlit("xls");
        reveal_strlit("excel");
    }
    if str_equal(k, "csv") {
        Ok(BomFileKind::Csv)
    } else if str_equal(k, "xlsx") || str_equal(k, "xls") || str_equal(k, "excel") {
        Ok(BomFileKind::Workbook)
    } else {
        Err(BomError::InvalidField(concat2("不支持的文件类型: ", file_type)))
    }
}

} // verus!
