use bom_parser::bom::parser::{bom_file_kind, first_sheet, parse_csv, parse_sheet, BomFileKind, BomRecord, SheetCells};
use calamine::{DataType, Reader};
use std::io::Cursor;

/// Reads a workbook's first sheet the way the server does: `calamine` reads
/// the sheet names and cells, the library decides what they give.
fn parse_excel(data: &[u8]) -> Result<Vec<BomRecord>, BomError> {
    let names = match calamine::open_workbook_auto_from_rs(Cursor::new(data)) {
        Ok(wb) => Ok(wb.sheet_names()),
        Err(e) => Err(e.to_string()),
    };
    let name = first_sheet(names)?;
    let cells = (|| -> Result<SheetCells, String> {
        let mut wb = calamine::open_workbook_auto_from_rs(Cursor::new(data)).map_err(|e| e.to_string())?;
        let range = wb.worksheet_range(&name).map_err(|e| e.to_string())?;
        let rows = range
            .rows()
            .map(|row| row.iter().map(|c| c.get_string().map(|s| s.to_string())).collect())
            .collect();
        Ok(SheetCells { empty: range.is_empty(), rows })
    })();
    parse_sheet(cells)
}

/// Reads a BOM file of the given type.
fn parse_bom(data: &[u8], file_type: &str) -> Result<Vec<BomRecord>, BomError> {
    match bom_file_kind(file_type)? {
        BomFileKind::Csv => parse_csv(data),
        BomFileKind::Workbook => parse_excel(data),
    }
}

fn text_row(cells: &[&str]) -> Vec<Option<String>> {
    cells.iter().map(|c| if c.is_empty() { None } else { Some(c.to_string()) }).collect()
}
use bom_parser::bom::{BomError, BomType, SourceType};
use bom_parser::number::Number;

fn num(x: f64) -> Number {
    Number::new(x.to_bits(), x.to_string(), format!("{:.1}", x * 100.0))
}

const CSV_HEADER: &str = "物料号,物料名称,规格,类型,数量,单位,损耗率,供应商,单价,来源,生效日期,失效日期,备注,父件物料号\n";

#[test]
fn test_parse_csv_basic() {
    let csv_data = "\
物料号,物料名称,规格,类型,数量,单位,损耗率,供应商,单价,来源,生效日期,失效日期,备注,父件物料号
A001,成品A,100x100,成品,1,件,0.05,供应商A,100,自制,2024-01-01,2025-12-31,主产品,
B001,半成品B,50x50,半成品,1,件,0.03,供应商B,50,自制,2024-01-01,,子件,A001
";
    let items = parse_csv(csv_data.as_bytes()).unwrap();
    assert_eq!(items.len(), 2);
    assert_eq!(items[0].material_no, "A001");
    assert_eq!(items[0].bom_type, BomType::FinishedProduct);
    assert_eq!(items[1].parent_material_no.as_deref(), Some("A001"));
}

#[test]
fn test_bom_type_from_str() {
    assert_eq!(BomType::from_str("成品").unwrap(), BomType::FinishedProduct);
    assert_eq!(BomType::from_str("半成品").unwrap(), BomType::SemiFinished);
    assert_eq!(BomType::from_str("原材料").unwrap(), BomType::RawMaterial);
    assert_eq!(BomType::from_str("虚拟件").unwrap(), BomType::Virtual);
}

#[test]
fn bom_type_ignores_case_and_blanks() {
    assert_eq!(BomType::from_str("  Finished ").unwrap(), BomType::FinishedProduct);
    assert_eq!(BomType::from_str("RAW_MATERIAL").unwrap(), BomType::RawMaterial);
    assert_eq!(BomType::from_str("SemiFinished").unwrap(), BomType::SemiFinished);
    assert_eq!(BomType::from_str("virtual").unwrap(), BomType::Virtual);
}

#[test]
fn bom_type_unknown_is_invalid_field() {
    match BomType::from_str("零件") {
        Err(BomError::InvalidField(m)) => assert_eq!(m, "未知类型: 零件"),
        other => panic!("unexpected: {:?}", other),
    }
}

#[test]
fn source_type_from_str() {
    assert_eq!(SourceType::from_str("自制").unwrap(), SourceType::SelfMade);
    assert_eq!(SourceType::from_str("Buy").unwrap(), SourceType::Purchased);
    assert_eq!(SourceType::from_str(" outsource ").unwrap(), SourceType::Outsourced);
    match SourceType::from_str("租赁") {
        Err(BomError::InvalidField(m)) => assert_eq!(m, "未知来源: 租赁"),
        other => panic!("unexpected: {:?}", other),
    }
}

#[test]
fn labels_of_kinds_and_sources() {
    assert_eq!(BomType::SemiFinished.label(), "半成品");
    assert_eq!(BomType::Virtual.label(), "虚拟件");
    assert_eq!(SourceType::Purchased.label(), "外购");
    assert_eq!(SourceType::Outsourced.label(), "外协");
}

#[test]
fn error_messages() {
    assert_eq!(BomError::CsvError("x".to_string()).message(), "CSV parse error: x");
    assert_eq!(BomError::ExcelError("y".to_string()).message(), "Excel parse error: y");
    assert_eq!(BomError::InvalidField("z".to_string()).message(), "Invalid field: z");
    assert_eq!(BomError::MissingField("w".to_string()).message(), "Missing required field: w");
    assert_eq!(
        BomError::DuplicateMaterial("A001".to_string()).message(),
        "Duplicate material number: A001"
    );
}

#[test]
fn csv_defaults_for_optional_columns() {
    let data = "物料号,物料名称,类型,数量,单位\nC001,零件C,原材料,3,个\n";
    let items = parse_csv(data.as_bytes()).unwrap();
    assert_eq!(items.len(), 1);
    assert_eq!(items[0].loss_rate_text, "0");
    assert_eq!(items[0].unit_price_text, "0");
    assert_eq!(items[0].source, SourceType::SelfMade);
    assert_eq!(items[0].specification, "");
    assert_eq!(items[0].parent_material_no, None);
    assert_eq!(items[0].quantity_text, "3");
}

#[test]
fn csv_missing_required_column() {
    let data = "物料号,物料名称,类型,单位\nC001,零件C,原材料,个\n";
    match parse_csv(data.as_bytes()) {
        Err(BomError::MissingField(m)) => assert_eq!(m, "数量 (行 2)"),
        other => panic!("unexpected: {:?}", other.map(|v| v.len())),
    }
}

#[test]
fn csv_bad_number() {
    let data = format!("{}A001,成品A,,成品,abc,件,,,,,,,,\n", CSV_HEADER);
    match parse_csv(data.as_bytes()) {
        Err(BomError::InvalidField(m)) => assert_eq!(m, "数量格式错误 (行 2)"),
        other => panic!("unexpected: {:?}", other.map(|v| v.len())),
    }
}

#[test]
fn csv_duplicate_material() {
    let data = format!(
        "{}A001,成品A,,成品,1,件,,,,,,,,\nA001,成品A2,,成品,2,件,,,,,,,,\n",
        CSV_HEADER
    );
    match parse_csv(data.as_bytes()) {
        Err(BomError::DuplicateMaterial(m)) => assert_eq!(m, "A001"),
        other => panic!("unexpected: {:?}", other.map(|v| v.len())),
    }
}

#[test]
fn parse_bom_dispatches_on_type() {
    let data = format!("{}A001,成品A,,成品,1,件,,,,,,,,\n", CSV_HEADER);
    let items = parse_bom(data.as_bytes(), "CSV").unwrap();
    assert_eq!(items.len(), 1);
    match parse_bom(data.as_bytes(), "txt") {
        Err(BomError::InvalidField(m)) => assert_eq!(m, "不支持的文件类型: txt"),
        other => panic!("unexpected: {:?}", other.map(|v| v.len())),
    }
    match parse_bom(b"not a workbook", "xlsx") {
        Err(BomError::ExcelError(_)) => {}
        other => panic!("unexpected: {:?}", other.map(|v| v.len())),
    }
}

#[test]
fn excel_rejects_garbage() {
    assert!(matches!(parse_excel(b"garbage bytes"), Err(BomError::ExcelError(_))));
}

#[test]
fn record_into_item_keeps_fields() {
    let data = format!("{}A001,成品A,10x10,成品,2,件,0.1,供应商A,5,外购,,,备注,\n", CSV_HEADER);
    let mut items = parse_csv(data.as_bytes()).unwrap();
    let rec = items.remove(0);
    assert_eq!(rec.quantity_text, "2");
    let item = rec.into_item(num(2.0), num(0.1), num(5.0));
    assert_eq!(item.material_no, "A001");
    assert_eq!(item.specification, "10x10");
    assert_eq!(item.source, SourceType::Purchased);
    assert_eq!(item.quantity.bits, 2.0f64.to_bits());
    assert_eq!(item.remark, "备注");
    assert!(!item.is_virtual());
    assert!(!item.is_raw_material());
}

/// A small workbook: a header row, a row for A001, a row without material
/// number (skipped), and a row for B001 under A001; all cells are text.
const WORKBOOK: &[u8] = &[
    80, 75, 3, 4, 20, 0, 0, 0, 8, 0, 106, 5, 114, 93, 223, 105, 30, 80, 12, 1, 0, 0, 181, 2,
    0, 0, 19, 0, 0, 0, 91, 67, 111, 110, 116, 101, 110, 116, 95, 84, 121, 112, 101, 115, 93, 46, 120, 109,
    108, 173, 82, 201, 78, 195, 48, 16, 253, 21, 203, 215, 42, 118, 203, 1, 33, 148, 180, 7, 150, 35, 32, 81,
    62, 96, 176, 39, 137, 85, 111, 242, 184, 37, 253, 123, 156, 180, 32, 132, 10, 189, 244, 52, 178, 223, 170, 209,
    212, 171, 193, 89, 182, 195, 68, 38, 248, 134, 47, 196, 156, 51, 244, 42, 104, 227, 187, 134, 191, 173, 31, 171,
    27, 206, 40, 131, 215, 96, 131, 199, 134, 239, 145, 248, 106, 89, 175, 247, 17, 137, 21, 173, 167, 134, 247, 57,
    199, 91, 41, 73, 245, 232, 128, 68, 136, 232, 11, 210, 134, 228, 32, 151, 103, 234, 100, 4, 181, 129, 14, 229,
    213, 124, 126, 45, 85, 240, 25, 125, 174, 242, 232, 193, 151, 245, 61, 182, 176, 181, 153, 61, 12, 229, 251, 208,
    35, 161, 37, 206, 238, 14, 196, 49, 171, 225, 16, 163, 53, 10, 114, 193, 229, 206, 235, 95, 41, 213, 49, 65,
    20, 229, 196, 161, 222, 68, 154, 21, 2, 151, 39, 19, 70, 228, 239, 128, 163, 238, 185, 44, 38, 25, 141, 236,
    5, 82, 126, 2, 87, 88, 114, 176, 242, 35, 164, 205, 123, 8, 27, 241, 191, 201, 137, 150, 161, 109, 141, 66,
    29, 212, 214, 21, 137, 160, 152, 16, 52, 245, 136, 217, 89, 49, 77, 225, 192, 248, 217, 249, 252, 137, 76, 114,
    26, 139, 11, 23, 249, 246, 63, 211, 131, 122, 72, 168, 95, 115, 42, 199, 66, 23, 95, 198, 15, 239, 175, 30,
    114, 58, 187, 229, 39, 80, 75, 3, 4, 20, 0, 0, 0, 8, 0, 106, 5, 114, 93, 152, 218, 235, 139, 174,
    0, 0, 0, 39, 1, 0, 0, 11, 0, 0, 0, 95, 114, 101, 108, 115, 47, 46, 114, 101, 108, 115, 141, 207,
    193, 14, 130, 48, 12, 6, 224, 87, 89, 122, 151, 129, 7, 99, 12, 131, 139, 49, 225, 106, 240, 1, 230, 86,
    6, 1, 214, 101, 155, 10, 111, 239, 142, 98, 60, 120, 108, 250, 247, 251, 211, 178, 94, 230, 137, 61, 209, 135,
    129, 172, 128, 34, 203, 129, 161, 85, 164, 7, 107, 4, 220, 218, 203, 238, 8, 44, 68, 105, 181, 156, 200, 162,
    128, 21, 3, 212, 85, 121, 197, 73, 198, 116, 18, 250, 193, 5, 150, 12, 27, 4, 244, 49, 186, 19, 231, 65,
    245, 56, 203, 144, 145, 67, 155, 54, 29, 249, 89, 198, 52, 122, 195, 157, 84, 163, 52, 200, 247, 121, 126, 224,
    254, 211, 128, 173, 201, 26, 45, 192, 55, 186, 0, 214, 174, 14, 255, 177, 169, 235, 6, 133, 103, 82, 143, 25,
    109, 252, 81, 241, 149, 72, 178, 244, 6, 163, 128, 101, 226, 47, 242, 227, 157, 104, 204, 18, 10, 188, 42, 249,
    230, 193, 234, 13, 80, 75, 3, 4, 20, 0, 0, 0, 8, 0, 106, 5, 114, 93, 157, 108, 67, 189, 185, 0,
    0, 0, 27, 1, 0, 0, 15, 0, 0, 0, 120, 108, 47, 119, 111, 114, 107, 98, 111, 111, 107, 46, 120, 109,
    108, 141, 79, 75, 174, 194, 48, 12, 188, 74, 228, 61, 164, 101, 129, 158, 170, 182, 108, 16, 18, 107, 224, 0,
    161, 113, 105, 68, 99, 87, 118, 248, 188, 219, 19, 126, 123, 86, 51, 214, 104, 198, 51, 245, 234, 30, 71, 115,
    69, 209, 192, 212, 64, 57, 47, 192, 32, 117, 236, 3, 157, 26, 56, 236, 55, 179, 63, 48, 154, 28, 121, 55,
    50, 97, 3, 255, 168, 176, 106, 235, 27, 203, 249, 200, 124, 54, 217, 78, 218, 192, 144, 210, 84, 89, 171, 221,
    128, 209, 233, 156, 39, 164, 172, 244, 44, 209, 165, 124, 202, 201, 234, 36, 232, 188, 14, 136, 41, 142, 118, 81,
    20, 75, 27, 93, 32, 120, 39, 84, 242, 75, 6, 247, 125, 232, 112, 205, 221, 37, 34, 165, 119, 136, 224, 232,
    82, 46, 175, 67, 152, 20, 218, 250, 245, 65, 63, 104, 200, 197, 92, 122, 247, 228, 101, 30, 242, 196, 173, 207,
    59, 193, 72, 21, 50, 145, 173, 47, 193, 182, 181, 253, 218, 236, 119, 89, 251, 0, 80, 75, 3, 4, 20, 0,
    0, 0, 8, 0, 106, 5, 114, 93, 214, 223, 124, 150, 200, 0, 0, 0, 181, 1, 0, 0, 26, 0, 0, 0,
    120, 108, 47, 95, 114, 101, 108, 115, 47, 119, 111, 114, 107, 98, 111, 111, 107, 46, 120, 109, 108, 46, 114, 101,
    108, 115, 173, 144, 207, 106, 195, 48, 12, 135, 95, 197, 232, 190, 40, 233, 97, 148, 81, 183, 151, 50, 232, 117,
    235, 30, 64, 216, 74, 28, 154, 216, 70, 242, 214, 246, 237, 107, 6, 251, 19, 232, 97, 135, 157, 132, 36, 244,
    233, 227, 183, 217, 93, 230, 201, 124, 176, 232, 152, 162, 133, 174, 105, 193, 112, 116, 201, 143, 113, 176, 240, 118,
    124, 126, 88, 131, 209, 66, 209, 211, 148, 34, 91, 184, 178, 194, 110, 187, 121, 225, 137, 74, 61, 209, 48, 102,
    53, 149, 17, 213, 66, 40, 37, 63, 33, 170, 11, 60, 147, 54, 41, 115, 172, 155, 62, 201, 76, 165, 182, 50,
    96, 38, 119, 162, 129, 113, 213, 182, 143, 40, 191, 25, 176, 100, 154, 131, 183, 32, 7, 223, 129, 57, 94, 51,
    255, 133, 157, 250, 126, 116, 188, 79, 238, 125, 230, 88, 238, 188, 192, 115, 146, 147, 6, 230, 82, 161, 36, 3,
    23, 11, 223, 35, 197, 207, 210, 53, 149, 10, 120, 95, 102, 245, 159, 50, 26, 72, 216, 191, 22, 169, 73, 235,
    143, 208, 98, 252, 37, 131, 139, 184, 183, 55, 80, 75, 3, 4, 20, 0, 0, 0, 8, 0, 106, 5, 114, 93,
    64, 132, 230, 103, 30, 1, 0, 0, 87, 3, 0, 0, 24, 0, 0, 0, 120, 108, 47, 119, 111, 114, 107, 115,
    104, 101, 101, 116, 115, 47, 115, 104, 101, 101, 116, 49, 46, 120, 109, 108, 141, 147, 237, 110, 194, 32, 20, 134,
    111, 133, 240, 127, 210, 47, 157, 51, 20, 99, 237, 122, 5, 219, 5, 144, 22, 109, 99, 11, 13, 144, 186, 221,
    253, 80, 183, 230, 64, 26, 179, 127, 156, 60, 239, 73, 158, 240, 2, 221, 127, 13, 61, 154, 132, 54, 157, 146,
    57, 142, 87, 17, 70, 66, 214, 170, 233, 228, 57, 199, 159, 31, 213, 203, 22, 35, 99, 185, 108, 120, 175, 164,
    200, 241, 183, 48, 120, 207, 232, 85, 233, 139, 105, 133, 176, 200, 237, 75, 147, 227, 214, 218, 113, 71, 136, 169,
    91, 49, 112, 179, 82, 163, 144, 142, 156, 148, 30, 184, 117, 163, 62, 19, 51, 106, 193, 155, 251, 210, 208, 147,
    36, 138, 54, 100, 224, 157, 196, 140, 54, 221, 32, 228, 77, 0, 105, 113, 202, 241, 33, 222, 85, 25, 38, 140,
    222, 179, 37, 183, 156, 81, 173, 174, 72, 59, 63, 151, 174, 111, 135, 67, 140, 145, 205, 177, 113, 243, 196, 34,
    74, 38, 70, 73, 253, 203, 10, 200, 98, 159, 29, 33, 75, 124, 86, 66, 150, 250, 236, 29, 178, 204, 103, 21,
    100, 235, 153, 17, 231, 60, 139, 39, 179, 120, 2, 194, 155, 64, 28, 178, 215, 64, 28, 178, 109, 32, 14, 217,
    91, 32, 14, 89, 28, 45, 219, 165, 127, 118, 69, 10, 211, 225, 221, 165, 79, 20, 210, 39, 10, 233, 63, 20,
    178, 249, 130, 50, 152, 14, 42, 42, 60, 24, 116, 116, 244, 96, 80, 82, 233, 193, 117, 96, 152, 45, 27, 62,
    234, 205, 22, 27, 123, 216, 19, 240, 70, 201, 252, 41, 216, 15, 80, 75, 3, 4, 20, 0, 0, 0, 8, 0,
    106, 5, 114, 93, 123, 94, 86, 167, 2, 1, 0, 0, 9, 2, 0, 0, 20, 0, 0, 0, 120, 108, 47, 115,
    104, 97, 114, 101, 100, 83, 116, 114, 105, 110, 103, 115, 46, 120, 109, 108, 117, 145, 193, 74, 195, 48, 24, 128,
    95, 37, 228, 238, 146, 237, 48, 68, 210, 140, 77, 240, 9, 244, 1, 66, 27, 215, 64, 147, 212, 38, 21, 61,
    122, 114, 42, 101, 3, 169, 224, 197, 155, 136, 183, 121, 153, 135, 49, 124, 153, 101, 197, 183, 48, 34, 40, 166,
    219, 49, 223, 199, 255, 127, 129, 159, 12, 46, 100, 6, 206, 121, 97, 132, 86, 17, 236, 118, 48, 4, 92, 197,
    58, 17, 106, 28, 193, 147, 227, 163, 189, 125, 8, 140, 101, 42, 97, 153, 86, 60, 130, 151, 220, 192, 1, 37,
    198, 88, 224, 39, 149, 137, 96, 106, 109, 126, 128, 144, 137, 83, 46, 153, 233, 232, 156, 43, 111, 78, 117, 33,
    153, 245, 207, 98, 140, 76, 94, 112, 150, 152, 148, 115, 43, 51, 212, 195, 184, 143, 36, 19, 10, 130, 88, 151,
    202, 250, 106, 31, 130, 82, 137, 179, 146, 31, 254, 2, 159, 16, 148, 88, 218, 220, 188, 110, 30, 30, 221, 244,
    157, 32, 75, 9, 250, 134, 255, 196, 172, 106, 94, 230, 45, 247, 182, 116, 79, 119, 33, 221, 212, 243, 207, 235,
    105, 72, 93, 85, 175, 87, 85, 107, 195, 100, 177, 94, 46, 118, 198, 135, 24, 119, 91, 235, 39, 51, 119, 127,
    53, 220, 142, 67, 218, 154, 246, 181, 214, 207, 62, 86, 77, 253, 28, 210, 209, 150, 180, 171, 110, 127, 50, 163,
    157, 38, 20, 189, 63, 128, 252, 49, 233, 23, 80, 75, 1, 2, 20, 3, 20, 0, 0, 0, 8, 0, 106, 5,
    114, 93, 223, 105, 30, 80, 12, 1, 0, 0, 181, 2, 0, 0, 19, 0, 0, 0, 0, 0, 0, 0, 0, 0,
    0, 0, 128, 1, 0, 0, 0, 0, 91, 67, 111, 110, 116, 101, 110, 116, 95, 84, 121, 112, 101, 115, 93, 46,
    120, 109, 108, 80, 75, 1, 2, 20, 3, 20, 0, 0, 0, 8, 0, 106, 5, 114, 93, 152, 218, 235, 139, 174,
    0, 0, 0, 39, 1, 0, 0, 11, 0, 0, 0, 0, 0, 0, 0, 0, 0, 0, 0, 128, 1, 61, 1, 0,
    0, 95, 114, 101, 108, 115, 47, 46, 114, 101, 108, 115, 80, 75, 1, 2, 20, 3, 20, 0, 0, 0, 8, 0,
    106, 5, 114, 93, 157, 108, 67, 189, 185, 0, 0, 0, 27, 1, 0, 0, 15, 0, 0, 0, 0, 0, 0, 0,
    0, 0, 0, 0, 128, 1, 20, 2, 0, 0, 120, 108, 47, 119, 111, 114, 107, 98, 111, 111, 107, 46, 120, 109,
    108, 80, 75, 1, 2, 20, 3, 20, 0, 0, 0, 8, 0, 106, 5, 114, 93, 214, 223, 124, 150, 200, 0, 0,
    0, 181, 1, 0, 0, 26, 0, 0, 0, 0, 0, 0, 0, 0, 0, 0, 0, 128, 1, 250, 2, 0, 0, 120,
    108, 47, 95, 114, 101, 108, 115, 47, 119, 111, 114, 107, 98, 111, 111, 107, 46, 120, 109, 108, 46, 114, 101, 108,
    115, 80, 75, 1, 2, 20, 3, 20, 0, 0, 0, 8, 0, 106, 5, 114, 93, 64, 132, 230, 103, 30, 1, 0,
    0, 87, 3, 0, 0, 24, 0, 0, 0, 0, 0, 0, 0, 0, 0, 0, 0, 128, 1, 250, 3, 0, 0, 120,
    108, 47, 119, 111, 114, 107, 115, 104, 101, 101, 116, 115, 47, 115, 104, 101, 101, 116, 49, 46, 120, 109, 108, 80,
    75, 1, 2, 20, 3, 20, 0, 0, 0, 8, 0, 106, 5, 114, 93, 123, 94, 86, 167, 2, 1, 0, 0, 9,
    2, 0, 0, 20, 0, 0, 0, 0, 0, 0, 0, 0, 0, 0, 0, 128, 1, 78, 5, 0, 0, 120, 108, 47,
    115, 104, 97, 114, 101, 100, 83, 116, 114, 105, 110, 103, 115, 46, 120, 109, 108, 80, 75, 5, 6, 0, 0, 0,
    0, 6, 0, 6, 0, 135, 1, 0, 0, 130, 6, 0, 0, 0, 0,
];

#[test]
fn excel_reads_first_sheet_and_skips_blank_numbers() {
    let items = parse_excel(WORKBOOK).unwrap();
    assert_eq!(items.len(), 2);
    assert_eq!(items[0].material_no, "A001");
    assert_eq!(items[0].bom_type, BomType::FinishedProduct);
    assert_eq!(items[0].parent_material_no, None);
    assert_eq!(items[1].material_no, "B001");
    assert_eq!(items[1].quantity_text, "2");
    assert_eq!(items[1].parent_material_no.as_deref(), Some("A001"));
    let again = parse_bom(WORKBOOK, "XLSX").unwrap();
    assert_eq!(again.len(), 2);
}

#[test]
fn labels_read_back() {
    for t in [BomType::FinishedProduct, BomType::SemiFinished, BomType::RawMaterial, BomType::Virtual] {
        assert_eq!(BomType::from_str(&t.label()).unwrap(), t);
    }
    for s in [SourceType::SelfMade, SourceType::Purchased, SourceType::Outsourced] {
        assert_eq!(SourceType::from_str(&s.label()).unwrap(), s);
    }
}

#[test]
fn file_kinds() {
    assert_eq!(bom_file_kind("csv").unwrap(), BomFileKind::Csv);
    assert_eq!(bom_file_kind("XLS").unwrap(), BomFileKind::Workbook);
    assert_eq!(bom_file_kind("Excel").unwrap(), BomFileKind::Workbook);
    match bom_file_kind("pdf") {
        Err(BomError::InvalidField(m)) => assert_eq!(m, "不支持的文件类型: pdf"),
        other => panic!("unexpected: {:?}", other),
    }
}

#[test]
fn first_sheet_choice() {
    assert_eq!(first_sheet(Ok(vec!["BOM".to_string(), "其他".to_string()])).unwrap(), "BOM");
    match first_sheet(Ok(vec![])) {
        Err(BomError::ExcelError(m)) => assert_eq!(m, "Excel 文件中没有工作表"),
        other => panic!("unexpected: {:?}", other),
    }
    match first_sheet(Err("bad file".to_string())) {
        Err(BomError::ExcelError(m)) => assert_eq!(m, "bad file"),
        other => panic!("unexpected: {:?}", other),
    }
}

#[test]
fn sheet_errors_and_rows() {
    match parse_sheet(Ok(SheetCells { empty: true, rows: vec![] })) {
        Err(BomError::ExcelError(m)) => assert_eq!(m, "工作表为空"),
        other => panic!("unexpected: {:?}", other.map(|v| v.len())),
    }
    let header = text_row(&["物料号", "物料名称", "类型", "数量", "单位"]);
    match parse_sheet(Ok(SheetCells { empty: false, rows: vec![header.clone()] })) {
        Err(BomError::ExcelError(m)) => assert_eq!(m, "工作表至少需要表头和一行数据"),
        other => panic!("unexpected: {:?}", other.map(|v| v.len())),
    }
    match parse_sheet(Err("missing sheet".to_string())) {
        Err(BomError::ExcelError(m)) => assert_eq!(m, "missing sheet"),
        other => panic!("unexpected: {:?}", other.map(|v| v.len())),
    }
    let rows = vec![
        header,
        text_row(&["A001", "成品A", "成品", "1", "件"]),
        text_row(&["", "", "", "", ""]),
        text_row(&["R001", "原料", "原材料", "3", "kg"]),
    ];
    let items = parse_sheet(Ok(SheetCells { empty: false, rows })).unwrap();
    assert_eq!(items.len(), 2);
    assert_eq!(items[1].material_no, "R001");
    assert_eq!(items[1].bom_type, BomType::RawMaterial);
}
