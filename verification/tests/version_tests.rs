use bom_parser::bom::{BomItem, BomType, SourceType};
use bom_parser::number::Number;
use bom_parser::version::{diff_bom, upload_attribution, VersionHistory, VersionManager};

fn num(x: f64) -> Number {
    Number::new(x.to_bits(), x.to_string(), format!("{:.1}", x * 100.0))
}

fn val(n: &Number) -> f64 {
    f64::from_bits(n.bits)
}

fn a001(name: &str, spec: &str, loss: f64, price: f64, remark: &str) -> BomItem {
    BomItem {
        material_no: "A001".to_string(),
        material_name: name.to_string(),
        specification: spec.to_string(),
        bom_type: BomType::FinishedProduct,
        quantity: num(1.0),
        unit: "件".to_string(),
        loss_rate: num(loss),
        supplier: "".to_string(),
        unit_price: num(price),
        source: SourceType::SelfMade,
        effective_date: "".to_string(),
        expiry_date: "".to_string(),
        remark: remark.to_string(),
        parent_material_no: None,
    }
}

fn sample_bom_data() -> Vec<BomItem> {
    vec![a001("成品A", "", 0.05, 100.0, "初始版本")]
}

fn sample_bom_data_v2() -> Vec<BomItem> {
    vec![a001("成品A-改进版", "100x100", 0.03, 120.0, "改进版")]
}

#[test]
fn test_version_history_creation() {
    let data = sample_bom_data();
    let history = VersionHistory::new("bom-001", data, "工程师甲", "初始导入");

    assert_eq!(history.version_count(), 1);
    assert_eq!(history.current_version, 1);
    assert_eq!(history.current().modified_by, "工程师甲");
}

#[test]
fn test_add_version_and_diff() {
    let data = sample_bom_data();
    let mut history = VersionHistory::new("bom-001", data, "工程师甲", "初始导入");

    let v2_data = sample_bom_data_v2();
    let v2 = history.add_version(v2_data, "工程师乙", "修改单价和损耗率");

    assert_eq!(v2.version_number, 2);
    assert!(v2.change_description.len() > 0);
    assert_eq!(history.current_version, 2);
}

#[test]
fn test_rollback() {
    let data = sample_bom_data();
    let mut history = VersionHistory::new("bom-001", data, "工程师甲", "初始导入");

    let v2_data = sample_bom_data_v2();
    history.add_version(v2_data, "工程师乙", "修改单价");

    assert_eq!(history.current_version, 2);

    let v3 = history.rollback(1, "工程师丙", "发现新版算错了").unwrap();
    assert_eq!(v3.version_number, 3);
    assert!(v3.change_reason.contains("回滚"));
    assert_eq!(val(&history.current().data[0].unit_price), 100.0);
}

#[test]
fn test_version_manager() {
    let mut mgr = VersionManager::new();
    let data = sample_bom_data();

    mgr.create_bom("bom-001", data, "工程师甲", "初始导入");
    assert!(mgr.has_bom("bom-001"));
    assert!(!mgr.has_bom("bom-999"));

    let versions = mgr.list_versions("bom-001").unwrap();
    assert_eq!(versions.len(), 1);
}

#[test]
fn test_diff_bom() {
    let old = sample_bom_data();
    let new = sample_bom_data_v2();

    let changes = diff_bom(&old, &new);
    assert!(changes.len() > 0);
}

#[test]
fn diff_lists_changed_fields_in_order() {
    let changes = diff_bom(&sample_bom_data(), &sample_bom_data_v2());
    let fields: Vec<&str> = changes.iter().map(|c| c.field.as_str()).collect();
    assert_eq!(fields, vec!["物料名称", "规格", "损耗率", "单价", "备注"]);
    assert_eq!(changes[2].old_value, "0.05");
    assert_eq!(changes[2].new_value, "0.03");
    assert_eq!(changes[3].old_value, "100");
    assert_eq!(changes[3].new_value, "120");
    assert_eq!(changes[0].material_no.as_deref(), Some("A001"));
}

#[test]
fn diff_additions_and_removals() {
    let mut b = a001("零件B", "", 0.0, 1.0, "");
    b.material_no = "B001".to_string();
    let old = vec![a001("成品A", "", 0.0, 1.0, ""), b];
    let mut c = a001("零件C", "", 0.0, 1.0, "");
    c.material_no = "C001".to_string();
    let new = vec![a001("成品A", "", 0.0, 1.0, ""), c];
    let changes = diff_bom(&old, &new);
    assert_eq!(changes.len(), 2);
    assert_eq!(changes[0].field, "新增物料");
    assert_eq!(changes[0].old_value, "");
    assert_eq!(changes[0].new_value, "零件C");
    assert_eq!(changes[0].material_no.as_deref(), Some("C001"));
    assert_eq!(changes[1].field, "删除物料");
    assert_eq!(changes[1].old_value, "零件B");
    assert_eq!(changes[1].new_value, "");
}

#[test]
fn diff_of_same_bom_is_empty() {
    let data = sample_bom_data_v2();
    assert!(diff_bom(&data, &data).is_empty());
}

#[test]
fn diff_of_nan_quantity_reports_change() {
    let mut a = a001("成品A", "", 0.0, 1.0, "");
    a.quantity = num(f64::NAN);
    let data = vec![a];
    let changes = diff_bom(&data, &data);
    assert_eq!(changes.len(), 1);
    assert_eq!(changes[0].field, "数量");
}

#[test]
fn initial_version_change_and_numbers() {
    let mut history = VersionHistory::new("bom-001", sample_bom_data(), "甲", "导入");
    let v1 = &history.versions[0];
    assert_eq!(v1.change_description.len(), 1);
    assert_eq!(v1.change_description[0].field, "BOM");
    assert_eq!(v1.change_description[0].new_value, "初始版本");
    assert_eq!(v1.change_description[0].material_no, None);
    history.add_version(sample_bom_data_v2(), "乙", "改");
    history.add_version(sample_bom_data(), "丙", "再改");
    let summary = history.list_versions();
    let numbers: Vec<u32> = summary.iter().map(|s| s.version_number).collect();
    assert_eq!(numbers, vec![1, 2, 3]);
    let current: Vec<bool> = summary.iter().map(|s| s.is_current).collect();
    assert_eq!(current, vec![false, false, true]);
    assert_eq!(history.current().version_number, 3);
}

#[test]
fn rollback_reason_and_missing_version() {
    let mut history = VersionHistory::new("bom-001", sample_bom_data(), "甲", "导入");
    history.add_version(sample_bom_data_v2(), "乙", "改");
    let v3 = history.rollback(1, "丙", "错了").unwrap();
    assert_eq!(v3.change_reason, "回滚到版本 1: 错了");
    assert_eq!(v3.data[0].material_name, "成品A");
    assert_eq!(history.rollback(9, "丙", "x").unwrap_err(), "版本 9 不存在");
    assert_eq!(history.version_count(), 3);
    assert_eq!(history.get_version(2).unwrap().data[0].material_name, "成品A-改进版");
    assert!(history.get_version(7).is_none());
}

#[test]
fn manager_update_rollback_and_errors() {
    let mut mgr = VersionManager::new();
    mgr.create_bom("bom-001", sample_bom_data(), "甲", "导入");
    let v2 = mgr.update_bom("bom-001", sample_bom_data_v2(), "乙", "改").unwrap();
    assert_eq!(v2.version_number, 2);
    assert_eq!(mgr.update_bom("bom-404", sample_bom_data(), "乙", "改").unwrap_err(), "BOM bom-404 不存在");
    assert_eq!(mgr.rollback("bom-404", 1, "乙", "改").unwrap_err(), "BOM bom-404 不存在");
    assert_eq!(mgr.rollback("bom-001", 5, "乙", "改").unwrap_err(), "版本 5 不存在");
    let v3 = mgr.rollback("bom-001", 1, "丙", "回退").unwrap();
    assert_eq!(v3.version_number, 3);
    assert_eq!(mgr.get_current("bom-001").unwrap().data[0].material_name, "成品A");
    assert_eq!(mgr.get_version("bom-001", 2).unwrap().data[0].material_name, "成品A-改进版");
    assert!(mgr.get_version("bom-001", 4).is_none());
    assert!(mgr.get_current("bom-404").is_none());
    assert!(mgr.list_versions("bom-404").is_none());
}

#[test]
fn manager_recreate_replaces_history() {
    let mut mgr = VersionManager::new();
    mgr.create_bom("bom-001", sample_bom_data(), "甲", "导入");
    mgr.update_bom("bom-001", sample_bom_data_v2(), "乙", "改").unwrap();
    let v = mgr.create_bom("bom-001", sample_bom_data_v2(), "丁", "重建");
    assert_eq!(v.version_number, 1);
    assert_eq!(mgr.list_versions("bom-001").unwrap().len(), 1);
    mgr.create_bom("bom-002", sample_bom_data(), "甲", "导入");
    let mut ids = mgr.all_bom_ids();
    ids.sort();
    assert_eq!(ids, vec!["bom-001".to_string(), "bom-002".to_string()]);
}

#[test]
fn upload_attribution_defaults() {
    assert_eq!(upload_attribution(None, None), ("system".to_string(), "上传导入".to_string()));
    assert_eq!(
        upload_attribution(Some("工程师甲"), Some("初始导入")),
        ("工程师甲".to_string(), "初始导入".to_string())
    );
}

#[test]
fn version_ids_are_v4_uuids() {
    let h = VersionHistory::new("bom-001", sample_bom_data(), "工程师甲", "初始导入");
    let id: Vec<char> = h.current().version_id.chars().collect();
    assert_eq!(id.len(), 36);
    for (i, c) in id.iter().enumerate() {
        if i == 8 || i == 13 || i == 18 || i == 23 {
            assert_eq!(*c, '-');
        } else {
            assert!(c.is_ascii_hexdigit() && !c.is_ascii_uppercase());
        }
    }
    assert_eq!(id[14], '4');
    assert!("89ab".contains(id[19]));
}
