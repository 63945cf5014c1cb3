use bom_parser::bom::{BomItem, BomType, SourceType};
use bom_parser::number::Number;
use bom_parser::validation::{BomValidator, IssueLevel, ValidationIssue, ValidationResult};

fn num(x: f64) -> Number {
    Number::new(x.to_bits(), x.to_string(), format!("{:.1}", x * 100.0))
}

fn item(no: &str, name: &str, bom_type: BomType, quantity: f64, unit: &str, loss_rate: f64, unit_price: f64, source: SourceType, parent: Option<&str>) -> BomItem {
    BomItem {
        material_no: no.to_string(),
        material_name: name.to_string(),
        specification: "".to_string(),
        bom_type,
        quantity: num(quantity),
        unit: unit.to_string(),
        loss_rate: num(loss_rate),
        supplier: "".to_string(),
        unit_price: num(unit_price),
        source,
        effective_date: "".to_string(),
        expiry_date: "".to_string(),
        remark: "".to_string(),
        parent_material_no: parent.map(|s| s.to_string()),
    }
}

fn sample_bom_data() -> Vec<BomItem> {
    vec![
        item("A001", "成品A", BomType::FinishedProduct, 1.0, "件", 0.05, 100.0, SourceType::SelfMade, None),
        item("B001", "半成品B", BomType::SemiFinished, 2.0, "件", 0.03, 50.0, SourceType::SelfMade, Some("A001")),
    ]
}

fn has_code(r: &ValidationResult, code: &str) -> bool {
    r.issues.iter().any(|i| i.code == code)
}

#[test]
fn test_valid_bom() {
    let validator = BomValidator::new();
    let data = sample_bom_data();
    let result = validator.validate(&data);
    assert!(result.valid);
}

#[test]
fn test_invalid_quantity() {
    let validator = BomValidator::new();
    let mut data = sample_bom_data();
    data[0].quantity = num(-1.0);

    let result = validator.validate(&data);
    assert!(!result.valid);
    assert!(has_code(&result, "INVALID_QUANTITY"));
}

#[test]
fn test_loss_rate_too_high() {
    let validator = BomValidator::new();
    let mut data = sample_bom_data();
    data[0].loss_rate = num(1.5);

    let result = validator.validate(&data);
    assert!(!result.valid);
    assert!(has_code(&result, "LOSS_RATE_TOO_HIGH"));
}

#[test]
fn test_circular_reference() {
    let validator = BomValidator::new();
    let data = vec![
        item("A001", "物料A", BomType::SemiFinished, 1.0, "件", 0.01, 10.0, SourceType::SelfMade, Some("B001")),
        item("B001", "物料B", BomType::SemiFinished, 1.0, "件", 0.01, 20.0, SourceType::SelfMade, Some("A001")),
    ];

    let result = validator.validate(&data);
    assert!(!result.valid);
    assert!(has_code(&result, "CIRCULAR_REFERENCE"));
}

#[test]
fn test_master_data_validation() {
    let mut validator = BomValidator::new();
    validator.add_master_material("A001");

    let data = sample_bom_data();
    let result = validator.validate(&data);
    assert!(!result.valid);
    assert!(has_code(&result, "MATERIAL_NOT_IN_MASTER"));
}

#[test]
fn test_duplicate_material() {
    let validator = BomValidator::new();
    let data = vec![
        item("A001", "物料A", BomType::RawMaterial, 1.0, "个", 0.01, 10.0, SourceType::Purchased, None),
        item("A001", "物料A-重复", BomType::RawMaterial, 2.0, "个", 0.02, 12.0, SourceType::Purchased, None),
    ];

    let result = validator.validate(&data);
    assert!(!result.valid);
    assert!(has_code(&result, "DUPLICATE_MATERIAL_NO"));
}

#[test]
fn counts_agree_with_issues() {
    let validator = BomValidator::new();
    let mut data = sample_bom_data();
    data[1].quantity = num(0.0);
    data[1].material_name = "".to_string();
    let result = validator.validate(&data);
    let errors = result.issues.iter().filter(|i| i.level == IssueLevel::Error).count();
    let warnings = result.issues.iter().filter(|i| i.level == IssueLevel::Warning).count();
    assert_eq!(result.error_count, errors);
    assert_eq!(result.warning_count, warnings);
    assert_eq!(result.valid, errors == 0);
    assert!(!result.valid);
}

#[test]
fn circular_reference_message() {
    let validator = BomValidator::new();
    let data = vec![
        item("A001", "物料A", BomType::SemiFinished, 1.0, "件", 0.01, 10.0, SourceType::SelfMade, Some("B001")),
        item("B001", "物料B", BomType::SemiFinished, 1.0, "件", 0.01, 20.0, SourceType::SelfMade, Some("A001")),
    ];
    let result = validator.validate(&data);
    let cyc: Vec<&ValidationIssue> = result.issues.iter().filter(|i| i.code == "CIRCULAR_REFERENCE").collect();
    assert!(!cyc.is_empty());
    assert!(cyc[0].message.starts_with("检测到循环引用: "));
    assert!(cyc[0].message.contains(" -> "));
}

#[test]
fn loss_rate_limit_is_adjustable() {
    let validator = BomValidator::new().with_max_loss_rate(num(0.01));
    let result = validator.validate(&sample_bom_data());
    assert!(has_code(&result, "LOSS_RATE_TOO_HIGH"));
    let mut v2 = BomValidator::new();
    v2.load_master_data(vec!["A001".to_string(), "B001".to_string()]);
    assert!(v2.validate(&sample_bom_data()).valid);
}

#[test]
fn result_add_and_merge() {
    let mut r = ValidationResult::new();
    assert!(r.valid);
    let issue = ValidationIssue {
        level: IssueLevel::Warning,
        code: "W".to_string(),
        message: "m".to_string(),
        material_no: None,
        field: None,
    };
    r.add_issue(issue);
    assert!(r.valid);
    assert_eq!(r.warning_count, 1);
    let mut other = ValidationResult::new();
    other.add_issue(ValidationIssue {
        level: IssueLevel::Error,
        code: "E".to_string(),
        message: "m".to_string(),
        material_no: Some("A".to_string()),
        field: None,
    });
    r.merge(other);
    assert!(!r.valid);
    assert_eq!(r.error_count, 1);
    assert_eq!(r.issues.len(), 2);
}

#[test]
fn one_cycle_is_reported_once() {
    let validator = BomValidator::new();
    let data = vec![
        item("A001", "物料A", BomType::SemiFinished, 1.0, "件", 0.01, 10.0, SourceType::SelfMade, Some("B001")),
        item("B001", "物料B", BomType::SemiFinished, 1.0, "件", 0.01, 20.0, SourceType::SelfMade, Some("A001")),
    ];
    let result = validator.validate(&data);
    let cycles: Vec<_> = result.issues.iter().filter(|i| i.code == "CIRCULAR_REFERENCE").collect();
    assert_eq!(cycles.len(), 1);
    assert_eq!(cycles[0].message, "检测到循环引用: A001 -> B001 -> A001");
    assert_eq!(result.error_count, 1);
}

#[test]
fn separate_cycles_are_each_reported() {
    let validator = BomValidator::new();
    let data = vec![
        item("A001", "物料A", BomType::SemiFinished, 1.0, "件", 0.01, 10.0, SourceType::SelfMade, Some("B001")),
        item("B001", "物料B", BomType::SemiFinished, 1.0, "件", 0.01, 20.0, SourceType::SelfMade, Some("A001")),
        item("C001", "物料C", BomType::SemiFinished, 1.0, "件", 0.01, 10.0, SourceType::SelfMade, Some("D001")),
        item("D001", "物料D", BomType::SemiFinished, 1.0, "件", 0.01, 20.0, SourceType::SelfMade, Some("C001")),
    ];
    let result = validator.validate(&data);
    let messages: Vec<&str> = result
        .issues
        .iter()
        .filter(|i| i.code == "CIRCULAR_REFERENCE")
        .map(|i| i.message.as_str())
        .collect();
    assert_eq!(messages, vec!["检测到循环引用: A001 -> B001 -> A001", "检测到循环引用: C001 -> D001 -> C001"]);
    assert_eq!(result.error_count, 2);
}
