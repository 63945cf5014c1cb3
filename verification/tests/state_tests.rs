use bom_parser::batch::{judge_file, unreadable_file, BatchJob, BatchResultItem, BatchStatus, FileOutcome};
use bom_parser::bom::BomError;
use bom_parser::bom::{BomItem, BomType, SourceType};
use bom_parser::number::Number;
use bom_parser::validation::BomValidator;
use bom_parser::version::VersionManager;

fn num(x: f64) -> Number {
    Number::new(x.to_bits(), x.to_string(), format!("{:.1}", x * 100.0))
}

fn sample_bom_data() -> Vec<BomItem> {
    vec![BomItem {
        material_no: "A001".to_string(),
        material_name: "成品A".to_string(),
        specification: "".to_string(),
        bom_type: BomType::FinishedProduct,
        quantity: num(1.0),
        unit: "件".to_string(),
        loss_rate: num(0.05),
        supplier: "".to_string(),
        unit_price: num(100.0),
        source: SourceType::SelfMade,
        effective_date: "".to_string(),
        expiry_date: "".to_string(),
        remark: "".to_string(),
        parent_material_no: None,
    }]
}

#[test]
fn test_create_and_get_bom() {
    let mut vm = VersionManager::new();
    let data = sample_bom_data();
    let version = vm.create_bom("bom-001", data, "测试员", "测试");

    assert_eq!(version.version_number, 1);
    assert!(vm.get_current("bom-001").is_some());
}

#[test]
fn test_validate_bom() {
    let mut vm = VersionManager::new();
    vm.create_bom("bom-001", sample_bom_data(), "测试员", "测试");
    let validator = BomValidator::new();

    let result = vm.get_current("bom-001").map(|v| validator.validate(&v.data));
    assert!(result.is_some());
    assert!(result.unwrap().valid);
}

#[test]
fn test_batch_job_progress() {
    let mut job = BatchJob::new("job-1".to_string(), 10);
    assert_eq!(job.total, 10);
    assert_eq!(job.completed, 0);

    job.record(
        true,
        BatchResultItem {
            file_name: "test.csv".to_string(),
            bom_id: Some("bom-001".to_string()),
            item_count: 10,
            error: None,
        },
    );
    assert_eq!(job.completed, 1);
    let percentage = (job.completed + job.failed) as f64 / job.total as f64 * 100.0;
    assert_eq!(percentage, 10.0);

    job.complete();
    assert_eq!(job.status, BatchStatus::Completed);
}

#[test]
fn batch_failures_keep_errors() {
    let mut job = BatchJob::new("job-2".to_string(), 2);
    job.record(
        false,
        BatchResultItem { file_name: "a.csv".to_string(), bom_id: None, item_count: 0, error: Some("坏文件".to_string()) },
    );
    job.record(
        false,
        BatchResultItem { file_name: "b.csv".to_string(), bom_id: None, item_count: 0, error: None },
    );
    assert_eq!(job.failed, 2);
    assert_eq!(job.completed, 0);
    assert_eq!(job.errors, vec!["坏文件".to_string(), "".to_string()]);
    assert!(job.results.is_empty());
    assert_eq!(job.status, BatchStatus::Running);
    job.fail();
    assert_eq!(job.status, BatchStatus::Failed);
}

#[test]
fn test_version_rollback() {
    let mut vm = VersionManager::new();
    vm.create_bom("bom-001", sample_bom_data(), "测试员", "v1");

    let mut data2 = sample_bom_data();
    data2[0].unit_price = num(200.0);
    vm.update_bom("bom-001", data2, "测试员", "v2 修改单价").unwrap();

    let versions = vm.list_versions("bom-001").unwrap();
    assert_eq!(versions.len(), 2);

    let v3 = vm.rollback("bom-001", 1, "测试员", "回滚").unwrap();
    assert_eq!(v3.version_number, 3);
    let price = f64::from_bits(vm.get_current("bom-001").unwrap().data[0].unit_price.bits);
    assert_eq!(price, 100.0);
}

#[test]
fn batch_snapshot_copies_everything() {
    let mut job = BatchJob::new("job-3".to_string(), 3);
    job.record(
        true,
        BatchResultItem { file_name: "a.csv".to_string(), bom_id: Some("bom-a".to_string()), item_count: 4, error: None },
    );
    job.record(
        false,
        BatchResultItem { file_name: "b.csv".to_string(), bom_id: None, item_count: 0, error: Some("坏".to_string()) },
    );
    job.complete();
    let snap = job.result();
    assert_eq!(snap.id, "job-3");
    assert_eq!(snap.total, 3);
    assert_eq!(snap.completed, 1);
    assert_eq!(snap.failed, 1);
    assert_eq!(snap.status, BatchStatus::Completed);
    assert_eq!(snap.results.len(), 1);
    assert_eq!(snap.results[0].bom_id.as_deref(), Some("bom-a"));
    assert_eq!(snap.errors, vec!["坏".to_string()]);
}

#[test]
fn valid_bom_builds_a_tree() {
    let mut data = sample_bom_data();
    let mut child = sample_bom_data().remove(0);
    child.material_no = "B001".to_string();
    child.parent_material_no = Some("A001".to_string());
    data.push(child);
    let result = BomValidator::new().validate(&data);
    assert!(result.valid);
    let copy = result.clone();
    assert_eq!(copy.issues.len(), result.issues.len());
    let tree = bom_parser::tree::build_tree(&data);
    assert_eq!(tree.len(), 1);
    assert_eq!(tree[0].children.len(), 1);
}

#[test]
fn batch_file_rejected_by_check() {
    let mut data = sample_bom_data();
    data[0].quantity = num(0.0);
    let validation = BomValidator::new().validate(&data);
    assert!(!validation.valid);
    match judge_file("a.csv", 1, &validation) {
        FileOutcome::Rejected(item) => {
            assert_eq!(item.file_name, "a.csv");
            assert_eq!(item.bom_id, None);
            assert_eq!(item.item_count, 1);
            let expected = format!(
                "校验未通过: {} 个错误, {} 个警告",
                validation.error_count, validation.warning_count
            );
            assert_eq!(item.error, Some(expected));
        }
        FileOutcome::Accepted { .. } => panic!("an invalid BOM must be rejected"),
    }
}

#[test]
fn batch_file_accepted_with_reason() {
    let validation = BomValidator::new().validate(&sample_bom_data());
    match judge_file("b.xlsx", 1, &validation) {
        FileOutcome::Accepted { reason } => assert_eq!(reason, "批量导入: b.xlsx"),
        FileOutcome::Rejected(_) => panic!("a valid BOM must be accepted"),
    }
}

#[test]
fn batch_file_unreadable() {
    let item = unreadable_file("c.csv", &BomError::MissingField("物料号 (行 2)".to_string()));
    assert_eq!(item.file_name, "c.csv");
    assert_eq!(item.bom_id, None);
    assert_eq!(item.item_count, 0);
    assert_eq!(item.error, Some("Missing required field: 物料号 (行 2)".to_string()));
}
