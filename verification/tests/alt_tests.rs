use bom_parser::alt::{
    collect_non_virtual_alts, is_virtual_material, should_skip_in_cost, AltMaterial,
    AltMaterialGroup, AltMaterialManager,
};
use bom_parser::bom::BomType;
use bom_parser::number::Number;

fn num(x: f64) -> Number {
    Number::new(x.to_bits(), x.to_string(), format!("{:.1}", x * 100.0))
}

fn alt(no: &str, name: &str, supplier: &str, price: f64, days: u32, priority: u32, active: bool, stock: f64) -> AltMaterial {
    AltMaterial {
        material_no: no.to_string(),
        material_name: name.to_string(),
        specification: "M10".to_string(),
        supplier: supplier.to_string(),
        unit_price: num(price),
        delivery_days: days,
        priority,
        is_active: active,
        stock_quantity: num(stock),
        unit: "个".to_string(),
    }
}

fn sample_group() -> AltMaterialGroup {
    AltMaterialGroup {
        base_material_no: "M001".to_string(),
        alternatives: vec![
            alt("M001-A", "螺栓A", "供应商A", 1.5, 3, 1, true, 100.0),
            alt("M001-B", "螺栓B", "供应商B", 2.0, 1, 2, true, 50.0),
            alt("M001-C", "螺栓C", "供应商C", 1.8, 5, 3, true, 200.0),
        ],
    }
}

/// Consumes `qty` from the stock of `supplier`: checks it, takes the
/// difference and stores it, as a caller of the manager does.
fn consume(manager: &mut AltMaterialManager, base: &str, supplier: &str, qty: f64) -> Result<f64, String> {
    let stock = manager.check_stock(base, supplier, &num(qty))?;
    let remaining = f64::from_bits(stock.bits) - qty;
    manager.update_stock(base, supplier, num(remaining))?;
    Ok(remaining)
}

#[test]
fn test_alt_sorting() {
    let group = sample_group();
    let sorted = group.sorted_by_priority();
    assert_eq!(sorted.len(), 3);
    assert_eq!(sorted[0].supplier, "供应商A");
    assert_eq!(sorted[1].supplier, "供应商B");
    assert_eq!(sorted[2].supplier, "供应商C");
}

#[test]
fn test_try_switch_alt() {
    let mut manager = AltMaterialManager::new();
    manager.add_group(sample_group());

    let current = manager.get_current_alt("M001").unwrap();
    assert_eq!(current.supplier, "供应商A");

    let result = manager.try_switch_alt("M001", &num(60.0));
    assert!(result.is_ok());
    let new_alt = result.unwrap();
    assert_eq!(new_alt.supplier, "供应商C");

    let current2 = manager.get_current_alt("M001").unwrap();
    assert_eq!(current2.supplier, "供应商C");
}

#[test]
fn test_consume_stock() {
    let mut manager = AltMaterialManager::new();
    manager.add_group(sample_group());

    let remaining = consume(&mut manager, "M001", "供应商A", 30.0).unwrap();
    assert_eq!(remaining, 70.0);

    let result = consume(&mut manager, "M001", "供应商A", 80.0);
    assert!(result.is_err());
}

#[test]
fn test_virtual_check() {
    assert!(is_virtual_material(&BomType::Virtual));
    assert!(!is_virtual_material(&BomType::RawMaterial));
    assert!(should_skip_in_cost(&BomType::Virtual));
}

#[test]
fn sorting_skips_inactive_and_keeps_ties_in_order() {
    let group = AltMaterialGroup {
        base_material_no: "M002".to_string(),
        alternatives: vec![
            alt("X1", "x1", "S1", 1.0, 1, 5, true, 1.0),
            alt("X2", "x2", "S2", 1.0, 1, 2, true, 1.0),
            alt("X3", "x3", "S3", 1.0, 1, 5, false, 1.0),
            alt("X4", "x4", "S4", 1.0, 1, 2, true, 1.0),
            alt("X5", "x5", "S5", 1.0, 1, 1, true, 1.0),
        ],
    };
    let sorted: Vec<&str> = group.sorted_by_priority().iter().map(|a| a.material_no.as_str()).collect();
    assert_eq!(sorted, vec!["X5", "X2", "X4", "X1"]);
    let active: Vec<&str> = collect_non_virtual_alts(&group).iter().map(|a| a.material_no.as_str()).collect();
    assert_eq!(active, vec!["X1", "X2", "X4", "X5"]);
}

#[test]
fn find_by_supplier_wants_active() {
    let mut group = sample_group();
    group.alternatives[1].is_active = false;
    assert!(group.find_by_supplier("供应商B").is_none());
    assert_eq!(group.find_by_supplier("供应商C").unwrap().material_no, "M001-C");
    assert!(group.find_by_supplier("供应商Z").is_none());
}

#[test]
fn switching_errors_and_counter() {
    let mut manager = AltMaterialManager::new();
    assert_eq!(
        manager.try_switch_alt("M001", &num(1.0)).unwrap_err(),
        "未找到物料 M001 的替代料组"
    );
    manager.add_group(sample_group());
    assert_eq!(manager.switch_count(), 0);
    assert_eq!(
        manager.try_switch_alt("M001", &num(500.0)).unwrap_err(),
        "物料 M001 没有足够库存的替代料"
    );
    assert_eq!(manager.switch_count(), 0);
    assert_eq!(manager.try_switch_alt("M001", &num(10.0)).unwrap().supplier, "供应商B");
    assert_eq!(manager.try_switch_alt("M001", &num(10.0)).unwrap().supplier, "供应商C");
    assert!(manager.try_switch_alt("M001", &num(10.0)).is_err());
    assert_eq!(manager.switch_count(), 2);
    manager.reset_alt("M001").unwrap();
    assert_eq!(manager.get_current_alt("M001").unwrap().supplier, "供应商A");
    assert_eq!(manager.reset_alt("M404").unwrap_err(), "未找到物料 M404 的替代料组");
}

#[test]
fn readding_group_keeps_choice() {
    let mut manager = AltMaterialManager::new();
    manager.add_group(sample_group());
    manager.try_switch_alt("M001", &num(150.0)).unwrap();
    let mut smaller = sample_group();
    smaller.alternatives.truncate(1);
    manager.add_group(smaller);
    assert!(manager.get_current_alt("M001").is_none());
    assert_eq!(manager.get_group("M001").unwrap().alternatives.len(), 1);
    assert_eq!(manager.all_groups().len(), 1);
    assert!(manager.get_group("M404").is_none());
}

#[test]
fn stock_updates_and_errors() {
    let mut manager = AltMaterialManager::new();
    manager.add_group(sample_group());
    assert_eq!(
        manager.update_stock("M404", "供应商A", num(1.0)).unwrap_err(),
        "未找到物料 M404 的替代料组"
    );
    assert_eq!(
        manager.update_stock("M001", "供应商Z", num(1.0)).unwrap_err(),
        "未找到供应商 供应商Z 的替代料"
    );
    manager.update_stock("M001", "供应商B", num(5.0)).unwrap();
    let g = manager.get_group("M001").unwrap();
    assert_eq!(f64::from_bits(g.alternatives[1].stock_quantity.bits), 5.0);
    assert_eq!(
        manager.check_stock("M001", "供应商B", &num(6.0)).unwrap_err(),
        "供应商 供应商B 库存不足，当前: 5, 需要: 6"
    );
    assert_eq!(f64::from_bits(manager.check_stock("M001", "供应商B", &num(5.0)).unwrap().bits), 5.0);
}

#[test]
fn repeated_switches_settle_on_the_stocked_alternative() {
    let mut manager = AltMaterialManager::new();
    manager.add_group(sample_group());

    let mut switched = 0;
    for _ in 0..10 {
        if manager.try_switch_alt("M001", &num(150.0)).is_ok() {
            switched += 1;
        }
    }

    assert_eq!(switched, 1);
    assert_eq!(manager.switch_count(), 1);
    let current = manager.get_current_alt("M001").unwrap();
    assert_eq!(current.supplier, "供应商C");
}
