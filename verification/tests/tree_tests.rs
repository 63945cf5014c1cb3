use bom_parser::bom::{BomItem, BomType, SourceType};
use bom_parser::number::Number;
use bom_parser::tree::{
    build_tree, collect_raw_materials, count_nodes, find_node, flatten, max_depth, traverse,
    try_build_tree, BomTreeNode, TreeVisitor,
};

fn num(x: f64) -> Number {
    Number::new(x.to_bits(), x.to_string(), format!("{:.1}", x * 100.0))
}

fn item(
    no: &str,
    name: &str,
    bom_type: BomType,
    quantity: f64,
    unit: &str,
    loss_rate: f64,
    supplier: &str,
    unit_price: f64,
    source: SourceType,
    parent: Option<&str>,
) -> BomItem {
    BomItem {
        material_no: no.to_string(),
        material_name: name.to_string(),
        specification: "".to_string(),
        bom_type,
        quantity: num(quantity),
        unit: unit.to_string(),
        loss_rate: num(loss_rate),
        supplier: supplier.to_string(),
        unit_price: num(unit_price),
        source,
        effective_date: "".to_string(),
        expiry_date: "".to_string(),
        remark: "".to_string(),
        parent_material_no: parent.map(|s| s.to_string()),
    }
}

fn sample_bom_data() -> Vec<BomItem> {
    vec![
        item("B001", "半成品B", BomType::SemiFinished, 1.0, "件", 0.03, "", 50.0, SourceType::SelfMade, Some("A001")),
        item("A001", "成品A", BomType::FinishedProduct, 1.0, "件", 0.05, "", 100.0, SourceType::SelfMade, None),
        item("C001", "零件C", BomType::RawMaterial, 3.0, "个", 0.02, "供应商X", 10.0, SourceType::Purchased, Some("B001")),
    ]
}

#[test]
fn test_build_tree_out_of_order() {
    let items = sample_bom_data();
    let tree = build_tree(&items);

    assert_eq!(tree.len(), 1);
    let root = &tree[0];
    assert_eq!(root.material_no, "A001");
    assert_eq!(root.children.len(), 1);
    assert_eq!(root.children[0].material_no, "B001");
    assert_eq!(root.children[0].children.len(), 1);
    assert_eq!(root.children[0].children[0].material_no, "C001");
}

#[test]
fn test_max_depth() {
    let items = sample_bom_data();
    let tree = build_tree(&items);
    assert_eq!(max_depth(&tree), 3);
}

#[test]
fn test_find_node() {
    let items = sample_bom_data();
    let tree = build_tree(&items);
    let found = find_node(&tree, "B001");
    assert!(found.is_some());
    assert_eq!(found.unwrap().material_no, "B001");
}

#[test]
fn test_flatten_roundtrip() {
    let items = sample_bom_data();
    let tree = build_tree(&items);
    let flat = flatten(&tree);
    assert_eq!(flat.len(), 3);
}

#[test]
fn tree_test_virtual_node() {
    let mut items = sample_bom_data();
    items.push(item("V001", "虚拟工序", BomType::Virtual, 1.0, "工序", 0.0, "", 0.0, SourceType::SelfMade, Some("B001")));
    let tree = build_tree(&items);
    let v_node = find_node(&tree, "V001").unwrap();
    assert!(v_node.is_virtual());
}

#[test]
fn levels_and_paths() {
    let tree = build_tree(&sample_bom_data());
    let root = &tree[0];
    assert_eq!(root.level, 0);
    assert_eq!(root.path, "A001");
    let b = &root.children[0];
    assert_eq!(b.level, 1);
    assert_eq!(b.path, "A001/B001");
    let c = &b.children[0];
    assert_eq!(c.level, 2);
    assert_eq!(c.path, "A001/B001/C001");
    assert!(c.is_leaf());
    assert!(!b.is_leaf());
    assert_eq!(c.supplier, "供应商X");
    assert_eq!(c.quantity.bits, 3.0f64.to_bits());
}

#[test]
fn orphans_and_empty_parents_are_roots() {
    let items = vec![
        item("X001", "孤儿", BomType::RawMaterial, 1.0, "个", 0.0, "", 1.0, SourceType::Purchased, Some("ZZZ")),
        item("A001", "成品A", BomType::FinishedProduct, 1.0, "件", 0.0, "", 1.0, SourceType::SelfMade, Some("")),
    ];
    let tree = build_tree(&items);
    assert_eq!(tree.len(), 2);
    assert_eq!(tree[0].material_no, "A001");
    assert_eq!(tree[1].material_no, "X001");
}

#[test]
fn later_duplicate_item_gives_node_data() {
    let mut items = sample_bom_data();
    items.push(item("C001", "零件C新", BomType::RawMaterial, 4.0, "个", 0.0, "", 2.0, SourceType::Purchased, Some("B001")));
    let tree = build_tree(&items);
    let b = &tree[0].children[0];
    assert_eq!(b.children.len(), 2);
    assert_eq!(b.children[0].material_name, "零件C新");
    assert_eq!(b.children[1].material_name, "零件C新");
    assert_eq!(count_nodes(&tree), 4);
}

#[test]
fn cycle_reached_from_a_root_is_refused() {
    let items = vec![
        item("A001", "A", BomType::FinishedProduct, 1.0, "件", 0.0, "", 1.0, SourceType::SelfMade, None),
        item("B001", "B", BomType::SemiFinished, 1.0, "件", 0.0, "", 1.0, SourceType::SelfMade, Some("A001")),
        item("A001", "A again", BomType::FinishedProduct, 1.0, "件", 0.0, "", 1.0, SourceType::SelfMade, Some("B001")),
    ];
    assert!(try_build_tree(&items).is_none());
}

#[test]
fn cycle_off_the_roots_is_left_out() {
    let items = vec![
        item("A001", "A", BomType::FinishedProduct, 1.0, "件", 0.0, "", 1.0, SourceType::SelfMade, None),
        item("P001", "P", BomType::SemiFinished, 1.0, "件", 0.0, "", 1.0, SourceType::SelfMade, Some("Q001")),
        item("Q001", "Q", BomType::SemiFinished, 1.0, "件", 0.0, "", 1.0, SourceType::SelfMade, Some("P001")),
    ];
    let tree = try_build_tree(&items).unwrap();
    assert_eq!(tree.len(), 1);
    assert_eq!(count_nodes(&tree), 1);
}

#[test]
fn flatten_names_parents() {
    let tree = build_tree(&sample_bom_data());
    let flat = flatten(&tree);
    assert_eq!(flat[0].material_no, "A001");
    assert_eq!(flat[0].parent_material_no, None);
    assert_eq!(flat[1].material_no, "B001");
    assert_eq!(flat[1].parent_material_no.as_deref(), Some("A001"));
    assert_eq!(flat[2].material_no, "C001");
    assert_eq!(flat[2].parent_material_no.as_deref(), Some("B001"));
    assert_eq!(flat.len(), count_nodes(&tree));
}

#[test]
fn raw_materials_are_non_virtual_leaves() {
    let mut items = sample_bom_data();
    items.push(item("V001", "虚拟工序", BomType::Virtual, 1.0, "工序", 0.0, "", 0.0, SourceType::SelfMade, Some("B001")));
    items.push(item("D001", "零件D", BomType::RawMaterial, 1.0, "个", 0.0, "", 1.0, SourceType::Purchased, Some("A001")));
    let tree = build_tree(&items);
    let raws = collect_raw_materials(&tree);
    let names: Vec<&str> = raws.iter().map(|n| n.material_no.as_str()).collect();
    assert_eq!(names, vec!["C001", "D001"]);
    assert_eq!(max_depth(&tree), 3);
    assert_eq!(count_nodes(&tree), 5);
}

#[test]
fn find_node_takes_last_in_pre_order() {
    let mut items = sample_bom_data();
    items.push(item("D001", "半成品D", BomType::SemiFinished, 1.0, "件", 0.0, "", 1.0, SourceType::SelfMade, Some("A001")));
    items.push(item("B001", "半成品B2", BomType::SemiFinished, 1.0, "件", 0.0, "", 1.0, SourceType::SelfMade, Some("D001")));
    let tree = build_tree(&items);
    let found = find_node(&tree, "B001").unwrap();
    assert_eq!(found.path, "A001/D001/B001");
    assert_eq!(found.material_name, "半成品B2");
    assert_eq!(found.children[0].material_no, "C001");
    assert!(find_node(&tree, "Z999").is_none());
}

#[test]
fn empty_forest() {
    let tree = build_tree(&Vec::new());
    assert!(tree.is_empty());
    assert_eq!(max_depth(&tree), 0);
    assert_eq!(count_nodes(&tree), 0);
    assert!(flatten(&tree).is_empty());
}

struct Recorder {
    events: Vec<String>,
    skip: &'static str,
}

impl TreeVisitor for Recorder {
    fn enter(&mut self, node: &BomTreeNode) -> bool {
        self.events.push(format!("+{}", node.material_no));
        node.material_no != self.skip
    }

    fn leave(&mut self, node: &BomTreeNode) {
        self.events.push(format!("-{}", node.material_no));
    }
}

#[test]
fn traverse_enters_and_leaves() {
    let tree = build_tree(&sample_bom_data());
    let mut r = Recorder { events: Vec::new(), skip: "" };
    traverse(&tree, &mut r);
    assert_eq!(r.events, vec!["+A001", "+B001", "+C001", "-C001", "-B001", "-A001"]);
    let mut r2 = Recorder { events: Vec::new(), skip: "B001" };
    traverse(&tree, &mut r2);
    assert_eq!(r2.events, vec!["+A001", "+B001", "-B001", "-A001"]);
}

#[test]
fn node_from_item_and_clone() {
    let it = item("A001", "成品A", BomType::FinishedProduct, 1.0, "件", 0.05, "", 100.0, SourceType::SelfMade, None);
    let n = BomTreeNode::from_item(&it);
    assert_eq!(n.material_no, "A001");
    assert_eq!(n.level, 0);
    assert_eq!(n.path, "");
    assert!(n.is_leaf());
    let tree = build_tree(&sample_bom_data());
    let copy = tree[0].clone();
    assert_eq!(copy.children[0].children[0].material_no, "C001");
}
