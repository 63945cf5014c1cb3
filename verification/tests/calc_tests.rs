use bom_parser::bom::BomType;
use bom_parser::calc::{takes_surcharge, CostCalculator, PriceTier, PriceTiersConfig, SurchargeConfig};
use bom_parser::number::Number;

fn num(x: f64) -> Number {
    Number::new(x.to_bits(), x.to_string(), format!("{:.1}", x * 100.0))
}

fn val(n: &Number) -> f64 {
    f64::from_bits(n.bits)
}

#[test]
fn test_price_tiers_default() {
    let tiers = PriceTiersConfig::default();
    assert_eq!(val(&tiers.get_price_multiplier(&num(50.0))), 1.0);
    assert_eq!(val(&tiers.get_price_multiplier(&num(200.0))), 0.9);
    assert_eq!(val(&tiers.get_price_multiplier(&num(1000.0))), 0.8);
    assert_eq!(val(&tiers.get_price_multiplier(&num(5000.0))), 0.7);
}

#[test]
fn test_tier_name_consistent_with_multiplier() {
    let tiers = PriceTiersConfig::default();

    let last_tier = tiers.tiers.last().unwrap();
    let last_multiplier = val(&last_tier.unit_price);
    let last_tier_index = tiers.tiers.len();

    let fallback_multiplier = val(&tiers.get_price_multiplier(&num(f64::MAX)));
    let fallback_name = tiers.get_tier_name(&num(f64::MAX));

    assert_eq!(fallback_multiplier, last_multiplier);
    assert!(
        fallback_name.contains(&format!("第{}档", last_tier_index)),
        "fallback 档位名应该与最后一档一致，实际为: {}",
        fallback_name
    );
    assert!(
        !fallback_name.contains("未知"),
        "fallback 档位名不应为'未知档位'，实际为: {}",
        fallback_name
    );

    for (i, tier) in tiers.tiers.iter().enumerate() {
        let mid_qty = (val(&tier.min_qty) + val(&tier.max_qty)) / 2.0;
        let name = tiers.get_tier_name(&num(mid_qty));
        assert!(
            name.contains(&format!("第{}档", i + 1)),
            "数量 {} 应该匹配第{}档，实际档位名: {}",
            mid_qty,
            i + 1,
            name
        );
    }
}

#[test]
fn test_empty_tiers_fallback() {
    let empty_tiers = PriceTiersConfig { tiers: vec![] };
    assert_eq!(val(&empty_tiers.get_price_multiplier(&num(100.0))), 1.0);
    assert_eq!(empty_tiers.get_tier_name(&num(100.0)), "默认档位");
}

#[test]
fn default_tiers_render_as_displayed() {
    let tiers = PriceTiersConfig::default();
    assert_eq!(tiers.get_tier_name(&num(50.0)), "第1档 (1~100)");
    assert_eq!(tiers.get_tier_name(&num(100.5)), format!("第4档 (2001~{})", f64::MAX));
    for t in &tiers.tiers {
        assert_eq!(t.min_qty.text, val(&t.min_qty).to_string());
        assert_eq!(t.max_qty.text, val(&t.max_qty).to_string());
        assert_eq!(t.unit_price.text, val(&t.unit_price).to_string());
        assert_eq!(t.unit_price.percent_text, format!("{:.1}", val(&t.unit_price) * 100.0));
        assert_eq!(t.max_qty.percent_text, format!("{:.1}", val(&t.max_qty) * 100.0));
    }
    assert_eq!(val(&tiers.get_price_multiplier(&num(100.5))), 0.7);
    assert_eq!(val(&tiers.get_price_multiplier(&num(f64::NAN))), 0.7);
    assert_eq!(val(&tiers.get_price_multiplier(&num(-3.0))), 0.7);
}

#[test]
fn tier_matches_includes_both_ends() {
    let t = PriceTier { min_qty: num(1.0), max_qty: num(100.0), unit_price: num(1.0) };
    assert!(t.matches(&num(1.0)));
    assert!(t.matches(&num(100.0)));
    assert!(!t.matches(&num(100.5)));
    assert!(!t.matches(&num(0.5)));
    assert!(!t.matches(&num(f64::NAN)));
}

#[test]
fn default_surcharge_rates() {
    let s = SurchargeConfig::default();
    assert_eq!(val(&s.processing_fee_rate), 0.15);
    assert_eq!(val(&s.packaging_fee_rate), 0.05);
    assert_eq!(val(&s.management_fee_rate), 0.08);
    assert_eq!(s.processing_fee_rate.text, "0.15");
    assert_eq!(s.management_fee_rate.percent_text, format!("{:.1}", 0.08f64 * 100.0));
}

#[test]
fn custom_tiers_take_precedence() {
    let mut calc = CostCalculator::new();
    calc.set_custom_price_tiers(
        "R001",
        vec![
            PriceTier { min_qty: num(1.0), max_qty: num(50.0), unit_price: num(1.0) },
            PriceTier { min_qty: num(51.0), max_qty: num(f64::MAX), unit_price: num(0.5) },
        ],
    );
    assert_eq!(val(&calc.get_price_multiplier_for("R001", &num(10.0))), 1.0);
    assert_eq!(val(&calc.get_price_multiplier_for("R001", &num(60.0))), 0.5);
    assert_eq!(val(&calc.get_price_multiplier_for("R001", &num(50.5))), 0.5);
    assert_eq!(calc.get_tier_name_for("R001", &num(50.5)), "自定义末档");
    assert_eq!(calc.get_tier_name_for("R001", &num(10.0)), "第1档 (1~50)");
    assert_eq!(val(&calc.get_price_multiplier_for("S001", &num(200.0))), 0.9);
    assert_eq!(calc.get_tier_name_for("S001", &num(200.0)), "第2档 (101~500)");
    calc.set_custom_price_tiers("R001", vec![]);
    assert_eq!(val(&calc.get_price_multiplier_for("R001", &num(10.0))), 1.0);
    assert_eq!(calc.get_tier_name_for("R001", &num(10.0)), "自定义末档");
}

#[test]
fn calculator_settings() {
    let calc = CostCalculator::new();
    assert_eq!(calc.price_tiers().tiers.len(), 4);
    assert_eq!(calc.surcharge_config().packaging_fee_rate.text, "0.05");
    let calc = calc
        .with_price_tiers(PriceTiersConfig { tiers: vec![] })
        .with_surcharge(SurchargeConfig {
            processing_fee_rate: num(0.1),
            packaging_fee_rate: num(0.0),
            management_fee_rate: num(0.0),
        });
    assert!(calc.price_tiers().tiers.is_empty());
    assert_eq!(calc.get_tier_name_for("X", &num(5.0)), "默认档位");
    assert_eq!(val(&calc.surcharge_config().processing_fee_rate), 0.1);
}

#[test]
fn surcharge_applies_to_products_only() {
    assert!(takes_surcharge(&BomType::FinishedProduct));
    assert!(takes_surcharge(&BomType::SemiFinished));
    assert!(!takes_surcharge(&BomType::RawMaterial));
    assert!(!takes_surcharge(&BomType::Virtual));
}
