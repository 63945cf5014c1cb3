//! Price tiers and surcharge settings of the cost calculation, and the
//! choice of the price tier for a quantity.
use vstd::prelude::*;
use crate::bom::BomType;
use crate::number::{Number, bits_le};
use crate::text::{concat2, concat4, decimal, owned, str_equal, usize_text};

verus! {

/// A band of quantities and the price multiplier that applies in it.
#[derive(Debug)]
pub struct PriceTier {
    pub min_qty: Number,
    pub max_qty: Number,
    pub unit_price: Number,
}

/// The quantity lies in the band (both ends included).
pub open spec fn tier_matches(t: PriceTier, qty: Number) -> bool {
    bits_le(t.min_qty.bits, qty.bits) && bits_le(qty.bits, t.max_qty.bits)
}

impl PriceTier {
    /// Whether `qty` lies in this band (both ends included).
    pub fn matches(&self, qty: &Number) -> (r: bool)
        ensures
            r == tier_matches(*self, *qty),
    {
        self.min_qty.le(qty) && qty.le(&self.max_qty)
    }

    /// A copy of this tier.
    pub fn duplicate(&self) -> (r: PriceTier)
        ensures
            r == *self,
    {
        PriceTier {
            min_qty: self.min_qty.duplicate(),
            max_qty: self.max_qty.duplicate(),
            unit_price: self.unit_price.duplicate(),
        }
    }
}

impl Clone for PriceTier {
    fn clone(&self) -> (r: PriceTier)
        ensures
            r == *self,
    {
        self.duplicate()
    }
}

/// A copy of a list of tiers.
pub fn copy_tiers(v: &Vec<PriceTier>) -> (r: Vec<PriceTier>)
    ensures
        r@ == v@,
{
    let mut r: Vec<PriceTier> = Vec::new();
    let mut i: usize = 0;
    while i < v.len()
        invariant
            i <= v@.len(),
            r@ == v@.take(i as int),
        decreases v@.len() - i,
    {
        r.push(v[i].duplicate());
        proof {
            assert(r@ =~= v@.take(i + 1));
        }
        i = i + 1;
    }
    assert(v@.take(i as int) =~= v@);
    r
}

/// `i` is the first tier whose band holds `qty`.
pub open spec fn first_match(tiers: Seq<PriceTier>, qty: Number, i: int) -> bool {
    &&& 0 <= i < tiers.len()
    &&& tier_matches(tiers[i], qty)
    &&& forall|j: int| 0 <= j < i ==> !tier_matches(#[trigger] tiers[j], qty)
}

/// Some tier's band holds `qty`.
pub open spec fn some_match(tiers: Seq<PriceTier>, qty: Number) -> bool {
    exists|i: int| 0 <= i < tiers.len() && tier_matches(#[trigger] tiers[i], qty)
}

/// The tier that applies to `qty`: the first whose band holds it, else the
/// last; none when there are no tiers.
pub open spec fn chosen_tier(tiers: Seq<PriceTier>, qty: Number) -> Option<int> {
    if some_match(tiers, qty) {
        Some(choose|i: int| first_match(tiers, qty, i))
    } else if tiers.len() > 0 {
        Some(tiers.len() - 1)
    } else {
        None
    }
}

/// The name of tier number `n` (counted from one) with its band.
pub open spec fn tier_label(n: nat, t: PriceTier) -> Seq<char> {
    "第"@ + decimal(n) + "档 ("@ + t.min_qty.text@ + "~"@ + t.max_qty.text@ + ")"@
}

/// The number is 1 (rendered "1").
pub open spec fn is_one(x: Number) -> bool {
    x.bits == 0x3ff0_0000_0000_0000u64 && x.text@ == "1"@ && x.percent_text@ == "100.0"@
}

proof fn lemma_first_match_unique(tiers: Seq<PriceTier>, qty: Number, i: int)
    requires
        first_match(tiers, qty, i),
    ensures
        chosen_tier(tiers, qty) == Some(i),
{
    assert(some_match(tiers, qty));
    let k = choose|k: int| first_match(tiers, qty, k);
    assert(first_match(tiers, qty, k));
    if k < i {
        assert(!tier_matches(tiers[k], qty));
    } else if i < k {
        assert(!tier_matches(tiers[i], qty));
    }
}

/// The tier used for `qty` is the first whose band holds it, or the last
/// when none does; it is the same tier for the multiplier and for the name.
pub proof fn lemma_chosen_tier(tiers: Seq<PriceTier>, qty: Number)
    ensures
        chosen_tier(tiers, qty) is Some <==> tiers.len() > 0,
        chosen_tier(tiers, qty) matches Some(k) ==> {
            &&& 0 <= k < tiers.len()
            &&& forall|j: int| 0 <= j < k ==> !tier_matches(#[trigger] tiers[j], qty)
            &&& tier_matches(tiers[k], qty) || (k == tiers.len() - 1 && !some_match(tiers, qty))
        },
{
    if some_match(tiers, qty) {
        let w = choose|w: int| 0 <= w < tiers.len() && tier_matches(#[trigger] tiers[w], qty);
        lemma_first_exists(tiers, qty, w);
    }
}

proof fn lemma_first_exists(tiers: Seq<PriceTier>, qty: Number, w: int)
    requires
        0 <= w < tiers.len(),
        tier_matches(tiers[w], qty),
    ensures
        exists|i: int| first_match(tiers, qty, i),
    decreases w,
{
    if exists|j: int| 0 <= j < w && tier_matches(#[trigger] tiers[j], qty) {
        let j = choose|j: int| 0 <= j < w && tier_matches(#[trigger] tiers[j], qty);
        lemma_first_exists(tiers, qty, j);
    } else {
        assert(first_match(tiers, qty, w));
    }
}

/// The position of the first tier whose band holds `qty`, if any.
fn find_tier(tiers: &Vec<PriceTier>, qty: &Number) -> (r: Option<usize>)
    ensures
        match r {
            Some(i) => first_match(tiers@, *qty, i as int) && chosen_tier(tiers@, *qty) == Some(i as int),
            None => !some_match(tiers@, *qty),
        },
{
    let mut i: usize = 0;
    while i < tiers.len()
        invariant
            i <= tiers@.len(),
            forall|j: int| 0 <= j < i ==> !tier_matches(#[trigger] tiers@[j], *qty),
        decreases tiers@.len() - i,
    {
        if tiers[i].matches(qty) {
            proof {
                lemma_first_match_unique(tiers@, *qty, i as int);
            }
            return Some(i);
        }
        i = i + 1;
    }
    None
}

/// The multiplier of the tier that applies to `qty` (see `chosen_tier`),
/// or 1 when there are no tiers.
fn multiplier_in(tiers: &Vec<PriceTier>, qty: &Number) -> (r: Number)
    ensures
        match chosen_tier(tiers@, *qty) {
            Some(k) => r == tiers@[k].unit_price,
            None => is_one(r),
        },
{
    match find_tier(tiers, qty) {
        Some(i) => tiers[i].unit_price.duplicate(),
        None => {
            if tiers.len() > 0 {
                tiers[tiers.len() - 1].unit_price.duplicate()
            } else {
                Number::new(0x3ff0_0000_0000_0000u64, owned("1"), owned("100.0"))
            }
        },
    }
}

/// The name of tier number `n` with its band.
fn label_of(n: usize, t: &PriceTier) -> (r: String)
    ensures
        r@ == tier_label(n as nat, *t),
{
    let head = concat4("第", usize_text(n).as_str(), "档 (", t.min_qty.text.as_str());
    concat4(head.as_str(), "~", t.max_qty.text.as_str(), ")")
}

/// The price tiers of the cost calculation.
#[derive(Debug)]
pub struct PriceTiersConfig {
    pub tiers: Vec<PriceTier>,
}

impl PriceTiersConfig {
    /// The multiplier of the tier that applies to `qty` (the first whose
    /// band holds it, else the last), or 1 when there are no tiers.
    pub fn get_price_multiplier(&self, qty: &Number) -> (r: Number)
        ensures
            match chosen_tier(self.tiers@, *qty) {
                Some(k) => r == self.tiers@[k].unit_price,
                None => is_one(r),
            },
    {
        multiplier_in(&self.tiers, qty)
    }

    /// The name of the tier that applies to `qty` (the first whose band
    /// holds it, else the last), or "默认档位" when there are no tiers.
    pub fn get_tier_name(&self, qty: &Number) -> (r: String)
        ensures
            match chosen_tier(self.tiers@, *qty) {
                Some(k) => r@ == tier_label((k + 1) as nat, self.tiers@[k]),
                None => r@ == "默认档位"@,
            },
    {
        let n = self.tiers.len();
        match find_tier(&self.tiers, qty) {
            Some(i) => label_of(i + 1, &self.tiers[i]),
            None => {
                if n > 0 {
                    label_of(n, &self.tiers[n - 1])
                } else {
                    owned("默认档位")
                }
            },
        }
    }

    /// A copy of this configuration.
    pub fn duplicate(&self) -> (r: PriceTiersConfig)
        ensures
            r.tiers@ == self.tiers@,
    {
        PriceTiersConfig { tiers: copy_tiers(&self.tiers) }
    }
}

/// A number from its bit pattern and renderings.
fn num(bits: u64, text: &str, percent_text: &str) -> (r: Number)
    ensures
        r.bits == bits,
        r.text@ == text@,
        r.percent_text@ == percent_text@,
{
    Number::new(bits, owned(text), owned(percent_text))
}

/// A tier from its band and multiplier.
fn tier(min_qty: Number, max_qty: Number, unit_price: Number) -> (r: PriceTier)
    ensures
        r == (PriceTier { min_qty, max_qty, unit_price }),
{
    PriceTier { min_qty, max_qty, unit_price }
}

/// The number has the given bit pattern and renderings.
pub open spec fn num_is(x: Number, bits: u64, text: Seq<char>, percent_text: Seq<char>) -> bool {
    x.bits == bits && x.text@ == text && x.percent_text@ == percent_text
}

/// The standard tiers: 1 to 100 at 1, 101 to 500 at 0.9, 501 to 2000 at
/// 0.8, and from 2001 to the largest `f64` at 0.7.
pub open spec fn standard_tiers(t: Seq<PriceTier>) -> bool {
    &&& t.len() == 4
    &&& num_is(t[0].min_qty, 0x3ff0_0000_0000_0000u64, "1"@, "100.0"@)
    &&& num_is(t[0].max_qty, 0x4059_0000_0000_0000u64, "100"@, "10000.0"@)
    &&& num_is(t[0].unit_price, 0x3ff0_0000_0000_0000u64, "1"@, "100.0"@)
    &&& num_is(t[1].min_qty, 0x4059_4000_0000_0000u64, "101"@, "10100.0"@)
    &&& num_is(t[1].max_qty, 0x407f_4000_0000_0000u64, "500"@, "50000.0"@)
    &&& num_is(t[1].unit_price, 0x3fec_cccc_cccc_cccdu64, "0.9"@, "90.0"@)
    &&& num_is(t[2].min_qty, 0x407f_5000_0000_0000u64, "501"@, "50100.0"@)
    &&& num_is(t[2].max_qty, 0x409f_4000_0000_0000u64, "2000"@, "200000.0"@)
    &&& num_is(t[2].unit_price, 0x3fe9_9999_9999_999au64, "0.8"@, "80.0"@)
    &&& num_is(t[3].min_qty, 0x409f_4400_0000_0000u64, "2001"@, "200100.0"@)
    &&& num_is(t[3].max_qty, 0x7fef_ffff_ffff_ffffu64, "179769313486231570000000000000000000000000000000000000000000000000000000000000000000000000000000000000000000000000000000000000000000000000000000000000000000000000000000000000000000000000000000000000000000000000000000000000000000000000000000000000000000000000000000000000000000000000000000000000000000000000000"@, "inf"@)
    &&& num_is(t[3].unit_price, 0x3fe6_6666_6666_6666u64, "0.7"@, "70.0"@)
}

/// The standard surcharge rates: processing 0.15, packaging 0.05,
/// management 0.08.
pub open spec fn standard_surcharge(s: SurchargeConfig) -> bool {
    &&& num_is(s.processing_fee_rate, 0x3fc3_3333_3333_3333u64, "0.15"@, "15.0"@)
    &&& num_is(s.packaging_fee_rate, 0x3fa9_9999_9999_999au64, "0.05"@, "5.0"@)
    &&& num_is(s.management_fee_rate, 0x3fb4_7ae1_47ae_147bu64, "0.08"@, "8.0"@)
}

impl Default for PriceTiersConfig {
    /// The standard tiers (see `standard_tiers`).
    fn default() -> (r: PriceTiersConfig)
        ensures
            standard_tiers(r.tiers@),
    {
        let mut tiers: Vec<PriceTier> = Vec::new();
        tiers.push(
            tier(
                num(0x3ff0_0000_0000_0000u64, "1", "100.0"),
                num(0x4059_0000_0000_0000u64, "100", "10000.0"),
                num(0x3ff0_0000_0000_0000u64, "1", "100.0"),
            ),
        );
        tiers.push(
            tier(
                num(0x4059_4000_0000_0000u64, "101", "10100.0"),
                num(0x407f_4000_0000_0000u64, "500", "50000.0"),
                num(0x3fec_cccc_cccc_cccdu64, "0.9", "90.0"),
            ),
        );
        tiers.push(
            tier(
                num(0x407f_5000_0000_0000u64, "501", "50100.0"),
                num(0x409f_4000_0000_0000u64, "2000", "200000.0"),
                num(0x3fe9_9999_9999_999au64, "0.8", "80.0"),
            ),
        );
        tiers.push(
            tier(
                num(0x409f_4400_0000_0000u64, "2001", "200100.0"),
                num(
                    0x7fef_ffff_ffff_ffffu64,
                    "179769313486231570000000000000000000000000000000000000000000000000000000000000000000000000000000000000000000000000000000000000000000000000000000000000000000000000000000000000000000000000000000000000000000000000000000000000000000000000000000000000000000000000000000000000000000000000000000000000000000000000000",
                    "inf",
                ),
                num(0x3fe6_6666_6666_6666u64, "0.7", "70.0"),
            ),
        );
        PriceTiersConfig { tiers }
    }
}

/// The rates of the fees added on top of the base cost of finished and
/// semi-finished products.
#[derive(Debug)]
pub struct SurchargeConfig {
    pub processing_fee_rate: Number,
    pub packaging_fee_rate: Number,
    pub management_fee_rate: Number,
}

impl SurchargeConfig {
    /// A copy of this configuration.
    pub fn duplicate(&self) -> (r: SurchargeConfig)
        ensures
            r == *self,
    {
        SurchargeConfig {
            processing_fee_rate: self.processing_fee_rate.duplicate(),
            packaging_fee_rate: self.packaging_fee_rate.duplicate(),
            management_fee_rate: self.management_fee_rate.duplicate(),
        }
    }
}

impl Default for SurchargeConfig {
    /// The standard rates (see `standard_surcharge`).
    fn default() -> (r: SurchargeConfig)
        ensures
            standard_surcharge(r),
    {
        SurchargeConfig {
            processing_fee_rate: num(0x3fc3_3333_3333_3333u64, "0.15", "15.0"),
            packaging_fee_rate: num(0x3fa9_9999_9999_999au64, "0.05", "5.0"),
            management_fee_rate: num(0x3fb4_7ae1_47ae_147bu64, "0.08", "8.0"),
        }
    }
}

/// The custom tiers of a material number.
pub struct CustomTiers {
    pub material_no: String,
    pub tiers: Vec<PriceTier>,
}

/// The custom tiers by material number (a later setting wins).
pub open spec fn custom_map(es: Seq<CustomTiers>) -> Map<Seq<char>, Seq<PriceTier>>
    decreases es.len(),
{
    if es.len() == 0 {
        Map::empty()
    } else {
        custom_map(es.drop_last()).insert(es.last().material_no@, es.last().tiers@)
    }
}

proof fn lemma_custom_map(es: Seq<CustomTiers>, k: Seq<char>, j: int)
    requires
        -1 <= j < es.len(),
        forall|l: int| j < l < es.len() ==> (#[trigger] es[l]).material_no@ != k,
        j >= 0 ==> es[j].material_no@ == k,
    ensures
        j >= 0 ==> custom_map(es).contains_key(k) && custom_map(es)[k] == es[j].tiers@,
        j < 0 ==> !custom_map(es).contains_key(k),
    decreases es.len(),
{
    if es.len() > 0 {
        let init = es.drop_last();
        if j < es.len() - 1 {
            assert forall|l: int| j < l < init.len() implies (#[trigger] init[l]).material_no@ != k by {
                assert(init[l] == es[l]);
            }
            lemma_custom_map(init, k, j);
            if j >= 0 {
                assert(init[j] == es[j]);
            }
        }
    }
}

/// The configuration of the cost calculation: the price tiers, the
/// surcharge rates, and the tiers set for single materials.
pub struct CostCalculator {
    price_tiers: PriceTiersConfig,
    surcharge: SurchargeConfig,
    custom_prices: Vec<CustomTiers>,
}

impl CostCalculator {
    /// The price tiers.
    pub closed spec fn tiers_spec(&self) -> Seq<PriceTier> {
        self.price_tiers.tiers@
    }

    /// The surcharge rates.
    pub closed spec fn surcharge_spec(&self) -> SurchargeConfig {
        self.surcharge
    }

    /// The tiers set for single materials, by material number.
    pub closed spec fn custom_spec(&self) -> Map<Seq<char>, Seq<PriceTier>> {
        custom_map(self.custom_prices@)
    }

    /// A calculator with the standard tiers and rates and no custom tiers.
    pub fn new() -> (r: CostCalculator)
        ensures
            r.custom_spec() == Map::<Seq<char>, Seq<PriceTier>>::empty(),
            standard_tiers(r.tiers_spec()),
            standard_surcharge(r.surcharge_spec()),
    {
        let r = CostCalculator {
            price_tiers: PriceTiersConfig::default(),
            surcharge: SurchargeConfig::default(),
            custom_prices: Vec::new(),
        };
        proof {
            assert(custom_map(r.custom_prices@) =~= Map::<Seq<char>, Seq<PriceTier>>::empty());
        }
        r
    }

    /// The price tiers.
    pub fn price_tiers(&self) -> (r: &PriceTiersConfig)
        ensures
            r.tiers@ == self.tiers_spec(),
    {
        &self.price_tiers
    }

    /// The surcharge rates.
    pub fn surcharge_config(&self) -> (r: &SurchargeConfig)
        ensures
            *r == self.surcharge_spec(),
    {
        &self.surcharge
    }

    /// This calculator with other price tiers.
    pub fn with_price_tiers(self, tiers: PriceTiersConfig) -> (r: CostCalculator)
        ensures
            r.tiers_spec() == tiers.tiers@,
            r.surcharge_spec() == self.surcharge_spec(),
            r.custom_spec() == self.custom_spec(),
    {
        let mut c = self;
        c.price_tiers = tiers;
        c
    }

    /// This calculator with other surcharge rates.
    pub fn with_surcharge(self, surcharge: SurchargeConfig) -> (r: CostCalculator)
        ensures
            r.surcharge_spec() == surcharge,
            r.tiers_spec() == self.tiers_spec(),
            r.custom_spec() == self.custom_spec(),
    {
        let mut c = self;
        c.surcharge = surcharge;
        c
    }

    /// Sets the tiers of one material number, replacing those set before.
    pub fn set_custom_price_tiers(&mut self, material_no: &str, tiers: Vec<PriceTier>)
        ensures
            final(self).custom_spec() == old(self).custom_spec().insert(material_no@, tiers@),
            final(self).tiers_spec() == old(self).tiers_spec(),
            final(self).surcharge_spec() == old(self).surcharge_spec(),
    {
        let ghost before = self.custom_prices@;
        let ghost t = tiers@;
        self.custom_prices.push(CustomTiers { material_no: owned(material_no), tiers });
        proof {
            assert(self.custom_prices@.drop_last() =~= before);
        }
    }

    /// The position of the last custom setting for `material_no`, if any.
    fn custom_position(&self, material_no: &str) -> (r: Option<usize>)
        ensures
            match r {
                Some(j) => self.custom_spec().contains_key(material_no@) && self.custom_spec()[material_no@]
                    == self.custom_prices@[j as int].tiers@ && j < self.custom_prices@.len(),
                None => !self.custom_spec().contains_key(material_no@),
            },
    {
        let mut i: usize = self.custom_prices.len();
        while i > 0
            invariant
                i <= self.custom_prices@.len(),
                forall|l: int| i <= l < self.custom_prices@.len() ==> (#[trigger] self.custom_prices@[l]).material_no@
                    != material_no@,
            decreases i,
        {
            i = i - 1;
            if str_equal(self.custom_prices[i].material_no.as_str(), material_no) {
                proof {
                    lemma_custom_map(self.custom_prices@, material_no@, i as int);
                }
                return Some(i);
            }
        }
        proof {
            lemma_custom_map(self.custom_prices@, material_no@, -1);
        }
        None
    }

    /// The multiplier for `material_no` at `qty`: from its custom tiers when
    /// it has some (the first whose band holds `qty`, else the last, else
    /// 1), otherwise from the price tiers.
    pub fn get_price_multiplier_for(&self, material_no: &str, qty: &Number) -> (r: Number)
        ensures
            ({
                let tiers = if self.custom_spec().contains_key(material_no@) {
                    self.custom_spec()[material_no@]
                } else {
                    self.tiers_spec()
                };
                match chosen_tier(tiers, *qty) {
                    Some(k) => r == tiers[k].unit_price,
                    None => is_one(r),
                }
            }),
    {
        match self.custom_position(material_no) {
            Some(j) => multiplier_in(&self.custom_prices[j].tiers, qty),
            None => self.price_tiers.get_price_multiplier(qty),
        }
    }

    /// The tier name for `material_no` at `qty`: from its custom tiers when
    /// it has some (the first whose band holds `qty`, else "自定义末档"),
    /// otherwise from the price tiers.
    pub fn get_tier_name_for(&self, material_no: &str, qty: &Number) -> (r: String)
        ensures
            self.custom_spec().contains_key(material_no@) ==> {
                let tiers = self.custom_spec()[material_no@];
                if some_match(tiers, *qty) {
                    let k = choose|i: int| first_match(tiers, *qty, i);
                    r@ == tier_label((k + 1) as nat, tiers[k])
                } else {
                    r@ == "自定义末档"@
                }
            },
            !self.custom_spec().contains_key(material_no@) ==> match chosen_tier(self.tiers_spec(), *qty) {
                Some(k) => r@ == tier_label((k + 1) as nat, self.tiers_spec()[k]),
                None => r@ == "默认档位"@,
            },
    {
        match self.custom_position(material_no) {
            Some(j) => {
                let tiers = &self.custom_prices[j].tiers;
                let n = tiers.len();
                match find_tier(tiers, qty) {
                    Some(i) => label_of(i + 1, &tiers[i]),
                    None => owned("自定义末档"),
                }
            },
            None => self.price_tiers.get_tier_name(qty),
        }
    }
}

impl Default for CostCalculator {
    fn default() -> (r: CostCalculator)
        ensures
            r.custom_spec() == Map::<Seq<char>, Seq<PriceTier>>::empty(),
            standard_tiers(r.tiers_spec()),
            standard_surcharge(r.surcharge_spec()),
    {
        CostCalculator::new()
    }
}


/// Finished and semi-finished products take the surcharges; raw materials
/// and virtual parts do not.
pub fn takes_surcharge(bom_type: &BomType) -> (r: bool)
    ensures
        r == (*bom_type == BomType::SemiFinished || *bom_type == BomType::FinishedProduct),
{
    matches!(bom_type, BomType::SemiFinished | BomType::FinishedProduct)
}

} // verus!
