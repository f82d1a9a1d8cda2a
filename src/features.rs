//! Properties and their fixed-order feature vectors.
use vstd::prelude::*;
use crate::decimal::SCALE;

verus! {

/// Length of every feature vector.
pub const FEATURE_COUNT: usize = 11;

/// A residential property. Quantities that carry fractions (size, price,
/// coordinates, price per area) are held in millionths.
pub struct Property {
    pub property_code: String,
    pub price_eur: i64,
    pub size_sqm: i64,
    pub floor: Option<u32>,
    pub address: String,
    pub province: String,
    pub municipality: String,
    pub district: String,
    pub neighborhood: String,
    pub latitude: i64,
    pub longitude: i64,
    pub has_lift: bool,
    pub price_per_sqm: i64,
    pub rooms: u32,
    pub bathrooms: u32,
    pub swimming_pool: bool,
    pub garden: bool,
    pub garage: bool,
    pub url: String,
}

/// A flag as a feature: one unit when set, zero otherwise.
pub open spec fn flag_feature(b: bool) -> int {
    if b {
        SCALE as int
    } else {
        0
    }
}

/// The feature vector of a property, in millionths: size, floor, latitude,
/// longitude, lift, price per area, rooms, bathrooms, pool, garden, garage.
pub open spec fn feature_vector(p: Property) -> Seq<int> {
    seq![
        p.size_sqm as int,
        (match p.floor {
            Some(f) => f as int,
            None => 0,
        }) * SCALE,
        p.latitude as int,
        p.longitude as int,
        flag_feature(p.has_lift),
        p.price_per_sqm as int,
        p.rooms * SCALE,
        p.bathrooms * SCALE,
        flag_feature(p.swimming_pool),
        flag_feature(p.garden),
        flag_feature(p.garage),
    ]
}

/// The feature vector as the words a model reads.
pub open spec fn feature_words(p: Property) -> Seq<i64> {
    Seq::new(11, |i: int| feature_vector(p)[i] as i64)
}

/// The numeric fields that a feature vector carries, read back by position:
/// size, floor, latitude, longitude, price per area, rooms, bathrooms.
pub open spec fn numeric_fields_at(v: Seq<int>) -> (int, int, int, int, int, int, int) {
    (v[0], v[1] / SCALE as int, v[2], v[3], v[5], v[6] / SCALE as int, v[7] / SCALE as int)
}

/// The numeric fields of a property, an absent floor counting as zero.
pub open spec fn numeric_fields(p: Property) -> (int, int, int, int, int, int, int) {
    (
        p.size_sqm as int,
        match p.floor {
            Some(f) => f as int,
            None => 0,
        },
        p.latitude as int,
        p.longitude as int,
        p.price_per_sqm as int,
        p.rooms as int,
        p.bathrooms as int,
    )
}

pub fn flag_value(b: bool) -> (r: i64)
    ensures
        r == flag_feature(b),
{
    if b {
        SCALE
    } else {
        0
    }
}

impl Property {
    /// The property's feature vector, in the order every model expects.
    pub fn to_feature_vector(&self) -> (r: Vec<i64>)
        ensures
            r@.len() == FEATURE_COUNT,
            forall|i: int| 0 <= i < 11 ==> r@[i] as int == #[trigger] feature_vector(*self)[i],
            r@ == feature_words(*self),
    {
        let floor: i64 = match self.floor {
            Some(f) => f as i64,
            None => 0,
        };
        let v = vec![
            self.size_sqm,
            floor * SCALE,
            self.latitude,
            self.longitude,
            flag_value(self.has_lift),
            self.price_per_sqm,
            self.rooms as i64 * SCALE,
            self.bathrooms as i64 * SCALE,
            flag_value(self.swimming_pool),
            flag_value(self.garden),
            flag_value(self.garage),
        ];
        assert(v@ =~= feature_words(*self));
        v
    }
}

/// Encoding a property and reading the vector back by position gives its
/// numeric fields unchanged; each flag comes back as one unit or zero.
pub proof fn lemma_encode_decode_numeric(p: Property)
    ensures
        numeric_fields_at(feature_vector(p)) == numeric_fields(p),
        feature_vector(p)[4] == flag_feature(p.has_lift),
        feature_vector(p)[8] == flag_feature(p.swimming_pool),
        feature_vector(p)[9] == flag_feature(p.garden),
        feature_vector(p)[10] == flag_feature(p.garage),
{
    let v = feature_vector(p);
    let f: int = match p.floor {
        Some(x) => x as int,
        None => 0,
    };
    assert((f * SCALE) / (SCALE as int) == f) by (nonlinear_arith);
    assert((p.rooms * SCALE) / (SCALE as int) == p.rooms as int) by (nonlinear_arith);
    assert((p.bathrooms * SCALE) / (SCALE as int) == p.bathrooms as int) by (nonlinear_arith);
}

} // verus!
