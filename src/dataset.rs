//! Labeled datasets: loading rows of text fields, and splitting into folds.
use vstd::prelude::*;
use crate::decimal::{decimal_value, parse_decimal, SCALE};
use crate::features::FEATURE_COUNT;

verus! {

/// A field of a dataset row.
#[derive(Clone, Copy, Debug, PartialEq, Eq, Structural)]
pub enum Field {
    Target,
    Size,
    Floor,
    Latitude,
    Longitude,
    HasLift,
    PricePerArea,
    Rooms,
    Bathrooms,
    SwimmingPool,
    Garden,
    Garage,
}

/// Why a dataset could not be loaded. Both are data-format errors.
#[derive(Clone, Copy, Debug, PartialEq, Eq, Structural)]
pub enum LoadError {
    /// The field of the row (counted from zero) is missing or not a number.
    DataFormat { row: usize, field: Field },
    /// The source holds no rows.
    NoRows,
}

/// Where each field stands in a row of the source.
#[derive(Clone, Copy, Debug, PartialEq, Eq, Structural)]
pub struct ColumnMap {
    pub target: usize,
    pub size: usize,
    pub floor: usize,
    pub latitude: usize,
    pub longitude: usize,
    pub has_lift: usize,
    pub price_per_area: usize,
    pub rooms: usize,
    pub bathrooms: usize,
    pub swimming_pool: usize,
    pub garden: usize,
    pub garage: usize,
}

impl ColumnMap {
    /// The layout of the listings file: code, price, size, floor, address,
    /// province, municipality, district, neighborhood, latitude, longitude,
    /// lift, price by area, rooms, bathrooms, pool, garden, garage, url.
    pub fn listing_columns() -> (r: ColumnMap)
        ensures
            r == (ColumnMap {
                target: 1,
                size: 2,
                floor: 3,
                latitude: 9,
                longitude: 10,
                has_lift: 11,
                price_per_area: 12,
                rooms: 13,
                bathrooms: 14,
                swimming_pool: 15,
                garden: 16,
                garage: 17,
            }),
    {
        ColumnMap {
            target: 1,
            size: 2,
            floor: 3,
            latitude: 9,
            longitude: 10,
            has_lift: 11,
            price_per_area: 12,
            rooms: 13,
            bathrooms: 14,
            swimming_pool: 15,
            garden: 16,
            garage: 17,
        }
    }
}

/// What `str::trim` gives for a text.
pub uninterp spec fn trimmed(s: Seq<char>) -> Seq<char>;

/// Relies on `str::trim`: the text without leading and trailing whitespace.
#[verifier::external_body]
fn trim_text(s: &str) -> (r: &str)
    ensures
        r@ == trimmed(s@),
{
    s.trim()
}

pub open spec fn true_text() -> Seq<char> {
    seq!['t', 'r', 'u', 'e']
}

/// The text of a row's cell, when the row has that column.
pub open spec fn cell(row: Seq<String>, col: usize) -> Option<Seq<char>> {
    if col < row.len() {
        Some(row[col as int]@)
    } else {
        None
    }
}

/// The number a cell holds, in millionths.
pub open spec fn cell_number(row: Seq<String>, col: usize) -> Option<int> {
    match cell(row, col) {
        Some(t) => decimal_value(t),
        None => None,
    }
}

/// A cell's number, or zero where it has none.
pub open spec fn number_or_zero(row: Seq<String>, col: usize) -> int {
    match cell_number(row, col) {
        Some(v) => v,
        None => 0,
    }
}

/// A flag cell: one unit where it reads `true` once trimmed, else zero.
pub open spec fn cell_flag(row: Seq<String>, col: usize) -> int {
    match cell(row, col) {
        Some(t) => if trimmed(t) == true_text() {
            SCALE as int
        } else {
            0
        },
        None => 0,
    }
}

/// The first required field, in reading order, that a row lacks.
pub open spec fn first_bad_field(row: Seq<String>, c: ColumnMap) -> Option<Field> {
    if cell_number(row, c.target) is None {
        Some(Field::Target)
    } else if cell_number(row, c.size) is None {
        Some(Field::Size)
    } else if cell_number(row, c.latitude) is None {
        Some(Field::Latitude)
    } else if cell_number(row, c.longitude) is None {
        Some(Field::Longitude)
    } else if cell_number(row, c.price_per_area) is None {
        Some(Field::PricePerArea)
    } else if cell_number(row, c.rooms) is None {
        Some(Field::Rooms)
    } else if cell_number(row, c.bathrooms) is None {
        Some(Field::Bathrooms)
    } else {
        None
    }
}

/// The feature vector a row encodes, in millionths.
pub open spec fn row_features(row: Seq<String>, c: ColumnMap) -> Seq<int> {
    seq![
        number_or_zero(row, c.size),
        number_or_zero(row, c.floor),
        number_or_zero(row, c.latitude),
        number_or_zero(row, c.longitude),
        cell_flag(row, c.has_lift),
        number_or_zero(row, c.price_per_area),
        number_or_zero(row, c.rooms),
        number_or_zero(row, c.bathrooms),
        cell_flag(row, c.swimming_pool),
        cell_flag(row, c.garden),
        cell_flag(row, c.garage),
    ]
}

pub open spec fn row_target(row: Seq<String>, c: ColumnMap) -> int {
    number_or_zero(row, c.target)
}

pub open spec fn all_rows_good(rows: Seq<Vec<String>>, c: ColumnMap, upto: int) -> bool {
    forall|i: int| 0 <= i < upto ==> first_bad_field(#[trigger] rows[i]@, c) is None
}

/// The first row, counted from zero, that lacks a required field.
pub open spec fn first_bad_row(rows: Seq<Vec<String>>, c: ColumnMap, r: int) -> bool {
    0 <= r < rows.len() && all_rows_good(rows, c, r) && first_bad_field(rows[r]@, c) is Some
}

/// The starting sample of fold `f` when `n` samples are cut into `k` folds.
pub open spec fn fold_start(n: int, k: int, f: int) -> int {
    f * n / k
}

/// Samples held as parallel rows of features and targets, all in millionths.
pub struct Dataset {
    features: Vec<Vec<i64>>,
    targets: Vec<i64>,
}

impl Dataset {
    pub closed spec fn feature_rows(&self) -> Seq<Seq<i64>> {
        self.features@.map_values(|r: Vec<i64>| r@)
    }

    pub closed spec fn target_values(&self) -> Seq<i64> {
        self.targets@
    }

    /// Rows and targets pair up, and every row has the full feature width.
    pub open spec fn wf(&self) -> bool {
        &&& self.feature_rows().len() == self.target_values().len()
        &&& forall|i: int|
            0 <= i < self.feature_rows().len() ==> (#[trigger] self.feature_rows()[i]).len()
                == FEATURE_COUNT
    }

    #[verifier::type_invariant]
    spec fn inv(&self) -> bool {
        self.wf()
    }


    pub open spec fn len_spec(&self) -> nat {
        self.target_values().len()
    }

    /// Builds a dataset from rows of features and their targets; `None` where
    /// the counts differ or a row is not of the feature width.
    pub fn new(features: Vec<Vec<i64>>, targets: Vec<i64>) -> (r: Option<Dataset>)
        ensures
            r matches Some(d) ==> d.wf() && d.feature_rows() == features@.map_values(
                |v: Vec<i64>| v@,
            ) && d.target_values() == targets@,
            r is None ==> !(features@.len() == targets@.len() && forall|i: int|
                0 <= i < features@.len() ==> (#[trigger] features@[i])@.len() == FEATURE_COUNT),
    {
        if features.len() != targets.len() {
            return None;
        }
        let mut i: usize = 0;
        while i < features.len()
            invariant
                i <= features@.len(),
                forall|j: int| 0 <= j < i ==> (#[trigger] features@[j])@.len() == FEATURE_COUNT,
            decreases features@.len() - i,
        {
            if features[i].len() != FEATURE_COUNT {
                return None;
            }
            i = i + 1;
        }
        let d = Dataset { features, targets };
        assert forall|j: int| 0 <= j < d.feature_rows().len() implies (
        #[trigger] d.feature_rows()[j]).len() == FEATURE_COUNT by {
            assert(d.feature_rows()[j] == d.features@[j]@);
        }
        Some(d)
    }

    pub fn len(&self) -> (r: usize)
        ensures
            r == self.len_spec(),
    {
        self.targets.len()
    }

    /// The features of sample `i`.
    pub fn features_of(&self, i: usize) -> (r: &Vec<i64>)
        requires
            i < self.feature_rows().len(),
        ensures
            r@ == self.feature_rows()[i as int],
    {
        &self.features[i]
    }

    /// The target of sample `i`.
    pub fn target_of(&self, i: usize) -> (r: i64)
        requires
            i < self.target_values().len(),
        ensures
            r == self.target_values()[i as int],
    {
        self.targets[i]
    }

    /// Cuts the samples into `k` runs of consecutive samples and returns the
    /// samples outside run `f` (for training) and those in it (for validation),
    /// both in the order they had.
    pub fn split_fold(&self, k: usize, f: usize) -> (r: (Dataset, Dataset))
        requires
            0 < k,
            f < k,
        ensures
            ({
                let n = self.len_spec() as int;
                let s = fold_start(n, k as int, f as int);
                let e = fold_start(n, k as int, f + 1);
                &&& 0 <= s <= e <= n
                &&& r.0.wf() && r.1.wf()
                &&& r.1.feature_rows() == self.feature_rows().subrange(s, e)
                &&& r.1.target_values() == self.target_values().subrange(s, e)
                &&& r.0.feature_rows() == self.feature_rows().take(s) + self.feature_rows().skip(e)
                &&& r.0.target_values() == self.target_values().take(s) + self.target_values().skip(
                    e,
                )
            }),
    {
        proof {
            use_type_invariant(self);
        }
        let n = self.targets.len();
        let (s, e) = fold_bounds(n, k, f);
        let train = self.gather(0, s, e, n);
        let validation = self.gather(s, e, n, n);
        proof {
            assert(self.feature_rows().take(s as int) + self.feature_rows().subrange(e as int, n as int)
                =~= self.feature_rows().take(s as int) + self.feature_rows().skip(e as int));
            assert(self.target_values().subrange(0, s as int) + self.target_values().subrange(e as int, n as int)
                =~= self.target_values().take(s as int) + self.target_values().skip(e as int));
            assert(self.feature_rows().subrange(0, s as int) =~= self.feature_rows().take(s as int));
            assert(self.feature_rows().subrange(s as int, e as int) + self.feature_rows().subrange(n as int, n as int)
                =~= self.feature_rows().subrange(s as int, e as int));
            assert(self.target_values().subrange(s as int, e as int) + self.target_values().subrange(n as int, n as int)
                =~= self.target_values().subrange(s as int, e as int));
        }
        (train, validation)
    }

    /// The samples in `[a, b)` followed by those in `[c, d)`.
    fn gather(&self, a: usize, b: usize, c: usize, d: usize) -> (r: Dataset)
        requires
            a <= b <= c <= d <= self.len_spec(),
        ensures
            r.wf(),
            r.feature_rows() == self.feature_rows().subrange(a as int, b as int)
                + self.feature_rows().subrange(c as int, d as int),
            r.target_values() == self.target_values().subrange(a as int, b as int)
                + self.target_values().subrange(c as int, d as int),
    {
        proof {
            use_type_invariant(self);
        }
        let mut features: Vec<Vec<i64>> = Vec::new();
        let mut targets: Vec<i64> = Vec::new();
        let mut i: usize = a;
        while i < b
            invariant
                self.wf(),
                a <= i <= b <= self.len_spec(),
                features@.len() == targets@.len(),
                features@.map_values(|v: Vec<i64>| v@) =~= self.feature_rows().subrange(
                    a as int,
                    i as int,
                ),
                targets@ =~= self.target_values().subrange(a as int, i as int),
            decreases b - i,
        {
            features.push(copy_row(&self.features[i]));
            targets.push(self.targets[i]);
            i = i + 1;
        }
        let mut j: usize = c;
        while j < d
            invariant
                self.wf(),
                c <= j <= d <= self.len_spec(),
                features@.len() == targets@.len(),
                features@.map_values(|v: Vec<i64>| v@) =~= self.feature_rows().subrange(
                    a as int,
                    b as int,
                ) + self.feature_rows().subrange(c as int, j as int),
                targets@ =~= self.target_values().subrange(a as int, b as int)
                    + self.target_values().subrange(c as int, j as int),
            decreases d - j,
        {
            let ghost before = features@.map_values(|v: Vec<i64>| v@);
            features.push(copy_row(&self.features[j]));
            targets.push(self.targets[j]);
            proof {
                let fr = self.feature_rows();
                assert(fr[j as int] == self.features@[j as int]@);
                assert(features@.map_values(|v: Vec<i64>| v@) =~= before.push(fr[j as int]));
                assert(fr.subrange(c as int, j + 1) =~= fr.subrange(c as int, j as int).push(fr[j as int]));
                assert(fr.subrange(a as int, b as int) + fr.subrange(c as int, j + 1) =~= (fr.subrange(
                    a as int,
                    b as int,
                ) + fr.subrange(c as int, j as int)).push(fr[j as int]));
            }
            j = j + 1;
        }
        let r = Dataset { features, targets };
        assert forall|x: int| 0 <= x < r.feature_rows().len() implies (
        #[trigger] r.feature_rows()[x]).len() == FEATURE_COUNT by {
            if x < b - a {
                assert(r.feature_rows()[x] == self.feature_rows()[a + x]);
            } else {
                assert(r.feature_rows()[x] == self.feature_rows()[c + x - (b - a)]);
            }
        }
        r
    }
}

fn copy_row(v: &Vec<i64>) -> (r: Vec<i64>)
    ensures
        r@ == v@,
{
    let mut r: Vec<i64> = Vec::new();
    let mut i: usize = 0;
    while i < v.len()
        invariant
            i <= v@.len(),
            r@ =~= v@.take(i as int),
        decreases v@.len() - i,
    {
        r.push(v[i]);
        i = i + 1;
    }
    assert(v@.take(i as int) =~= v@);
    r
}

/// Where fold `f` of `k` starts and ends when `n` samples are cut into runs
/// of consecutive samples.
pub fn fold_bounds(n: usize, k: usize, f: usize) -> (r: (usize, usize))
    requires
        0 < k,
        f < k,
    ensures
        r.0 == fold_start(n as int, k as int, f as int),
        r.1 == fold_start(n as int, k as int, f + 1),
        r.0 <= r.1 <= n,
{
    proof {
        lemma_fold_start_ordered(n as int, k as int, f as int, f + 1);
        lemma_fold_start_ordered(n as int, k as int, f + 1, k as int);
        assert(f * n <= k * n) by (nonlinear_arith)
            requires f < k;
        vstd::arithmetic::div_mod::lemma_div_multiples_vanish(n as int, k as int);
        assert(k * n == n * k) by (nonlinear_arith);
        assert(f * n >= 0) by (nonlinear_arith);
        assert((f + 1) * n <= (u64::MAX as int) * (u64::MAX as int)) by (nonlinear_arith)
            requires
                0 <= f + 1 <= u64::MAX,
                0 <= n <= u64::MAX,
        ;
        assert(f * n <= (f + 1) * n) by (nonlinear_arith)
            requires
                0 <= n,
        ;
    }
    let s = ((f as u128) * (n as u128) / (k as u128)) as usize;
    let e = (((f + 1) as u128) * (n as u128) / (k as u128)) as usize;
    (s, e)
}

proof fn lemma_fold_start_ordered(n: int, k: int, f: int, g: int)
    requires
        0 < k,
        0 <= n,
        0 <= f <= g,
    ensures
        fold_start(n, k, f) <= fold_start(n, k, g),
        0 <= fold_start(n, k, f),
{
    assert(f * n <= g * n) by (nonlinear_arith)
        requires f <= g, 0 <= n;
    assert(0 <= f * n) by (nonlinear_arith)
        requires 0 <= f, 0 <= n;
    vstd::arithmetic::div_mod::lemma_div_is_ordered(f * n, g * n, k);
    vstd::arithmetic::div_mod::lemma_div_pos_is_pos(f * n, k);
}

/// Folds cut the samples into consecutive runs: the first starts at sample
/// zero, the last ends after the final sample, and each starts where the one
/// before it ends, so that every sample lies in exactly one fold.
pub proof fn lemma_folds_partition(n: int, k: int, f: int)
    requires
        0 < k,
        0 <= n,
        0 <= f < k,
    ensures
        fold_start(n, k, 0) == 0,
        fold_start(n, k, k) == n,
        fold_start(n, k, f) <= fold_start(n, k, f + 1),
{
    lemma_fold_start_ordered(n, k, f, f + 1);
    assert(0 * n == 0);
    assert(k * n == n * k) by (nonlinear_arith);
    vstd::arithmetic::div_mod::lemma_div_multiples_vanish(n, k);
}

/// Reads the number in a row's cell.
fn read_number(row: &Vec<String>, col: usize) -> (r: Option<i64>)
    ensures
        r matches Some(v) ==> cell_number(row@, col) == Some(v as int),
        r is None ==> cell_number(row@, col) is None,
{
    if col < row.len() {
        parse_decimal(row[col].as_str())
    } else {
        None
    }
}

/// Reads a flag cell.
fn read_flag(row: &Vec<String>, col: usize) -> (r: i64)
    ensures
        r == cell_flag(row@, col),
{
    if col < row.len() {
        let t = trim_text(row[col].as_str());
        if is_true_text(t) {
            SCALE
        } else {
            0
        }
    } else {
        0
    }
}

/// Whether the text is exactly `true`.
fn is_true_text(t: &str) -> (r: bool)
    ensures
        r == (t@ == true_text()),
{
    if !t.is_ascii() {
        proof {
            if t@ == true_text() {
                assert(vstd::utf8::is_ascii_chars(t@));
            }
        }
        return false;
    }
    let b = t.as_bytes();
    assert(b@.len() == t@.len());
    if b.len() != 4 {
        return false;
    }
    proof {
        assert forall|j: int| 0 <= j < 4 implies b@[j] as int == #[trigger] t@[j] as int by {
            assert('\0' <= t@[j] <= '\u{7f}');
            assert(b@[j] == t@[j] as u8);
        }
    }
    let r = b[0] == 116u8 && b[1] == 114u8 && b[2] == 117u8 && b[3] == 101u8;
    proof {
        if r {
            assert(t@ =~= true_text());
        }
    }
    r
}

/// Reads one row: its target and feature vector, or the first required
/// field it lacks.
fn read_row(row: &Vec<String>, c: &ColumnMap) -> (r: Result<(i64, Vec<i64>), Field>)
    ensures
        match r {
            Ok((t, v)) => first_bad_field(row@, *c) is None && t == row_target(row@, *c) && v@.len()
                == FEATURE_COUNT && forall|i: int|
                0 <= i < 11 ==> v@[i] as int == #[trigger] row_features(row@, *c)[i],
            Err(fld) => first_bad_field(row@, *c) == Some(fld),
        },
{
    let target = match read_number(row, c.target) {
        Some(v) => v,
        None => return Err(Field::Target),
    };
    let size = match read_number(row, c.size) {
        Some(v) => v,
        None => return Err(Field::Size),
    };
    let floor = match read_number(row, c.floor) {
        Some(v) => v,
        None => 0,
    };
    let latitude = match read_number(row, c.latitude) {
        Some(v) => v,
        None => return Err(Field::Latitude),
    };
    let longitude = match read_number(row, c.longitude) {
        Some(v) => v,
        None => return Err(Field::Longitude),
    };
    let has_lift = read_flag(row, c.has_lift);
    let price_per_area = match read_number(row, c.price_per_area) {
        Some(v) => v,
        None => return Err(Field::PricePerArea),
    };
    let rooms = match read_number(row, c.rooms) {
        Some(v) => v,
        None => return Err(Field::Rooms),
    };
    let bathrooms = match read_number(row, c.bathrooms) {
        Some(v) => v,
        None => return Err(Field::Bathrooms),
    };
    let pool = read_flag(row, c.swimming_pool);
    let garden = read_flag(row, c.garden);
    let garage = read_flag(row, c.garage);
    let v = vec![
        size,
        floor,
        latitude,
        longitude,
        has_lift,
        price_per_area,
        rooms,
        bathrooms,
        pool,
        garden,
        garage,
    ];
    Ok((target, v))
}

/// Loads a dataset from rows of text fields. Fails on the first row, in
/// order, that lacks a required field, naming the row and the field; an
/// unreadable floor counts as zero, and a flag is set only by `true`.
#[verifier::rlimit(40)]
pub fn load_rows(rows: &Vec<Vec<String>>, c: &ColumnMap) -> (r: Result<Dataset, LoadError>)
    ensures
        match r {
            Ok(d) => {
                &&& rows@.len() > 0
                &&& all_rows_good(rows@, *c, rows@.len() as int)
                &&& d.wf()
                &&& d.len_spec() == rows@.len()
                &&& forall|i: int|
                    0 <= i < rows@.len() ==> (#[trigger] d.target_values()[i]) as int
                        == row_target(rows@[i]@, *c)
                &&& forall|i: int, j: int|
                    0 <= i < rows@.len() && 0 <= j < 11 ==> (
                    #[trigger] d.feature_rows()[i][j]) as int == row_features(rows@[i]@, *c)[j]
            },
            Err(LoadError::NoRows) => rows@.len() == 0,
            Err(LoadError::DataFormat { row, field }) => first_bad_row(rows@, *c, row as int)
                && first_bad_field(rows@[row as int]@, *c) == Some(field),
        },
{
    if rows.len() == 0 {
        return Err(LoadError::NoRows);
    }
    let mut features: Vec<Vec<i64>> = Vec::new();
    let mut targets: Vec<i64> = Vec::new();
    let mut i: usize = 0;
    while i < rows.len()
        invariant
            i <= rows@.len(),
            features@.len() == i,
            targets@.len() == i,
            all_rows_good(rows@, *c, i as int),
            forall|x: int| 0 <= x < i ==> (#[trigger] features@[x])@.len() == FEATURE_COUNT,
            forall|x: int| 0 <= x < i ==> (#[trigger] targets@[x]) as int == row_target(rows@[x]@, *c),
            forall|x: int, j: int|
                0 <= x < i && 0 <= j < 11 ==> (#[trigger] features@[x]@[j]) as int == row_features(
                    rows@[x]@,
                    *c,
                )[j],
        decreases rows@.len() - i,
    {
        match read_row(&rows[i], c) {
            Ok((t, v)) => {
                features.push(v);
                targets.push(t);
            },
            Err(field) => {
                return Err(LoadError::DataFormat { row: i, field });
            },
        }
        i = i + 1;
    }
    match Dataset::new(features, targets) {
        Some(d) => {
            assert forall|x: int, j: int|
                0 <= x < rows@.len() && 0 <= j < 11 implies (#[trigger] d.feature_rows()[x][j]) as int
                == row_features(rows@[x]@, *c)[j] by {
                assert(d.feature_rows()[x] == features@[x]@);
            }
            Ok(d)
        },
        None => {
            assert(false);
            Err(LoadError::NoRows)
        },
    }
}

} // verus!
