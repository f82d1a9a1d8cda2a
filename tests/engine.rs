use cervo::dataset::{fold_bounds, load_rows, ColumnMap, Dataset, Field, LoadError};
use cervo::decimal::parse_decimal;
use cervo::features::Property;
use cervo::locations::{best_location_id, best_match, Suggestion, SuggestionsResponse};
use cervo::model::{model_from_stored, Cervo, PredictError, StoreError, TrainedModel};
use cervo::selection::{
    best_candidate, candidate_grid, check_fold_count, default_l1_ratios, default_penalties,
    mean_score, select_from_fold_scores, Candidate, Search, SelectError, Step,
};

fn listing_row(lat: &str, floor: &str, lift: &str) -> Vec<String> {
    vec![
        "code1", "250000", "80.5", floor, "Calle", "Madrid", "Madrid", "Centro", "Sol", lat,
        "-3.7038", lift, "3105.59", "3", "2", "false", "true", "false", "http://x",
    ]
    .into_iter()
    .map(|s| s.to_string())
    .collect()
}

fn property() -> Property {
    Property {
        property_code: String::new(),
        price_eur: 0,
        size_sqm: 80_500_000,
        floor: Some(4),
        address: String::new(),
        province: String::new(),
        municipality: String::new(),
        district: String::new(),
        neighborhood: String::new(),
        latitude: 40_416_800,
        longitude: -3_703_800,
        has_lift: true,
        price_per_sqm: 3_105_590_000,
        rooms: 3,
        bathrooms: 2,
        swimming_pool: false,
        garden: true,
        garage: false,
        url: String::new(),
    }
}

#[test]
fn parse_decimal_forms() {
    assert_eq!(parse_decimal("40.4168"), Some(40_416_800));
    assert_eq!(parse_decimal("-3.7038"), Some(-3_703_800));
    assert_eq!(parse_decimal("+2"), Some(2_000_000));
    assert_eq!(parse_decimal(".5"), Some(500_000));
    assert_eq!(parse_decimal("7."), Some(7_000_000));
    assert_eq!(parse_decimal("1.2345678"), Some(1_234_567));
    assert_eq!(parse_decimal("0"), Some(0));
}

#[test]
fn parse_decimal_rejects() {
    assert_eq!(parse_decimal(""), None);
    assert_eq!(parse_decimal("."), None);
    assert_eq!(parse_decimal("-"), None);
    assert_eq!(parse_decimal("abc"), None);
    assert_eq!(parse_decimal("1e5"), None);
    assert_eq!(parse_decimal("N/A"), None);
    assert_eq!(parse_decimal(" 1"), None);
    assert_eq!(parse_decimal("1.2.3"), None);
    assert_eq!(parse_decimal("4é"), None);
}

#[test]
fn parse_decimal_limits() {
    assert_eq!(parse_decimal("9223372036854.775807"), Some(i64::MAX));
    assert_eq!(parse_decimal("9223372036854.775808"), None);
    assert_eq!(parse_decimal("-9223372036854.775808"), Some(i64::MIN));
    assert_eq!(parse_decimal("99999999999999999999"), None);
}

#[test]
fn encode_then_decode_by_position() {
    let p = property();
    let v = p.to_feature_vector();
    assert_eq!(v.len(), 11);
    assert_eq!(v[0], p.size_sqm);
    assert_eq!(v[1] / 1_000_000, 4);
    assert_eq!(v[2], p.latitude);
    assert_eq!(v[3], p.longitude);
    assert_eq!(v[4], 1_000_000);
    assert_eq!(v[5], p.price_per_sqm);
    assert_eq!(v[6] / 1_000_000, 3);
    assert_eq!(v[7] / 1_000_000, 2);
    assert_eq!(&v[8..], &[0, 1_000_000, 0]);
}

#[test]
fn absent_floor_encodes_zero() {
    let mut p = property();
    p.floor = None;
    assert_eq!(p.to_feature_vector()[1], 0);
}

#[test]
fn load_good_rows() {
    let rows = vec![listing_row("40.4168", "4", "true"), listing_row("41.3874", "1", " true ")];
    let d = load_rows(&rows, &ColumnMap::listing_columns()).unwrap();
    assert_eq!(d.len(), 2);
    assert_eq!(d.target_of(0), 250_000_000_000);
    assert_eq!(
        d.features_of(0),
        &vec![
            80_500_000, 4_000_000, 40_416_800, -3_703_800, 1_000_000, 3_105_590_000, 3_000_000,
            2_000_000, 0, 1_000_000, 0
        ]
    );
    // the flag is read after trimming
    assert_eq!(d.features_of(1)[4], 1_000_000);
    assert_eq!(d.features_of(1)[2], 41_387_400);
}

#[test]
fn load_fails_on_bad_latitude() {
    let rows = vec![listing_row("40.4168", "4", "true"), listing_row("north", "4", "true")];
    let r = load_rows(&rows, &ColumnMap::listing_columns());
    assert!(matches!(r, Err(LoadError::DataFormat { row: 1, field: Field::Latitude })));
}

#[test]
fn load_defaults_missing_floor() {
    let rows = vec![listing_row("40.4168", "N/A", "True")];
    let d = load_rows(&rows, &ColumnMap::listing_columns()).unwrap();
    assert_eq!(d.features_of(0)[1], 0);
    // only the exact text `true` sets a flag
    assert_eq!(d.features_of(0)[4], 0);
}

#[test]
fn load_rejects_empty_and_short_rows() {
    let none: Vec<Vec<String>> = Vec::new();
    assert!(matches!(load_rows(&none, &ColumnMap::listing_columns()), Err(LoadError::NoRows)));
    let short = vec![vec!["code".to_string()]];
    assert!(matches!(
        load_rows(&short, &ColumnMap::listing_columns()),
        Err(LoadError::DataFormat { row: 0, field: Field::Target })
    ));
}

fn small_dataset(n: usize) -> Dataset {
    let features: Vec<Vec<i64>> = (0..n).map(|i| vec![i as i64; 11]).collect();
    let targets: Vec<i64> = (0..n).map(|i| 10 * i as i64).collect();
    Dataset::new(features, targets).unwrap()
}

#[test]
fn dataset_new_checks_shape() {
    assert!(Dataset::new(vec![vec![0; 11]], vec![]).is_none());
    assert!(Dataset::new(vec![vec![0; 10]], vec![1]).is_none());
}

#[test]
fn folds_are_consecutive_runs() {
    assert_eq!(fold_bounds(10, 3, 0), (0, 3));
    assert_eq!(fold_bounds(10, 3, 1), (3, 6));
    assert_eq!(fold_bounds(10, 3, 2), (6, 10));
    let d = small_dataset(10);
    let (train, validation) = d.split_fold(3, 1);
    assert_eq!(validation.len(), 3);
    assert_eq!(train.len(), 7);
    assert_eq!(validation.target_of(0), 30);
    assert_eq!(train.target_of(3), 60);
}

#[test]
fn too_many_folds_is_configuration_error() {
    assert_eq!(check_fold_count(20, 21), Err(SelectError::Configuration));
    assert_eq!(check_fold_count(20, 5), Ok(()));
    assert_eq!(check_fold_count(20, 1), Err(SelectError::Configuration));
}

#[test]
fn single_sample_cannot_be_cross_validated() {
    for k in 0..4 {
        assert_eq!(check_fold_count(1, k), Err(SelectError::Configuration));
    }
}

#[test]
fn grid_order_is_penalty_major() {
    let g = candidate_grid(&vec![10_000, 50_000], &vec![0, 1_000_000]).unwrap();
    assert_eq!(
        g,
        vec![
            Candidate { penalty: 10_000, l1_ratio: 0 },
            Candidate { penalty: 10_000, l1_ratio: 1_000_000 },
            Candidate { penalty: 50_000, l1_ratio: 0 },
            Candidate { penalty: 50_000, l1_ratio: 1_000_000 },
        ]
    );
    assert_eq!(candidate_grid(&vec![-1], &vec![0]), Err(SelectError::Configuration));
    assert_eq!(candidate_grid(&vec![1], &vec![1_000_001]), Err(SelectError::Configuration));
}

#[test]
fn mean_skips_failed_folds() {
    assert_eq!(mean_score(&vec![Some(1), None, Some(2)]), Some(1));
    assert_eq!(mean_score(&vec![Some(-1), Some(-2)]), Some(-2));
    assert_eq!(mean_score(&vec![None, None]), None);
    assert_eq!(mean_score(&vec![Some(i64::MAX), Some(i64::MAX)]), Some(i64::MAX));
}

#[test]
fn best_candidate_first_wins_ties() {
    assert_eq!(best_candidate(&vec![Some(5), None, Some(9), Some(9)]), Ok(2));
    assert_eq!(best_candidate(&vec![None, None]), Err(SelectError::NoViableModel));
    assert_eq!(best_candidate(&vec![]), Err(SelectError::NoViableModel));
}

#[test]
fn selection_is_deterministic() {
    let table = vec![
        vec![Some(900_000), Some(800_000), None, Some(850_000), Some(950_000)],
        vec![Some(910_000), None, None, None, Some(700_000)],
        vec![None, None, None, None, None],
        vec![Some(875_000); 5],
    ];
    let (means1, best1) = select_from_fold_scores(&table);
    let (means2, best2) = select_from_fold_scores(&table);
    assert_eq!(means1, means2);
    assert_eq!(best1, best2);
    assert_eq!(means1, vec![Some(875_000), Some(805_000), None, Some(875_000)]);
    assert_eq!(best1, Ok(0));
}

#[test]
fn no_viable_candidate() {
    let table = vec![vec![None, None], vec![None]];
    assert_eq!(select_from_fold_scores(&table).1, Err(SelectError::NoViableModel));
}

fn linear_model() -> TrainedModel {
    // price = 100 x size + 5 x rooms
    let mut c = vec![0i64; 11];
    c[0] = 100_000_000;
    c[6] = 5_000_000;
    TrainedModel::new(c, 0).unwrap()
}

#[test]
fn predict_linear_form() {
    let m = linear_model();
    let mut x = vec![0i64; 11];
    x[0] = 50_000_000;
    x[6] = 3_000_000;
    assert_eq!(m.predict(&x), Ok(5_015_000_000));
    let with_intercept = TrainedModel::new(m.coefficients().clone(), 7_000_000).unwrap();
    assert_eq!(with_intercept.predict(&x), Ok(5_022_000_000));
}

#[test]
fn predict_rounds_each_term_down() {
    let m = TrainedModel::new(vec![1, -1], 0).unwrap();
    assert_eq!(m.predict(&vec![1, 1]), Ok(-1));
}

#[test]
fn predict_width_mismatch() {
    let m = linear_model();
    assert_eq!(m.predict(&vec![1, 2, 3]), Err(PredictError::Configuration));
}

#[test]
fn predict_price_of_property() {
    let c = Cervo::from_model(linear_model());
    let p = property();
    // 100 x 80.5 + 5 x 3
    assert_eq!(c.predict_price(&p), Ok(8_065_000_000));
    let narrow = Cervo::from_model(TrainedModel::new(vec![1; 12], 0).unwrap());
    assert_eq!(narrow.predict_price(&p), Err(PredictError::Configuration));
}

#[test]
fn model_too_wide() {
    assert!(TrainedModel::new(vec![0; 4097], 0).is_none());
}

#[test]
fn save_then_load_predicts_the_same() {
    let mut c = vec![0i64; 11];
    for (i, v) in c.iter_mut().enumerate() {
        *v = (i as i64 - 5) * 123_456_789;
    }
    let m = TrainedModel::new(c, -987_654_321).unwrap();
    let bytes = m.to_bytes();
    assert_eq!(bytes.len(), 16 + 8 * 11);
    assert_eq!(&bytes[..4], b"CRV1");
    let back = model_from_stored(Some(bytes)).unwrap();
    assert_eq!(back.coefficients(), m.coefficients());
    assert_eq!(back.intercept(), m.intercept());
    let xs = vec![vec![1_000_000i64; 11], vec![-3_000_000i64; 11], (0..11).map(|i| i * 777).collect()];
    for x in &xs {
        assert_eq!(back.predict(x), m.predict(x));
    }
}

#[test]
fn model_bytes_layout() {
    let m = TrainedModel::new(vec![-1], 1).unwrap();
    assert_eq!(
        m.to_bytes(),
        vec![67, 82, 86, 49, 1, 0, 0, 0, 1, 0, 0, 0, 0, 0, 0, 0, 255, 255, 255, 255, 255, 255, 255, 255]
    );
}

#[test]
fn missing_model_is_not_found() {
    assert!(matches!(model_from_stored(None), Err(StoreError::ModelNotFound)));
}

#[test]
fn corrupt_model_is_reported() {
    assert!(matches!(model_from_stored(Some(vec![1, 2, 3])), Err(StoreError::ModelCorrupt)));
    let mut bytes = linear_model().to_bytes();
    bytes.pop();
    assert!(matches!(model_from_stored(Some(bytes)), Err(StoreError::ModelCorrupt)));
    let mut bad_magic = linear_model().to_bytes();
    bad_magic[0] = b'X';
    assert!(matches!(model_from_stored(Some(bad_magic)), Err(StoreError::ModelCorrupt)));
}

fn suggestion(id: Option<&str>, total: u32) -> Suggestion {
    Suggestion { name: "x".to_string(), locationId: id.map(|s| s.to_string()), total }
}

#[test]
fn best_location_is_last_of_largest() {
    let resp = SuggestionsResponse {
        locations: vec![suggestion(Some("a"), 3), suggestion(Some("b"), 7), suggestion(Some("c"), 7), suggestion(Some("d"), 1)],
    };
    assert_eq!(best_match(&resp), Some(2));
    assert_eq!(best_location_id(&resp), Some("c".to_string()));
    let none = SuggestionsResponse { locations: vec![suggestion(None, 9), suggestion(Some("z"), 1)] };
    assert_eq!(best_location_id(&none), None);
    let empty = SuggestionsResponse { locations: vec![] };
    assert_eq!(best_match(&empty), None);
}

fn run_search(scores: &[Option<i64>]) -> (Step, usize) {
    let mut search = Search::start(20, 5, &vec![10_000, 50_000], &vec![0, 500_000]).unwrap();
    let mut asked = 0;
    let mut next = scores.iter();
    loop {
        match search.next_step() {
            Step::Fit { candidate, fold } => {
                assert_eq!(candidate, search.grid()[asked / 5]);
                assert_eq!(fold, asked % 5);
                asked += 1;
                search.record(*next.next().unwrap());
            }
            other => return (other, asked),
        }
    }
}

#[test]
fn search_runs_every_fold_then_refits_best() {
    let mut scores = vec![Some(500_000); 20];
    scores[10] = Some(990_000); // third candidate, first fold
    scores[11] = None;
    let (step, asked) = run_search(&scores);
    assert_eq!(asked, 20);
    // third candidate: (990000 + 3 x 500000) / 4
    assert_eq!(
        step,
        Step::Refit { index: 2, candidate: Candidate { penalty: 50_000, l1_ratio: 0 } }
    );
    assert_eq!(run_search(&scores), (step, asked));
}

#[test]
fn search_ties_go_to_first_candidate() {
    let (step, _) = run_search(&vec![Some(700_000); 20]);
    assert_eq!(step, Step::Refit { index: 0, candidate: Candidate { penalty: 10_000, l1_ratio: 0 } });
}

#[test]
fn search_with_no_scores_fails() {
    let (step, asked) = run_search(&vec![None; 20]);
    assert_eq!(asked, 20);
    assert_eq!(step, Step::Failed(SelectError::NoViableModel));
}

#[test]
fn search_start_checks_configuration() {
    assert!(matches!(Search::start(4, 5, &vec![1], &vec![0]), Err(SelectError::Configuration)));
    assert!(matches!(Search::start(1, 2, &vec![1], &vec![0]), Err(SelectError::Configuration)));
    assert!(matches!(Search::start(10, 2, &vec![1], &vec![2_000_000]), Err(SelectError::Configuration)));
    let empty = Search::start(10, 2, &vec![], &vec![0]).unwrap();
    assert_eq!(empty.next_step(), Step::Failed(SelectError::NoViableModel));
}

#[test]
fn default_grids() {
    assert_eq!(default_penalties().len(), 11);
    assert_eq!(default_penalties()[0], 10_000);
    assert_eq!(default_l1_ratios(), vec![0, 100_000, 250_000, 500_000, 750_000, 900_000, 1_000_000]);
}
