use cervo::dataset::Dataset;
use cervo::model::TrainedModel;
use cervo::selection::{Candidate, Search, Step};
use linfa::prelude::SingleTargetRegression;
use linfa::traits::{Fit, Predict};
use linfa_elasticnet::ElasticNet;
use ndarray::{Array1, Array2};

const UNIT: f64 = 1_000_000.0;

fn to_linfa(d: &Dataset) -> linfa::Dataset<f64, f64, ndarray::Ix1> {
    let n = d.len();
    let mut records = Vec::new();
    let mut targets = Vec::new();
    for i in 0..n {
        records.extend(d.features_of(i).iter().map(|&v| v as f64 / UNIT));
        targets.push(d.target_of(i) as f64 / UNIT);
    }
    linfa::Dataset::new(Array2::from_shape_vec((n, 11), records).unwrap(), Array1::from(targets))
}

fn fit(d: &Dataset, c: &Candidate, intercept: bool) -> Option<ElasticNet<f64>> {
    ElasticNet::params()
        .with_intercept(intercept)
        .penalty(c.penalty as f64 / UNIT)
        .l1_ratio(c.l1_ratio as f64 / UNIT)
        .tolerance(1e-12)
        .max_iterations(100_000)
        .fit(&to_linfa(d))
        .ok()
}

fn score(m: &ElasticNet<f64>, v: &Dataset) -> Option<i64> {
    let held_out = to_linfa(v);
    let predicted: Array1<f64> = m.predict(&held_out);
    let r2 = predicted.r2(held_out.targets()).ok()?;
    if r2.is_finite() {
        Some((r2 * UNIT).round() as i64)
    } else {
        None
    }
}

fn select(
    d: &Dataset,
    k: usize,
    penalties: Vec<i64>,
    ratios: Vec<i64>,
    intercept: bool,
) -> (TrainedModel, Candidate) {
    let mut search = Search::start(d.len(), k, &penalties, &ratios).unwrap();
    loop {
        match search.next_step() {
            Step::Fit { candidate, fold } => {
                let (train, validation) = d.split_fold(search.folds(), fold);
                let s = fit(&train, &candidate, intercept).and_then(|m| score(&m, &validation));
                search.record(s);
            }
            Step::Refit { candidate, .. } => {
                let m = fit(d, &candidate, intercept).unwrap();
                let coefficients: Vec<i64> =
                    m.hyperplane().iter().map(|c| (c * UNIT).round() as i64).collect();
                let model =
                    TrainedModel::new(coefficients, (m.intercept() * UNIT).round() as i64).unwrap();
                return (model, candidate);
            }
            Step::Failed(e) => panic!("search failed: {:?}", e),
        }
    }
}

/// 20 rows, price linear in size and rooms, with a fixed perturbation.
fn synthetic(noise: bool) -> Dataset {
    let mut features = Vec::new();
    let mut targets = Vec::new();
    for i in 0..20i64 {
        let size = 50 + 7 * i;
        let rooms = 1 + (i * 3) % 5;
        let mut x = vec![0i64; 11];
        x[0] = size * 1_000_000;
        x[6] = rooms * 1_000_000;
        let wobble = if noise { ((i * 37) % 9 - 4) * 1_000_000 } else { 0 };
        targets.push((100 * size + 5 * rooms) * 1_000_000 + wobble);
        features.push(x);
    }
    Dataset::new(features, targets).unwrap()
}

#[test]
fn select_is_deterministic_on_synthetic_data() {
    let d = synthetic(true);
    let (m1, c1) = select(&d, 5, vec![10_000, 500_000], vec![0, 1_000_000], true);
    let (m2, c2) = select(&d, 5, vec![10_000, 500_000], vec![0, 1_000_000], true);
    assert_eq!(c1, c2);
    assert_eq!(m1.coefficients(), m2.coefficients());
    assert_eq!(m1.intercept(), m2.intercept());
}

#[test]
fn recovers_linear_prices() {
    let d = synthetic(false);
    // the true prices have no intercept term
    let (m, _) = select(&d, 5, vec![1], vec![0], false);
    let c = m.coefficients();
    assert!((c[0] - 100_000_000).abs() < 500_000, "size coefficient {}", c[0]);
    assert!((c[6] - 5_000_000).abs() < 500_000, "rooms coefficient {}", c[6]);
    // a held-out point: 123 m², 4 rooms
    let mut x = vec![0i64; 11];
    x[0] = 123_000_000;
    x[6] = 4_000_000;
    let predicted = m.predict(&x).unwrap();
    let expected: i128 = (100 * 123 + 5 * 4) * 1_000_000;
    assert!((predicted - expected).abs() < 200_000_000, "predicted {}", predicted);
}
