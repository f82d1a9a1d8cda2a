//! Property price estimation.
//!
//! Every numeric quantity is a fixed-point count of millionths. The modules,
//! leaves first:
//! - `decimal`: decimal text read as millionths;
//! - `features`: properties and their fixed-order feature vectors;
//! - `dataset`: rows of text loaded into a dataset, and folds of it;
//! - `selection`: the hyperparameter grid, cross-validated scores and the
//!   search that picks the best candidate;
//! - `model`: fitted linear models, prediction, and their stored bytes;
//! - `locations`: location suggestions and the choice among them.
pub mod dataset;
pub mod decimal;
pub mod features;
pub mod locations;
pub mod model;
pub mod selection;
