//! Jenks natural breaks: a one-dimensional classification that cuts ordered
//! observations into contiguous bins.
//!
//! Observations are integer keys that order as the observed values do
//! (`encoding`). A search sorts them (`order`), indexes the runs of equal keys
//! (`unique`), draws random boundary sets that cut between runs (`sampler`,
//! `partition`), has each scored by the caller and keeps the best (`search`).
//! The breaks it finds define the bins (`classification`).

pub mod classification;
pub mod encoding;
pub mod order;
pub mod partition;
pub mod sampler;
pub mod search;
pub mod unique;

pub use crate::classification::{
    breaks_to_classification, get_jenks_classification, Bin, Classification,
};
pub use crate::sampler::pick_rand_breaks;
pub use crate::search::{get_jenks_breaks, JenksError};
pub use crate::unique::{create_unique_val_mapping, unique_to_normal_breaks, UniqueVal};
