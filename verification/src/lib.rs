//! Classification of one-dimensional data into contiguous bins.
//!
//! Every value the library handles is an ordered integer key (`i64`): two keys
//! compare as the measurements they stand for. A caller with other
//! measurements maps them to keys that keep their order, and maps the breaks
//! and bounds it gets back to measurements again.
//!
//! - `utilities`: the runs of equal values of a sorted sample, the step from
//!   breaks over runs to breaks over positions, and the bins between break
//!   values with their counts.
//! - `sampler`: random break sets, drawn with the generator of the `rand`
//!   crate.
//! - `jenks`: the search for natural breaks. It makes a fixed number of
//!   trials, each with a random candidate, and keeps the candidate with the
//!   best score. The score is the caller's: the library hands it the
//!   candidate and the sorted sample.
//! - `coverage`: what holds of the bins of every dataset.

pub mod coverage;
pub mod error;
pub mod jenks;
pub mod sampler;
pub mod utilities;

pub use error::ClassifyError;
pub use jenks::{
    break_segments, get_jenks_breaks, get_jenks_breaks_seeded, get_jenks_classification,
    trial_count, JenksSearch, MAX_TRIALS, MIN_TRIALS, REFERENCE_SEED, SEARCH_EFFORT,
};
pub use sampler::{insert_break, pick_rand_breaks, pick_rand_breaks_within, DRAW_LIMIT};
pub use utilities::{
    breaks_to_classification, classify_val, create_unique_val_mapping, first_at_or_above,
    unique_to_normal_breaks, Bin, Classification, UniqueVal,
};
