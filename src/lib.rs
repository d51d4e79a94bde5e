//! Recovery of the temporal order of shuffled video frames from pairwise
//! pixel dissimilarity.
//!
//! Frames are compared pixel by pixel; chains of frames are grown greedily
//! from nearest unused neighbours while the dissimilarity stays within a
//! threshold; the longest chain is the recovered order.
mod chain;
mod frame;
mod matrix;
mod metric;
mod output;
mod reconstruct;
mod select;

pub use chain::{build_sequence, build_sequences, get_succ};
pub use frame::{Frame, ReconstructError};
pub use matrix::{fill_percents, SENTINEL};
pub use output::{ordinal_digits, ORDINAL_WIDTH};
pub use metric::{diff_limit, diff_rgba3, frame_diff, THRESHOLD_SCALE};
pub use reconstruct::{frames_are_uniform, reconstruct};
pub use select::{get_biggest_sequence, reverse_order};
