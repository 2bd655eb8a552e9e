//! A static approximate-membership filter over 64-bit hashed keys.
//!
//! Keys are sorted, cut into segments of 64, and each key is stored as a
//! short suffix in a packed-word bitmap; a second packed bitmap of partition
//! keys routes a query to its segment.
mod bitmap;
mod builder;
mod correctness;
mod filter;
mod segment;
mod text;
mod traits;
mod util;

pub use bitmap::Bitmap;
pub use bitmap::lemma_packed_round_trip;
pub use bitmap::DisplayBitmap;
pub use builder::BuildError;
pub use builder::Builder;
pub use builder::BuildingParam;
pub use builder::MAX_KEYS;
pub use correctness::lemma_build_deterministic;
pub use correctness::lemma_no_false_negatives;
pub use correctness::lemma_partitions_strictly_ascending;
pub use correctness::lemma_suffixes_ascend_in_segments;
pub use filter::DisplaySlimFilter;
pub use filter::SlimFilter;
pub use segment::Segment;
pub use traits::Filter;
pub use traits::FilterBuilder;
pub use traits::Key;
pub use util::next_multiple_of;

