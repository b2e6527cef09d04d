//! Compressed paged bitmaps with a boolean algebra over page streams.
//!
//! A bitmap is a sorted list of 64-bit pages over a background of zeros or ones, with a
//! universe bound `(last_page, last_bit)`. Boolean operations combine page streams and
//! store the result through a compaction policy; a planner evaluates expression trees.
pub mod page;
pub mod pages;
pub mod bitmap;
pub mod compactor;
pub mod stream;
pub mod laws;
pub mod codec;
pub mod active_bits;
pub mod db;
pub mod boolean_op;

pub use bitmap::{BitPageVec, BitPageVecKind};
pub use boolean_op::{BooleanOp, BooleanOpError, BooleanOpResult};
pub use codec::DecodeError;
pub use db::DbBitPageVec;
pub use page::{zero_masks, BitPage, BitPageWithPosition};
pub use stream::BitPageVecIter;
