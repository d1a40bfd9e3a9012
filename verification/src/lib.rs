//! An in-memory columnar engine: nullable columns stored as packed buffers
//! with validity bitmaps, label indexes with union-based alignment,
//! element-wise kernels, reductions, and selection operators.

pub mod bits;
pub mod index;
pub mod storage;
pub mod strings;
pub mod series;
pub mod ops;
pub mod boolean;
pub mod strseries;
pub mod select;
pub mod where_;
pub mod frame;
pub mod laws;
