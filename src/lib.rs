//! Record catalog sorting: a record model with a line parser and a canonical
//! rendering, a dataset loader, an identifier-based selection stage, and two
//! in-place sorting engines (heap sort by height, partition sort by generation).

pub mod permute;
pub mod text;
pub mod record;
pub mod render;
pub mod catalog;
pub mod laws;
pub mod round_trip;
pub mod heap;
pub mod partition;
