//! Top-hits selection for a search index: a multi-key comparator, a bounded
//! top-K selector, per-segment collection, cross-segment merging with
//! pagination, and the binary term layout used to identify field values.

pub mod collector;
pub mod common;
pub mod fields;
pub mod order;
pub mod selector;
pub mod term;
