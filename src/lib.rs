//! A small columnar table with schema normalization, threshold filtering and
//! grouped sums, each operation stated and proved over a mathematical model.

pub mod table;
pub mod normalize;
pub mod filter;
pub mod group;
pub mod schema;
pub mod pipeline;
