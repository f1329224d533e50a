//! A minimal single-process columnar vector-table storage engine.
//!
//! Tables hold schema'd rows in immutable columnar fragments; rows are
//! deleted by tombstoning, filtered by simple comparison predicates, and
//! queried by nearest-neighbour search over one fixed-dimension vector
//! column per table.

pub mod error;
pub mod value;
pub mod schema;
pub mod codec;
pub mod predicate;
pub mod distance;
pub mod table;
pub mod index;
pub mod catalog;
