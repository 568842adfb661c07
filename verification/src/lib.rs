//! Open-addressing hash maps and sets built on Elastic Hashing and Funnel Hashing,
//! sharing a control-byte core in which every live slot carries a seven-bit
//! fingerprint of its key's hash.
//!
//! Every capacity and probe computation is exact integer arithmetic.

pub mod algebra;
pub mod aliases;
pub mod arith;
pub mod batch;
pub mod bitmask;
pub mod bulk;
pub mod capacity;
pub mod config;
pub mod control;
pub mod cursor;
pub mod disjoint;
pub mod elastic;
pub mod elastic_filter;
pub mod elastic_geometry;
pub mod elastic_plan;
pub mod elastic_schedule;
pub mod entry;
pub mod epoch;
pub mod error;
pub mod extract;
pub mod funnel;
pub mod funnel_scan;
pub mod funnel_search;
pub mod funnel_shape;
pub mod geometry;
pub mod hashing;
pub mod into_iter;
pub mod iter;
pub mod laws;
pub mod layout;
pub mod listing;
pub mod map;
pub mod membership;
pub mod object_key;
pub mod partition;
pub mod phi;
pub mod placement;
pub mod probe;
pub mod reduction;
pub mod reserve;
pub mod set;
pub mod simd;
pub mod sizing;
pub mod slots;
pub mod snapshot;
pub mod table;
pub mod versioned;

pub use aliases::{
    ElasticDrain, ElasticEntry, ElasticExtractIf, ElasticHashMap, ElasticHashSet, ElasticIntoIter,
    ElasticIntoKeys, ElasticIntoValues, ElasticIter, ElasticIterMut, ElasticKeys,
    ElasticOccupiedEntry, ElasticOccupiedError, ElasticVacantEntry, ElasticValues, ElasticValuesMut,
    FunnelDrain, FunnelEntry, FunnelExtractIf, FunnelHashMap, FunnelHashSet, FunnelIntoIter,
    FunnelIntoKeys, FunnelIntoValues, FunnelIter, FunnelIterMut, FunnelKeys, FunnelOccupiedEntry,
    FunnelOccupiedError, FunnelVacantEntry, FunnelValues, FunnelValuesMut,
};
pub use epoch::{EpochSnapshot, EpochTransition};
pub use error::{TryBuildError, TryReserveError};
pub use hashing::{DefaultHashBuilder, Equivalent, HashBuilder};
pub use reserve::{ReserveFraction, ReserveFractionError};
