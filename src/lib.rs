//! Election simulation core: the domain model, district grouping queries,
//! seat-allocation methods, divisor apportionment, seat statistics, and the
//! binary container that bundles a dataset.
pub mod apportion;
pub mod codec;
pub mod grouping;
pub mod methods;
pub mod model;
pub mod order;
pub mod stats;
pub mod utils;
pub mod wire;
