//! A mapping from string keys to integer values with elementwise arithmetic:
//! scalar addition, subtraction and multiplication, map-to-map addition and
//! subtraction with union-of-keys semantics, and removal of zero-valued
//! entries.

pub mod arith_map;
pub mod model;

pub use arith_map::assoc_map;
pub use arith_map::distinct_keys;
pub use arith_map::ArithMap;
pub use model::map_minus;
pub use model::map_minus_scalar;
pub use model::map_plus;
pub use model::map_plus_scalar;
pub use model::map_times_scalar;
pub use model::pruned;
pub use model::val_or_zero;
