//! An open-addressing hash table and a hash set built on top of it.
//!
//! The table stores entries in a flat array of tri-state slots and resolves
//! collisions by perturbation-based probing; keys are hashed with a small
//! streaming multiply-and-xor accumulator. Every public operation carries a
//! contract relating it to a mathematical map or set view.

pub mod djb;
pub mod key;
pub mod entry;
pub mod probe;
pub mod model;
pub mod table;
pub mod cycle;
pub mod laws;

pub use djb::DJBHasher;
pub use key::TableKey;
pub use entry::Entry;
pub use table::HashMap;
pub use table::HashMapIter;
pub use table::HashMapKeys;
pub use table::HashSet;
