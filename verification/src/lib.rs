//! A small smart-home inventory.
//!
//! The crate keeps two independent stores: a [`house::House`]
//! topology of named rooms and device names, and a
//! [`spooky::Spooky`] registry of concrete device readings. A report
//! generator walks the topology in lexicographic order and resolves
//! each device through a lookup capability, tolerating entries that
//! are present in one store and missing from the other.

pub mod devices;
pub mod house;
pub mod spooky;
pub mod text;
