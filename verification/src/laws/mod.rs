//! What the operations of this crate are for, said of their inputs and results.
//!
//! The laws speak of bytes, numbers and fields, and of pairs of calls. They use as
//! little as they can of the specification functions that contracts are made of.
pub mod calls;
pub mod devices;
pub mod entries;
pub mod files;
pub mod listings;
pub mod names;
pub mod new_roots;
pub mod numbers;
pub mod places;
pub mod roots;
pub mod uses;
pub mod volumes;
