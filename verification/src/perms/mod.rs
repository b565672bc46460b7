//! Permission rules: which role may perform which action, under which
//! conditions on the resource.

pub mod permission;
pub mod context;
pub mod predicate;
pub mod group;
pub mod rule;
pub mod key;
pub mod table;
