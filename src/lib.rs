//! Query execution and value marshalling for a wide-column key-value store.
use vstd::prelude::*;

pub mod literal;
pub mod attr_value;
pub mod text;
pub mod number;
pub mod schema;
pub mod result;
pub mod executor;
