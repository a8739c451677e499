//! Small conveniences for building maps from pairs and for taking the value
//! out of a `Result` or an `Option` with recovery code for the other case.

pub mod macros;

pub use macros::{hashmap, unwrap, unwrap_or};
