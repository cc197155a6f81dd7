//! A codec for the Redis serialization protocol: decoding bytes into values
//! and encoding values into bytes, both proved against one model of the wire.
use vstd::prelude::*;

pub mod parser;
pub mod serialize;
pub mod theorems;
pub mod value;
pub mod wire;

pub use value::{Error, Value};
