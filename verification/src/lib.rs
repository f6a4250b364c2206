//! A binary JSON container format and the operations that read it and write
//! changed copies of it, with the behaviour of every operation stated as a
//! contract over the byte sequences involved.

pub mod constants;
pub mod error;
pub mod codec;
pub mod bytes;
pub mod number;
pub mod iterator;
pub mod builder;
pub mod select;
pub mod raw;
pub mod mutate;
pub mod strip;
pub mod contains;
pub mod order;
pub mod access;
pub mod keypath;
pub mod text;
pub mod comparable;
pub mod cast;
pub mod value;
pub mod tree;
pub mod parser;
pub mod functions;
pub mod display;
pub mod jsonpath;
pub mod query;
pub mod traverse;
pub mod random;
pub mod roundtrip;
pub mod order_laws;
pub mod contains_laws;
pub mod lookup_laws;
pub mod parser_laws;
pub mod ordering;

pub use crate::error::Error;
pub use crate::raw::RawJsonb;
pub use crate::functions::{
    build_array, build_object, concat, convert_to_comparable, delete_by_keypath, strip_nulls,
};
pub use crate::keypath::KeyPath;
pub use crate::number::Number;
pub use crate::ordering::compare;
pub use crate::value::Value;
pub use crate::random::rand_value;
