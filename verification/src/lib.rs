//! A bidirectional value-marshaling bridge between statically typed host
//! values and the dynamically typed value model of an embedded scripting
//! engine: scalar coercions that follow the engine's own loose-conversion
//! rules, recursive container and record conversion with per-field error
//! attribution, and a generic tree-value interchange form.
//!
//! The dynamic value is modeled by [`value::DynValue`], a capability-tagged
//! engine value whose numbers are exact decimals; the boundary that owns
//! real engine handles converts to and from this model. Decoding is the
//! [`from::TryFromValue`] capability, encoding [`into::IntoValue`], and
//! records decode and encode through a field-descriptor list in
//! [`record`], one field access per declared field, all-or-nothing.

pub mod coerce;
pub mod errors;
pub mod from;
pub mod helpers;
pub mod into;
pub mod json;
pub mod laws;
pub mod mapping;
pub mod number;
pub mod parse;
pub mod record;
pub mod render;
pub mod value;

pub use errors::Error;
pub use from::{get_field_as, get_optional_field_as, try_as_hashmap, try_as_vec, TryFromValue};
pub use helpers::{
    try_as_bool, try_as_f32, try_as_f64, try_as_i32, try_as_i64, try_as_i8, try_as_string,
    try_as_u32,
};
pub use into::{IntoObject, IntoValue};
pub use json::{TreeNum, TreeValue};
pub use mapping::StringMap;
pub use number::{Dec, JsNumber};
pub use value::DynValue;
