//! The typed bridge: conversion between caller-defined typed structures
//! and the value model, routed through the text codec so the adapter's
//! dispatch policy stays the only place where variant selection lives.
use vstd::prelude::*;

use crate::codec::canonical;
use crate::value::{Json, JsonError};

verus! {

#[verifier::external_type_specification]
#[verifier::external_body]
pub struct ExSerdeJsonError(serde_json::Error);

/// Relies on serde_json::to_string: renders any serde-serializable value
/// as JSON text, or reports the error serde_json raises. What came back
/// is handed to the verified parser, which checks it in full.
#[verifier::external_body]
fn typed_to_text<T: serde::Serialize>(x: &T) -> Result<String, serde_json::Error> {
    serde_json::to_string(x)
}

/// Relies on serde_json::from_str: reads the typed value that the JSON
/// text describes, or reports the error serde_json raises.
#[verifier::external_body]
fn text_to_typed<T: serde::de::DeserializeOwned>(s: &str) -> Result<
    T,
    serde_json::Error,
> {
    serde_json::from_str(s)
}

impl Json {
    /// Convert a typed structure into a value by routing through the text
    /// codec: the host serialization renders the structure as text, and
    /// the adapter's single dispatch policy builds the value. Fails with
    /// `ConversionError` when the structure cannot be rendered or its
    /// text does not parse.
    pub fn from<T: serde::Serialize>(x: &T) -> (r: Result<Json, JsonError>)
        ensures
            r matches Ok(v) ==> v.wf() && canonical(v),
            r matches Err(e) ==> e == JsonError::ConversionError,
    {
        match typed_to_text(x) {
            Ok(s) => match Json::from_str(s.as_str()) {
                Ok(v) => Ok(v),
                Err(_) => Err(JsonError::ConversionError),
            },
            Err(_) => Err(JsonError::ConversionError),
        }
    }

    /// Convert the value into a typed structure by routing through the
    /// text codec: serialize, then read the text as the target type.
    /// Fails with `ConversionError` when the value's shape does not match
    /// the target.
    pub fn to<T: serde::de::DeserializeOwned>(&self) -> (r: Result<T, JsonError>)
        ensures
            r matches Err(e) ==> e == JsonError::ConversionError,
    {
        match self.to_string() {
            Ok(s) => match text_to_typed::<T>(s.as_str()) {
                Ok(t) => Ok(t),
                Err(_) => Err(JsonError::ConversionError),
            },
            Err(_) => Err(JsonError::ConversionError),
        }
    }
}

} // verus!
