//! JSON, by the `serde_json` crate.
//!
//! Every item here that stands for a function of `serde_json` is trusted: its contract is
//! believed.
use serde_json::Error as JsonError;
use serde_json::Value as JsonValue;
use std::collections::HashMap;
use vstd::prelude::*;

verus! {

/// `serde_json::Value`, a JSON value of any kind.
#[verifier::external_type_specification]
#[verifier::external_body]
pub struct ExJsonValue(JsonValue);

/// `serde_json::Error`, why something is not JSON or cannot be written as JSON.
#[verifier::external_type_specification]
#[verifier::external_body]
pub struct ExJsonError(JsonError);

/// Whether a JSON value is null.
pub uninterp spec fn json_is_null(value: JsonValue) -> bool;

/// The elements of a JSON array of unsigned integers.
pub uninterp spec fn json_numbers(value: JsonValue) -> Seq<u64>;

/// The numbers that bytes are.
pub open spec fn byte_numbers(bytes: Seq<u8>) -> Seq<u64> {
    Seq::new(bytes.len(), |i: int| bytes[i] as u64)
}

/// `serde_json::Value::Null`: the null value.
#[verifier::external_body]
pub(crate) fn json_null() -> (value: JsonValue)
    ensures
        json_is_null(value),
{
    JsonValue::Null
}

/// `serde_json::to_value` on bytes: an array with one number for each byte, in order. Bytes are
/// always written.
#[verifier::external_body]
pub(crate) fn json_of_bytes(bytes: &[u8]) -> (res: Result<JsonValue, JsonError>)
    ensures
        res is Ok,
        !json_is_null(res->Ok_0),
        json_numbers(res->Ok_0) == byte_numbers(bytes@),
{
    serde_json::to_value(bytes)
}

/// The map of numbers that `serde_json::from_slice` reads from some bytes; `None` where they
/// are not a JSON object that maps numerals to unsigned integers of 64 bits.
pub uninterp spec fn json_number_map(bytes: Seq<u8>) -> Option<Map<u64, u64>>;

/// `serde_json::from_slice` into a map of numbers.
#[verifier::external_body]
pub(crate) fn number_map_from_json(bytes: &[u8]) -> (res: Result<
    HashMap<u64, u64>,
    JsonError,
>)
    ensures
        match res {
            Ok(map) => json_number_map(bytes@) == Some(map@),
            Err(_) => json_number_map(bytes@) is None,
        },
{
    serde_json::from_slice(bytes)
}

/// `serde_json::to_vec` on a map of numbers: bytes from which `from_slice` reads the same map.
/// Such a map is always written. In which order its members are written is not stated.
#[verifier::external_body]
pub(crate) fn number_map_to_json(map: &HashMap<u64, u64>) -> (res: Result<
    Vec<u8>,
    JsonError,
>)
    ensures
        res is Ok,
        json_number_map(res->Ok_0@) == Some(map@),
{
    serde_json::to_vec(map)
}

/// There is one number for each byte, in the order of the bytes, and it is that byte.
pub proof fn law_numbers_are_the_bytes(bytes: Seq<u8>)
    ensures
        byte_numbers(bytes).len() == bytes.len(),
        forall|i: int| 0 <= i < bytes.len() ==> byte_numbers(bytes)[i] == #[trigger] bytes[i],
{
}

} // verus!
