//! JSON documents, carried as `serde_json::Value`.
//!
//! A document is opaque to the proofs. The two things the engine asks of one,
//! whether it equals another and how it reads as text, are answered by
//! `serde_json` and only named here.

use vstd::prelude::*;

verus! {

/// Declares `serde_json::Value`, so that a document can stand in fields and
/// signatures. Nothing inside a document is visible here.
#[verifier::external_type_specification]
#[verifier::external_body]
pub struct ExValue(serde_json::Value);

/// Whether `serde_json` holds two documents to be equal.
pub uninterp spec fn json_equal(left: serde_json::Value, right: serde_json::Value) -> bool;

/// The compact text that `serde_json` prints for a document.
pub uninterp spec fn json_text(value: serde_json::Value) -> Seq<char>;

/// Compares two documents with `==` of `serde_json::Value`, a structural
/// comparison that depends on the two documents alone. The contract only
/// gives that outcome its name.
#[verifier::external_body]
pub(crate) fn json_matches(left: &serde_json::Value, right: &serde_json::Value) -> (same: bool)
    ensures
        same == json_equal(*left, *right),
{
    left == right
}

/// Prints a document through the `Display` impl of `serde_json::Value`, which
/// writes compact JSON and depends on the document alone. The contract only
/// gives that text its name.
#[verifier::external_body]
pub(crate) fn json_render(value: &serde_json::Value) -> (text: String)
    ensures
        text@ == json_text(*value),
{
    value.to_string()
}

} // verus!
