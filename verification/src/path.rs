//! Key paths: where a value sits in the flat key space.
//!
//! A path is built by joining segments. Going into a field of a mapping
//! appends the object separator and the field's name (at the empty root, the
//! name alone); going into an element of a sequence appends the array
//! separator and the element's index; a sequence's length is kept under its
//! path followed by the length suffix.

use vstd::prelude::*;
use vstd::string::*;
use crate::config::{ConfigView, TxtRecordConfig};
use crate::decimal::{decimal, render_usize};

verus! {

/// The path of field `field` of the mapping at `base`.
pub open spec fn object_key(config: ConfigView, base: Seq<char>, field: Seq<char>) -> Seq<char> {
    if base.len() == 0 {
        field
    } else {
        base + config.object_separator + field
    }
}

/// The path of element `index` of the sequence at `base`.
pub open spec fn index_key(config: ConfigView, base: Seq<char>, index: nat) -> Seq<char> {
    base + config.array_separator + decimal(index)
}

/// The key of the length marker of the sequence at `base`.
pub open spec fn marker_key(config: ConfigView, base: Seq<char>) -> Seq<char> {
    base + config.array_len_suffix
}

/// Composes the path of a field of a mapping.
pub fn compose_object(config: &TxtRecordConfig, base: &str, field: &str) -> (path: String)
    ensures
        path@ == object_key(config@, base@, field@),
{
    if base.is_empty() {
        field.to_owned()
    } else {
        let mut path = base.to_owned();
        path.append(config.object_separator.as_str());
        path.append(field);
        path
    }
}

/// Composes the path of an element of a sequence.
pub fn compose_index(config: &TxtRecordConfig, base: &str, index: usize) -> (path: String)
    ensures
        path@ == index_key(config@, base@, index as nat),
{
    let mut path = base.to_owned();
    path.append(config.array_separator.as_str());
    let digits = render_usize(index);
    path.append(digits.as_str());
    path
}

/// Composes the key of a sequence's length marker.
pub fn length_key(config: &TxtRecordConfig, base: &str) -> (key: String)
    ensures
        key@ == marker_key(config@, base@),
{
    let mut key = base.to_owned();
    key.append(config.array_len_suffix.as_str());
    key
}

} // verus!
