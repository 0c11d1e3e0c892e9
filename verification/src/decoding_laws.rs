//! What holds of every decoding: a scalar takes precedence over whatever
//! lies under its path, and no decoded mapping has two fields of one name.

use vstd::prelude::*;
use crate::config::ConfigView;
use crate::de::DecodeErrorView;
use crate::decimal::lemma_decimal_digits;
use crate::decode::{
    decoded, decoded_elements, decoded_entries, decoded_fields, decoded_tuple, depth_left,
    inferred, inferred_elements, inferred_fields, resolved, sequence_length, ResolutionView,
};
use crate::lookup::{
    lemma_lookup_key_len, lemma_object_keys_distinct, lemma_object_keys_nonempty, lookup,
    max_key_len, object_keys,
};
use crate::path::{index_key, marker_key, object_key};
use crate::records::RecordView;
use crate::shape::ShapeView;
use crate::value::ValueView;

verus! {

/// Where a record lies under the very path asked for, the records alone show
/// a scalar there, whatever else lies under the path.
pub proof fn lemma_scalar_precedence(
    config: ConfigView,
    records: Seq<RecordView>,
    path: Seq<char>,
    text: Seq<char>,
)
    requires
        lookup(records, path) == Some(text),
    ensures
        inferred(config, records, path) == Ok::<ValueView, DecodeErrorView>(
            ValueView::Scalar(text),
        ),
        decoded(config, records, ShapeView::Any, path) == Ok::<ValueView, DecodeErrorView>(
            ValueView::Scalar(text),
        ),
{
}

/// What the records alone show is well formed: no mapping in it has two
/// fields of one name.
pub proof fn lemma_inferred_well_formed(
    config: ConfigView,
    records: Seq<RecordView>,
    path: Seq<char>,
)
    ensures
        inferred(config, records, path) matches Ok(value) ==> value.well_formed(),
    decreases depth_left(records, path), 1nat, 0nat,
{
    match resolved(config, records, path) {
        Ok(ResolutionView::Sequence(n)) => {
            lemma_lookup_key_len(records, marker_key(config, path));
            lemma_inferred_elements_well_formed(config, records, path, n as nat);
        },
        Ok(ResolutionView::Mapping(names)) => {
            lemma_object_keys_nonempty(config, records, path);
            lemma_object_keys_distinct(config, records, path, records.len());
            lemma_inferred_fields_well_formed(config, records, path, names, names.len());
        },
        _ => {},
    }
}

/// The elements that the records alone show are well formed.
proof fn lemma_inferred_elements_well_formed(
    config: ConfigView,
    records: Seq<RecordView>,
    path: Seq<char>,
    n: nat,
)
    requires
        path.len() <= max_key_len(records),
    ensures
        inferred_elements(config, records, path, n) matches Ok(items) ==> forall|i: int|
            0 <= i < items.len() ==> (#[trigger] items[i]).well_formed(),
    decreases depth_left(records, path), 0nat, n,
{
    if n > 0 {
        lemma_inferred_elements_well_formed(config, records, path, (n - 1) as nat);
        if inferred_elements(config, records, path, (n - 1) as nat) is Ok {
            lemma_decimal_digits((n - 1) as nat);
            lemma_inferred_well_formed(config, records, index_key(config, path, (n - 1) as nat));
        }
    }
}

/// The fields that the records alone show carry the names asked for, in
/// order, and are well formed.
proof fn lemma_inferred_fields_well_formed(
    config: ConfigView,
    records: Seq<RecordView>,
    path: Seq<char>,
    names: Seq<Seq<char>>,
    n: nat,
)
    requires
        path.len() <= max_key_len(records),
        n <= names.len(),
    ensures
        inferred_fields(config, records, path, names, n) matches Ok(entries) ==> entries.len()
            == n && forall|i: int|
            0 <= i < n ==> (#[trigger] entries[i]).0 == names[i] && entries[i].1.well_formed(),
    decreases depth_left(records, path), 0nat, n,
{
    if n > 0 {
        lemma_inferred_fields_well_formed(config, records, path, names, (n - 1) as nat);
        if inferred_fields(config, records, path, names, (n - 1) as nat) is Ok {
            let child = object_key(config, path, names[n - 1]);
            if child.len() > path.len() {
                lemma_inferred_well_formed(config, records, child);
            }
        }
    }
}

/// What the records denote for a well-formed shape is well formed: no
/// mapping in it has two fields of one name.
pub proof fn lemma_decoded_well_formed(
    config: ConfigView,
    records: Seq<RecordView>,
    shape: ShapeView,
    path: Seq<char>,
)
    requires
        shape.well_formed(),
    ensures
        decoded(config, records, shape, path) matches Ok(value) ==> value.well_formed(),
    decreases shape, 0nat,
{
    match shape {
        ShapeView::Any => {
            lemma_inferred_well_formed(config, records, path);
        },
        ShapeView::Optional(inner) => {
            lemma_decoded_well_formed(config, records, *inner, path);
        },
        ShapeView::Sequence(inner) => {
            if let Ok(n) = sequence_length(config, records, path) {
                lemma_decoded_elements_well_formed(config, records, *inner, path, n as nat);
            }
        },
        ShapeView::Tuple(shapes) => {
            lemma_decoded_tuple_well_formed(config, records, shapes, path, shapes.len());
        },
        ShapeView::Dictionary(inner) => {
            let names = object_keys(config, records, path);
            lemma_object_keys_distinct(config, records, path, records.len());
            lemma_decoded_entries_well_formed(config, records, *inner, path, names, names.len());
        },
        ShapeView::Struct(fields) => {
            lemma_decoded_fields_well_formed(config, records, fields, path, fields.len());
        },
        _ => {},
    }
}

/// The elements decoded for a well-formed shape are well formed.
proof fn lemma_decoded_elements_well_formed(
    config: ConfigView,
    records: Seq<RecordView>,
    shape: ShapeView,
    path: Seq<char>,
    n: nat,
)
    requires
        shape.well_formed(),
    ensures
        decoded_elements(config, records, shape, path, n) matches Ok(items) ==> forall|i: int|
            0 <= i < items.len() ==> (#[trigger] items[i]).well_formed(),
    decreases shape, n + 1,
{
    if n > 0 {
        lemma_decoded_elements_well_formed(config, records, shape, path, (n - 1) as nat);
        lemma_decoded_well_formed(config, records, shape, index_key(config, path, (n - 1) as nat));
    }
}

/// The elements decoded for well-formed shapes are well formed.
proof fn lemma_decoded_tuple_well_formed(
    config: ConfigView,
    records: Seq<RecordView>,
    shapes: Seq<ShapeView>,
    path: Seq<char>,
    n: nat,
)
    requires
        n <= shapes.len(),
        forall|i: int| 0 <= i < shapes.len() ==> (#[trigger] shapes[i]).well_formed(),
    ensures
        decoded_tuple(config, records, shapes, path, n) matches Ok(items) ==> forall|i: int|
            0 <= i < items.len() ==> (#[trigger] items[i]).well_formed(),
    decreases shapes, n,
{
    if n > 0 {
        lemma_decoded_tuple_well_formed(config, records, shapes, path, (n - 1) as nat);
        lemma_decoded_well_formed(
            config,
            records,
            shapes[n - 1],
            index_key(config, path, (n - 1) as nat),
        );
    }
}

/// The fields decoded under the names found carry those names, in order,
/// and are well formed.
proof fn lemma_decoded_entries_well_formed(
    config: ConfigView,
    records: Seq<RecordView>,
    shape: ShapeView,
    path: Seq<char>,
    names: Seq<Seq<char>>,
    n: nat,
)
    requires
        shape.well_formed(),
        n <= names.len(),
    ensures
        decoded_entries(config, records, shape, path, names, n) matches Ok(entries)
            ==> entries.len() == n && forall|i: int|
            0 <= i < n ==> (#[trigger] entries[i]).0 == names[i] && entries[i].1.well_formed(),
    decreases shape, n + 1,
{
    if n > 0 {
        lemma_decoded_entries_well_formed(config, records, shape, path, names, (n - 1) as nat);
        lemma_decoded_well_formed(config, records, shape, object_key(config, path, names[n - 1]));
    }
}

/// The fields decoded for a struct carry the names of the struct, in order,
/// and are well formed.
proof fn lemma_decoded_fields_well_formed(
    config: ConfigView,
    records: Seq<RecordView>,
    fields: Seq<(Seq<char>, ShapeView)>,
    path: Seq<char>,
    n: nat,
)
    requires
        n <= fields.len(),
        forall|i: int| 0 <= i < fields.len() ==> (#[trigger] fields[i]).1.well_formed(),
    ensures
        decoded_fields(config, records, fields, path, n) matches Ok(entries) ==> entries.len()
            == n && forall|i: int|
            0 <= i < n ==> (#[trigger] entries[i]).0 == fields[i].0
                && entries[i].1.well_formed(),
    decreases fields, n,
{
    if n > 0 {
        lemma_decoded_fields_well_formed(config, records, fields, path, (n - 1) as nat);
        lemma_decoded_well_formed(
            config,
            records,
            fields[n - 1].1,
            object_key(config, path, fields[n - 1].0),
        );
    }
}

} // verus!
