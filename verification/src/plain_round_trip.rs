//! Round trip for every shape, under a strict configuration and plain
//! names: decoding the records of a value gives the value back, also where
//! the shape leaves it to the records whether a value is there, which fields
//! a mapping has, or what a value is.

use vstd::prelude::*;
use crate::config::ConfigView;
use crate::de::DecodeErrorView;
use crate::decimal::{decimal, lemma_parse_decimal};
use crate::decode::{
    decoded, decoded_elements, decoded_entries, decoded_fields, decoded_tuple, inferred,
    inferred_elements, inferred_fields, sequence_length,
};
use crate::discipline::{
    distinct_keys, is_mark, lemma_distinct_keys, lemma_element_keys_marked,
    lemma_entry_keys_marked, orderly, plain, plain_name,
};
use crate::encoding_laws::{lemma_keys_under_path, lemma_record_count, scalar_count, sequence_count};
use crate::inference_laws::{
    all_emit, entry_names, lemma_mapping_keys, lemma_none_shown, lemma_segment_within,
    lemma_some_shown, strict,
};
use crate::lookup::{
    array_length, field_prefix, lemma_lookup_key_len, lemma_object_keys_nonempty, lookup,
    max_key_len, present, segment,
};
use crate::path::{index_key, marker_key, object_key};
use crate::placement::{
    lemma_entry_position, lemma_placed_element, lemma_placed_entry, lemma_placed_lookup,
    lemma_placed_lookup_none, lemma_placed_whole, placed, within,
};
use crate::records::{element_records, entry_records, records_of, RecordView};
use crate::scalar::denotes;
use crate::ser::encoding;
use crate::shape::ShapeView;
use crate::text::starts_with;
use crate::value::ValueView;

verus! {

/// The value has at least one record.
pub open spec fn emits(value: ValueView) -> bool {
    scalar_count(value) + sequence_count(value) > 0
}

/// Decoding for `shape` can give `value`: the shape names the parts of the
/// value, and where it leaves something to the records, the value's records
/// can show it. An optional value is absent or has a record; every field of
/// a mapping whose fields are to be found has a record; a value that is to
/// be found whole is a scalar, a sequence of such values, or a mapping with
/// at least one field, whose fields are such values with a record each.
pub open spec fn reads_as(shape: ShapeView, value: ValueView) -> bool
    decreases value, shape,
{
    match shape {
        ShapeView::Scalar(kind) => value matches ValueView::Scalar(text) && denotes(kind, text),
        ShapeView::Unit => value is Absent,
        ShapeView::Optional(inner) => value is Absent || (emits(value) && reads_as(
            *inner,
            value,
        )),
        ShapeView::Sequence(inner) => value matches ValueView::Sequence(items) && items.len()
            <= usize::MAX && forall|i: int|
            0 <= i < items.len() ==> reads_as(*inner, #[trigger] items[i]),
        ShapeView::Tuple(shapes) => value matches ValueView::Sequence(items) && items.len()
            == shapes.len() && forall|i: int|
            0 <= i < items.len() ==> reads_as(shapes[i], #[trigger] items[i]),
        ShapeView::Struct(fields) => value matches ValueView::Mapping(entries) && entries.len()
            == fields.len() && forall|i: int|
            0 <= i < entries.len() ==> fields[i].0 == (#[trigger] entries[i]).0 && reads_as(
                fields[i].1,
                entries[i].1,
            ),
        ShapeView::Dictionary(inner) => value matches ValueView::Mapping(entries) && forall|i: int|
            0 <= i < entries.len() ==> emits((#[trigger] entries[i]).1) && reads_as(
                *inner,
                entries[i].1,
            ),
        ShapeView::Any => match value {
            ValueView::Scalar(_) => true,
            ValueView::Absent => false,
            ValueView::Sequence(items) => items.len() <= usize::MAX && forall|i: int|
                0 <= i < items.len() ==> reads_as(ShapeView::Any, #[trigger] items[i]),
            ValueView::Mapping(entries) => entries.len() > 0 && forall|i: int|
                0 <= i < entries.len() ==> emits((#[trigger] entries[i]).1) && reads_as(
                    ShapeView::Any,
                    entries[i].1,
                ),
        },
    }
}

/// What the records alone show at the elements of a sequence is what they
/// denote there for the shape that leaves all to the records.
pub proof fn lemma_inferred_elements_are_decoded(
    config: ConfigView,
    records: Seq<RecordView>,
    path: Seq<char>,
    n: nat,
)
    requires
        path.len() <= max_key_len(records),
    ensures
        inferred_elements(config, records, path, n) == decoded_elements(
            config,
            records,
            ShapeView::Any,
            path,
            n,
        ),
    decreases n,
{
    if n > 0 {
        lemma_inferred_elements_are_decoded(config, records, path, (n - 1) as nat);
        let child = index_key(config, path, (n - 1) as nat);
        assert(decoded(config, records, ShapeView::Any, child) == inferred(config, records, child));
    }
}

/// What the records alone show at fields whose names are not empty is what
/// they denote there for the shape that leaves all to the records.
pub proof fn lemma_inferred_fields_are_decoded(
    config: ConfigView,
    records: Seq<RecordView>,
    path: Seq<char>,
    names: Seq<Seq<char>>,
    n: nat,
)
    requires
        path.len() <= max_key_len(records),
        n <= names.len(),
        forall|i: int| 0 <= i < names.len() ==> (#[trigger] names[i]).len() > 0,
    ensures
        inferred_fields(config, records, path, names, n) == decoded_entries(
            config,
            records,
            ShapeView::Any,
            path,
            names,
            n,
        ),
    decreases n,
{
    if n > 0 {
        lemma_inferred_fields_are_decoded(config, records, path, names, (n - 1) as nat);
        assert(names[n - 1].len() > 0);
        let child = object_key(config, path, names[n - 1]);
        assert(child.len() > path.len());
        assert(decoded(config, records, ShapeView::Any, child) == inferred(config, records, child));
    }
}

/// Under an orderly configuration, the key of a sequence's marker lies
/// under the sequence's path, as does the path itself.
proof fn lemma_own_keys_within(config: ConfigView, path: Seq<char>)
    requires
        orderly(config),
    ensures
        within(config, path, path),
        within(config, path, marker_key(config, path)),
{
    let marker = marker_key(config, path);
    assert(path.subrange(0, path.len() as int) =~= path);
    assert(marker.subrange(0, path.len() as int) =~= path);
    if path.len() > 0 {
        assert(marker[path.len() as int] == config.array_len_suffix[0]);
    }
}

/// Under a strict configuration, every record of a sequence or of a mapping
/// with plain names has a key that is longer than the value's path and is
/// not the key of a marker of a mapping at that path.
proof fn lemma_keys_beyond(config: ConfigView, path: Seq<char>, value: ValueView, b: int)
    requires
        strict(config),
        plain(config, value),
        value is Sequence || value is Mapping,
        0 <= b < records_of(config, path, value).len(),
    ensures
        records_of(config, path, value)[b].0 != path,
        value is Mapping ==> records_of(config, path, value)[b].0 != marker_key(config, path),
        value is Mapping ==> segment(config, path, records_of(config, path, value)[b].0) is Some,
{
    let block = records_of(config, path, value);
    let key = block[b].0;
    match value {
        ValueView::Sequence(items) => {
            let all = element_records(config, path, items, items.len());
            if b < all.len() {
                assert(block[b] == all[b]);
                lemma_element_keys_marked(config, path, items, items.len(), b);
            }
        },
        ValueView::Mapping(entries) => {
            let j = lemma_entry_position(config, path, entries, entries.len(), b);
            let name = entries[j as int].0;
            let child = object_key(config, path, name);
            assert(plain_name(config, name));
            lemma_keys_under_path(config, child, entries[j as int].1);
            assert(starts_with(key, child));
            let prefix = field_prefix(config, path);
            assert(child =~= prefix + name);
            assert(key.subrange(0, prefix.len() as int) =~= key.subrange(
                0,
                child.len() as int,
            ).subrange(0, prefix.len() as int));
            assert(child.subrange(0, prefix.len() as int) =~= prefix);
            assert(starts_with(key, prefix));
            assert(key.subrange(0, child.len() as int)[prefix.len() as int] == key[prefix.len() as int]);
            assert(child[prefix.len() as int] == name[0]);
            if path.len() > 0 {
                lemma_entry_keys_marked(config, path, entries, entries.len(), b);
                assert(marker_key(config, path)[path.len() as int] == config.array_len_suffix[0]);
            } else {
                assert(marker_key(config, path) =~= config.array_len_suffix);
                assert(!is_mark(config, name[0]));
            }
        },
        _ => {},
    }
}

/// Round trip at a path, under a strict configuration: among records with
/// distinct keys in which a plain value is placed, decoding at the value's
/// path for a shape that the value reads as gives the value.
pub proof fn lemma_reads_back(
    config: ConfigView,
    records: Seq<RecordView>,
    shape: ShapeView,
    path: Seq<char>,
    value: ValueView,
    at: int,
)
    requires
        strict(config),
        plain(config, value),
        reads_as(shape, value),
        distinct_keys(records),
        placed(config, records, path, value, at),
    ensures
        decoded(config, records, shape, path) == Ok::<ValueView, DecodeErrorView>(value),
    decreases value, shape, 0nat,
{
    let block = records_of(config, path, value);
    lemma_own_keys_within(config, path);
    match shape {
        ShapeView::Scalar(_) => {
            lemma_placed_lookup(config, records, path, value, at, 0);
        },
        ShapeView::Unit => {},
        ShapeView::Optional(inner) => {
            if value is Absent {
                lemma_placed_lookup_none(config, records, path, value, at, path);
                lemma_placed_lookup_none(
                    config,
                    records,
                    path,
                    value,
                    at,
                    marker_key(config, path),
                );
                assert forall|a: int| 0 <= a < records.len() implies segment(
                    config,
                    path,
                    (#[trigger] records[a]).0,
                ) is None by {
                    if segment(config, path, records[a].0) is Some {
                        lemma_segment_within(config, path, records[a].0);
                    }
                }
                lemma_none_shown(config, records, path, records.len());
            } else {
                lemma_record_count(config, path, value);
                lemma_present(config, records, path, value, at);
                lemma_reads_back(config, records, *inner, path, value, at);
            }
        },
        ShapeView::Sequence(inner) => {
            let items = value->Sequence_0;
            lemma_marker_found(config, records, path, items, at);
            lemma_elements_read_back(config, records, *inner, path, items, at, items.len());
            assert(items.take(items.len() as int) =~= items);
        },
        ShapeView::Tuple(shapes) => {
            let items = value->Sequence_0;
            lemma_tuple_reads_back(config, records, shapes, path, items, at, items.len());
            assert(items.take(items.len() as int) =~= items);
        },
        ShapeView::Struct(fields) => {
            let entries = value->Mapping_0;
            lemma_fields_read_back(config, records, fields, path, entries, at, entries.len());
            assert(entries.take(entries.len() as int) =~= entries);
        },
        ShapeView::Dictionary(inner) => {
            let entries = value->Mapping_0;
            lemma_all_emit(config, path, entries);
            lemma_mapping_keys(config, records, path, entries, at);
            lemma_entries_read_back(config, records, *inner, path, entries, at, entries.len());
            assert(entries.take(entries.len() as int) =~= entries);
        },
        ShapeView::Any => {
            match value {
                ValueView::Scalar(_) => {
                    lemma_placed_lookup(config, records, path, value, at, 0);
                },
                ValueView::Sequence(items) => {
                    assert forall|b: int| 0 <= b < block.len() implies (#[trigger] block[b]).0
                        != path by {
                        lemma_keys_beyond(config, path, value, b);
                    }
                    lemma_placed_lookup_none(config, records, path, value, at, path);
                    lemma_marker_found(config, records, path, items, at);
                    lemma_lookup_key_len(records, marker_key(config, path));
                    lemma_inferred_elements_are_decoded(config, records, path, items.len());
                    lemma_elements_read_back(
                        config,
                        records,
                        ShapeView::Any,
                        path,
                        items,
                        at,
                        items.len(),
                    );
                    assert(items.take(items.len() as int) =~= items);
                },
                ValueView::Mapping(entries) => {
                    assert forall|b: int| 0 <= b < block.len() implies (#[trigger] block[b]).0
                        != path && block[b].0 != marker_key(config, path) by {
                        lemma_keys_beyond(config, path, value, b);
                    }
                    lemma_placed_lookup_none(config, records, path, value, at, path);
                    lemma_placed_lookup_none(
                        config,
                        records,
                        path,
                        value,
                        at,
                        marker_key(config, path),
                    );
                    lemma_all_emit(config, path, entries);
                    lemma_mapping_keys(config, records, path, entries, at);
                    let names = entry_names(entries);
                    assert(names.len() > 0);
                    lemma_object_keys_nonempty(config, records, path);
                    assert forall|i: int| 0 <= i < names.len() implies (#[trigger] names[i]).len()
                        > 0 by {
                        assert(plain_name(config, entries[i].0));
                    }
                    lemma_inferred_fields_are_decoded(config, records, path, names, names.len());
                    lemma_entries_read_back(
                        config,
                        records,
                        ShapeView::Any,
                        path,
                        entries,
                        at,
                        entries.len(),
                    );
                    assert(entries.take(entries.len() as int) =~= entries);
                },
                _ => {},
            }
        },
    }
}

/// Every entry of a mapping whose values have a record each has one.
proof fn lemma_all_emit(config: ConfigView, path: Seq<char>, entries: Seq<(Seq<char>, ValueView)>)
    requires
        forall|i: int| 0 <= i < entries.len() ==> emits((#[trigger] entries[i]).1),
    ensures
        all_emit(config, path, entries),
{
    assert forall|i: int| 0 <= i < entries.len() implies records_of(
        config,
        object_key(config, path, (#[trigger] entries[i]).0),
        entries[i].1,
    ).len() > 0 by {
        lemma_record_count(config, object_key(config, path, entries[i].0), entries[i].1);
    }
}

/// The marker of a placed sequence is found, and carries its length.
proof fn lemma_marker_found(
    config: ConfigView,
    records: Seq<RecordView>,
    path: Seq<char>,
    items: Seq<ValueView>,
    at: int,
)
    requires
        items.len() <= usize::MAX,
        distinct_keys(records),
        placed(config, records, path, ValueView::Sequence(items), at),
    ensures
        lookup(records, marker_key(config, path)) == Some(decimal(items.len())),
        array_length(config, records, path) == Some(items.len() as usize),
        sequence_length(config, records, path) == Ok::<usize, DecodeErrorView>(
            items.len() as usize,
        ),
{
    let all = element_records(config, path, items, items.len());
    lemma_placed_lookup(
        config,
        records,
        path,
        ValueView::Sequence(items),
        at,
        all.len() as int,
    );
    lemma_parse_decimal(items.len());
}

/// Something lies at or under the path of a placed value that has a record.
proof fn lemma_present(
    config: ConfigView,
    records: Seq<RecordView>,
    path: Seq<char>,
    value: ValueView,
    at: int,
)
    requires
        strict(config),
        plain(config, value),
        distinct_keys(records),
        placed(config, records, path, value, at),
        records_of(config, path, value).len() > 0,
    ensures
        present(config, records, path),
{
    let block = records_of(config, path, value);
    match value {
        ValueView::Scalar(_) => {
            lemma_placed_lookup(config, records, path, value, at, 0);
        },
        ValueView::Sequence(items) => {
            let all = element_records(config, path, items, items.len());
            lemma_placed_lookup(config, records, path, value, at, all.len() as int);
        },
        ValueView::Mapping(_) => {
            lemma_keys_beyond(config, path, value, 0);
            assert(records[at + 0] == block[0]);
            lemma_some_shown(config, records, path, records.len(), at);
        },
        _ => {},
    }
}

/// The first `n` elements of a placed sequence are read back, where each
/// reads as `inner`.
proof fn lemma_elements_read_back(
    config: ConfigView,
    records: Seq<RecordView>,
    inner: ShapeView,
    path: Seq<char>,
    items: Seq<ValueView>,
    at: int,
    n: nat,
)
    requires
        strict(config),
        n <= items.len(),
        forall|i: int|
            0 <= i < items.len() ==> plain(config, #[trigger] items[i]) && reads_as(
                inner,
                items[i],
            ),
        distinct_keys(records),
        placed(config, records, path, ValueView::Sequence(items), at),
    ensures
        decoded_elements(config, records, inner, path, n) == Ok::<Seq<ValueView>, DecodeErrorView>(
            items.take(n as int),
        ),
    decreases items, ShapeView::Unit, n,
{
    if n == 0 {
        assert(items.take(0) =~= Seq::<ValueView>::empty());
    } else {
        let m = (n - 1) as nat;
        lemma_elements_read_back(config, records, inner, path, items, at, m);
        lemma_placed_element(config, records, path, items, at, m);
        lemma_reads_back(
            config,
            records,
            inner,
            index_key(config, path, m),
            items[m as int],
            at + element_records(config, path, items, m).len(),
        );
        assert(items.take(n as int) =~= items.take(m as int).push(items[m as int]));
    }
}

/// The first `n` elements of a placed sequence are read back, where each
/// reads as its own shape.
proof fn lemma_tuple_reads_back(
    config: ConfigView,
    records: Seq<RecordView>,
    shapes: Seq<ShapeView>,
    path: Seq<char>,
    items: Seq<ValueView>,
    at: int,
    n: nat,
)
    requires
        strict(config),
        n <= items.len(),
        items.len() == shapes.len(),
        forall|i: int|
            0 <= i < items.len() ==> plain(config, #[trigger] items[i]) && reads_as(
                shapes[i],
                items[i],
            ),
        distinct_keys(records),
        placed(config, records, path, ValueView::Sequence(items), at),
    ensures
        decoded_tuple(config, records, shapes, path, n) == Ok::<Seq<ValueView>, DecodeErrorView>(
            items.take(n as int),
        ),
    decreases items, ShapeView::Unit, n,
{
    if n == 0 {
        assert(items.take(0) =~= Seq::<ValueView>::empty());
    } else {
        let m = (n - 1) as nat;
        lemma_tuple_reads_back(config, records, shapes, path, items, at, m);
        lemma_placed_element(config, records, path, items, at, m);
        lemma_reads_back(
            config,
            records,
            shapes[m as int],
            index_key(config, path, m),
            items[m as int],
            at + element_records(config, path, items, m).len(),
        );
        assert(items.take(n as int) =~= items.take(m as int).push(items[m as int]));
    }
}

/// The first `n` fields of a placed mapping are read back, where each reads
/// as the shape of the field of its name.
proof fn lemma_fields_read_back(
    config: ConfigView,
    records: Seq<RecordView>,
    fields: Seq<(Seq<char>, ShapeView)>,
    path: Seq<char>,
    entries: Seq<(Seq<char>, ValueView)>,
    at: int,
    n: nat,
)
    requires
        strict(config),
        n <= entries.len(),
        entries.len() == fields.len(),
        plain(config, ValueView::Mapping(entries)),
        forall|i: int|
            0 <= i < entries.len() ==> fields[i].0 == (#[trigger] entries[i]).0 && reads_as(
                fields[i].1,
                entries[i].1,
            ),
        distinct_keys(records),
        placed(config, records, path, ValueView::Mapping(entries), at),
    ensures
        decoded_fields(config, records, fields, path, n) == Ok::<
            Seq<(Seq<char>, ValueView)>,
            DecodeErrorView,
        >(entries.take(n as int)),
    decreases entries, ShapeView::Unit, n,
{
    if n == 0 {
        assert(entries.take(0) =~= Seq::<(Seq<char>, ValueView)>::empty());
    } else {
        let m = (n - 1) as nat;
        lemma_fields_read_back(config, records, fields, path, entries, at, m);
        lemma_placed_entry(config, records, path, entries, at, m);
        assert(fields[m as int].0 == entries[m as int].0);
        lemma_reads_back(
            config,
            records,
            fields[m as int].1,
            object_key(config, path, entries[m as int].0),
            entries[m as int].1,
            at + entry_records(config, path, entries, m).len(),
        );
        assert(entries.take(n as int) =~= entries.take(m as int).push(entries[m as int]));
    }
}

/// The first `n` fields of a placed mapping are read back under their own
/// names, where each reads as `inner`.
proof fn lemma_entries_read_back(
    config: ConfigView,
    records: Seq<RecordView>,
    inner: ShapeView,
    path: Seq<char>,
    entries: Seq<(Seq<char>, ValueView)>,
    at: int,
    n: nat,
)
    requires
        strict(config),
        n <= entries.len(),
        plain(config, ValueView::Mapping(entries)),
        forall|i: int| 0 <= i < entries.len() ==> reads_as(inner, (#[trigger] entries[i]).1),
        distinct_keys(records),
        placed(config, records, path, ValueView::Mapping(entries), at),
    ensures
        decoded_entries(config, records, inner, path, entry_names(entries), n) == Ok::<
            Seq<(Seq<char>, ValueView)>,
            DecodeErrorView,
        >(entries.take(n as int)),
    decreases entries, ShapeView::Unit, n,
{
    if n == 0 {
        assert(entries.take(0) =~= Seq::<(Seq<char>, ValueView)>::empty());
    } else {
        let m = (n - 1) as nat;
        lemma_entries_read_back(config, records, inner, path, entries, at, m);
        lemma_placed_entry(config, records, path, entries, at, m);
        assert(entry_names(entries)[m as int] == entries[m as int].0);
        lemma_reads_back(
            config,
            records,
            inner,
            object_key(config, path, entries[m as int].0),
            entries[m as int].1,
            at + entry_records(config, path, entries, m).len(),
        );
        assert(entries.take(n as int) =~= entries.take(m as int).push(entries[m as int]));
    }
}

/// Round trip for every shape: where the configuration is strict and the
/// value plain, and the encoding succeeds, decoding the records for a shape
/// that the value reads as gives the value back.
pub proof fn lemma_round_trip_strict(config: ConfigView, value: ValueView, shape: ShapeView)
    requires
        strict(config),
        plain(config, value),
        reads_as(shape, value),
        encoding(config, value) is Ok,
    ensures
        decoded(config, encoding(config, value)->Ok_0, shape, Seq::empty()) == Ok::<
            ValueView,
            DecodeErrorView,
        >(value),
{
    let records = records_of(config, Seq::empty(), value);
    lemma_distinct_keys(config, Seq::empty(), value);
    lemma_placed_whole(config, Seq::empty(), value);
    lemma_reads_back(config, records, shape, Seq::empty(), value, 0);
}

/// The default configuration is strict.
pub proof fn lemma_default_strict()
    ensures
        strict(crate::config::default_config()),
{
    crate::discipline::lemma_default_orderly();
}

} // verus!
