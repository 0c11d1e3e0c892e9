//! Round trip: decoding the records of a value gives the value back.
//!
//! This holds for a shape that names every part of the value, exactly where
//! the decoder finds each part that it reads where the encoder put it. It
//! finds them all where no record of the encoding is overwritten by a later
//! one of the same key, and so wherever all keys differ.

use vstd::prelude::*;
use crate::config::ConfigView;
use crate::de::DecodeErrorView;
use crate::decimal::{decimal, lemma_parse_decimal};
use crate::decode::{
    decoded, decoded_elements, decoded_fields, decoded_tuple, sequence_length,
};
use crate::lookup::{array_length, lemma_lookup_none, lemma_lookup_some, lookup};
use crate::path::{index_key, marker_key, object_key};
use crate::records::{element_records, entry_records, records_of, RecordView};
use crate::scalar::denotes;
use crate::ser::encoding;
use crate::shape::{ScalarKind, ShapeView};
use crate::value::ValueView;

verus! {

/// Every record of `part` is what `records` hold under its key.
pub open spec fn found_in(records: Seq<RecordView>, part: Seq<RecordView>) -> bool {
    forall|i: int|
        0 <= i < part.len() ==> lookup(records, (#[trigger] part[i]).0) == Some(part[i].1)
}

/// Every record is what the records hold under its key: no later record
/// with the same key holds another value.
pub open spec fn unambiguous(records: Seq<RecordView>) -> bool {
    found_in(records, records)
}

/// `shape` is a shape of `value` that names every part of it: a kind for
/// each scalar, whose text denotes a value of that kind; nothing for an
/// absent value; for a sequence either one shape for all elements, or one
/// shape for each; for a mapping its fields by name, in order, each with its
/// shape.
pub open spec fn describes(shape: ShapeView, value: ValueView) -> bool
    decreases shape,
{
    match shape {
        ShapeView::Scalar(kind) => value matches ValueView::Scalar(text) && denotes(kind, text),
        ShapeView::Unit => value is Absent,
        ShapeView::Sequence(inner) => value matches ValueView::Sequence(items) && items.len()
            <= usize::MAX && forall|i: int|
            0 <= i < items.len() ==> describes(*inner, #[trigger] items[i]),
        ShapeView::Tuple(shapes) => value matches ValueView::Sequence(items) && items.len()
            == shapes.len() && forall|i: int|
            0 <= i < shapes.len() ==> describes(#[trigger] shapes[i], items[i]),
        ShapeView::Struct(fields) => value matches ValueView::Mapping(entries) && entries.len()
            == fields.len() && forall|i: int|
            0 <= i < fields.len() ==> (#[trigger] fields[i]).0 == entries[i].0 && describes(
                fields[i].1,
                entries[i].1,
            ),
        _ => false,
    }
}

/// The shape that a value has by itself: text for a scalar, nothing for an
/// absent value, one shape for each element of a sequence, and the fields of
/// a mapping by name.
pub open spec fn shape_of(value: ValueView) -> ShapeView
    decreases value,
{
    match value {
        ValueView::Scalar(_) => ShapeView::Scalar(ScalarKind::Text),
        ValueView::Absent => ShapeView::Unit,
        ValueView::Sequence(items) => ShapeView::Tuple(
            Seq::new(
                items.len(),
                |i: int|
                    if 0 <= i < items.len() {
                        shape_of(items[i])
                    } else {
                        ShapeView::Unit
                    },
            ),
        ),
        ValueView::Mapping(entries) => ShapeView::Struct(
            Seq::new(
                entries.len(),
                |i: int|
                    if 0 <= i < entries.len() {
                        (entries[i].0, shape_of(entries[i].1))
                    } else {
                        (Seq::empty(), ShapeView::Unit)
                    },
            ),
        ),
    }
}

/// The shape that a value has by itself describes it.
pub proof fn lemma_shape_of_describes(value: ValueView)
    ensures
        describes(shape_of(value), value),
    decreases value,
{
    match value {
        ValueView::Scalar(_) => {},
        ValueView::Absent => {},
        ValueView::Sequence(items) => {
            let shapes = shape_of(value)->Tuple_0;
            assert forall|i: int| 0 <= i < shapes.len() implies describes(
                #[trigger] shapes[i],
                items[i],
            ) by {
                lemma_shape_of_describes(items[i]);
            }
        },
        ValueView::Mapping(entries) => {
            let fields = shape_of(value)->Struct_0;
            assert forall|i: int| 0 <= i < fields.len() implies (#[trigger] fields[i]).0
                == entries[i].0 && describes(fields[i].1, entries[i].1) by {
                lemma_shape_of_describes(entries[i].1);
            }
        },
    }
}

/// What is found of a whole run of records is found of each of two parts.
pub proof fn lemma_found_in_parts(records: Seq<RecordView>, a: Seq<RecordView>, b: Seq<RecordView>)
    requires
        found_in(records, a + b),
    ensures
        found_in(records, a),
        found_in(records, b),
{
    assert forall|i: int| 0 <= i < a.len() implies lookup(records, (#[trigger] a[i]).0) == Some(
        a[i].1,
    ) by {
        assert((a + b)[i] == a[i]);
    }
    assert forall|i: int| 0 <= i < b.len() implies lookup(records, (#[trigger] b[i]).0) == Some(
        b[i].1,
    ) by {
        assert((a + b)[a.len() + i] == b[i]);
    }
}

/// What is found of the records of the first `n` elements is found of those
/// of the first `m`, for `m <= n`.
proof fn lemma_found_in_elements(
    config: ConfigView,
    records: Seq<RecordView>,
    path: Seq<char>,
    items: Seq<ValueView>,
    m: nat,
    n: nat,
)
    requires
        m <= n <= items.len(),
        found_in(records, element_records(config, path, items, n)),
    ensures
        found_in(records, element_records(config, path, items, m)),
    decreases n - m,
{
    if m < n {
        lemma_found_in_parts(
            records,
            element_records(config, path, items, (n - 1) as nat),
            records_of(config, index_key(config, path, (n - 1) as nat), items[n - 1]),
        );
        lemma_found_in_elements(config, records, path, items, m, (n - 1) as nat);
    }
}

/// What is found of the records of the first `n` fields is found of those
/// of the first `m`, for `m <= n`.
proof fn lemma_found_in_entries(
    config: ConfigView,
    records: Seq<RecordView>,
    path: Seq<char>,
    entries: Seq<(Seq<char>, ValueView)>,
    m: nat,
    n: nat,
)
    requires
        m <= n <= entries.len(),
        found_in(records, entry_records(config, path, entries, n)),
    ensures
        found_in(records, entry_records(config, path, entries, m)),
    decreases n - m,
{
    if m < n {
        lemma_found_in_parts(
            records,
            entry_records(config, path, entries, (n - 1) as nat),
            records_of(config, object_key(config, path, entries[n - 1].0), entries[n - 1].1),
        );
        lemma_found_in_entries(config, records, path, entries, m, (n - 1) as nat);
    }
}

/// Decoding gives back a value from any records that hold each of the
/// value's own records under its key, for any shape that describes the value.
pub proof fn lemma_round_trip_at(
    config: ConfigView,
    records: Seq<RecordView>,
    shape: ShapeView,
    path: Seq<char>,
    value: ValueView,
)
    requires
        describes(shape, value),
        found_in(records, records_of(config, path, value)),
    ensures
        decoded(config, records, shape, path) == Ok::<ValueView, DecodeErrorView>(value),
    decreases shape, 0nat,
{
    let own = records_of(config, path, value);
    match shape {
        ShapeView::Scalar(kind) => {
            assert(own[0] == (path, value->Scalar_0));
        },
        ShapeView::Unit => {},
        ShapeView::Sequence(inner) => {
            let items = value->Sequence_0;
            let elements = element_records(config, path, items, items.len());
            assert(own.last() == (marker_key(config, path), decimal(items.len())));
            assert(own =~= elements + seq![own.last()]);
            lemma_found_in_parts(records, elements, seq![own.last()]);
            lemma_parse_decimal(items.len());
            assert(array_length(config, records, path) == Some(items.len() as usize));
            lemma_round_trip_elements(config, records, *inner, path, items, items.len());
            assert(items.take(items.len() as int) =~= items);
        },
        ShapeView::Tuple(shapes) => {
            let items = value->Sequence_0;
            let elements = element_records(config, path, items, items.len());
            assert(own =~= elements + seq![own.last()]);
            lemma_found_in_parts(records, elements, seq![own.last()]);
            lemma_round_trip_tuple(config, records, shapes, path, items, items.len());
            assert(items.take(items.len() as int) =~= items);
        },
        ShapeView::Struct(fields) => {
            let entries = value->Mapping_0;
            lemma_round_trip_fields(config, records, fields, path, entries, entries.len());
            assert(entries.take(entries.len() as int) =~= entries);
        },
        _ => {},
    }
}

/// Decoding gives back the first `n` elements of a sequence whose elements
/// all have the shape `inner`.
proof fn lemma_round_trip_elements(
    config: ConfigView,
    records: Seq<RecordView>,
    inner: ShapeView,
    path: Seq<char>,
    items: Seq<ValueView>,
    n: nat,
)
    requires
        n <= items.len(),
        forall|i: int| 0 <= i < items.len() ==> describes(inner, #[trigger] items[i]),
        found_in(records, element_records(config, path, items, items.len())),
    ensures
        decoded_elements(config, records, inner, path, n) == Ok::<Seq<ValueView>, DecodeErrorView>(
            items.take(n as int),
        ),
    decreases inner, n + 1,
{
    if n == 0 {
        assert(items.take(0) =~= Seq::<ValueView>::empty());
    } else {
        lemma_round_trip_elements(config, records, inner, path, items, (n - 1) as nat);
        lemma_found_in_elements(config, records, path, items, n, items.len());
        lemma_found_in_parts(
            records,
            element_records(config, path, items, (n - 1) as nat),
            records_of(config, index_key(config, path, (n - 1) as nat), items[n - 1]),
        );
        lemma_round_trip_at(
            config,
            records,
            inner,
            index_key(config, path, (n - 1) as nat),
            items[n - 1],
        );
        assert(items.take(n as int) =~= items.take(n - 1).push(items[n - 1]));
    }
}

/// Decoding gives back the first `n` elements of a sequence whose elements
/// have the shapes `shapes`, one each.
proof fn lemma_round_trip_tuple(
    config: ConfigView,
    records: Seq<RecordView>,
    shapes: Seq<ShapeView>,
    path: Seq<char>,
    items: Seq<ValueView>,
    n: nat,
)
    requires
        n <= items.len(),
        items.len() == shapes.len(),
        forall|i: int| 0 <= i < shapes.len() ==> describes(#[trigger] shapes[i], items[i]),
        found_in(records, element_records(config, path, items, items.len())),
    ensures
        decoded_tuple(config, records, shapes, path, n) == Ok::<Seq<ValueView>, DecodeErrorView>(
            items.take(n as int),
        ),
    decreases shapes, n,
{
    if n == 0 {
        assert(items.take(0) =~= Seq::<ValueView>::empty());
    } else {
        lemma_round_trip_tuple(config, records, shapes, path, items, (n - 1) as nat);
        lemma_found_in_elements(config, records, path, items, n, items.len());
        lemma_found_in_parts(
            records,
            element_records(config, path, items, (n - 1) as nat),
            records_of(config, index_key(config, path, (n - 1) as nat), items[n - 1]),
        );
        lemma_round_trip_at(
            config,
            records,
            shapes[n - 1],
            index_key(config, path, (n - 1) as nat),
            items[n - 1],
        );
        assert(items.take(n as int) =~= items.take(n - 1).push(items[n - 1]));
    }
}

/// Decoding gives back the first `n` fields of a mapping whose fields are
/// those of `fields`, by name and in order.
proof fn lemma_round_trip_fields(
    config: ConfigView,
    records: Seq<RecordView>,
    fields: Seq<(Seq<char>, ShapeView)>,
    path: Seq<char>,
    entries: Seq<(Seq<char>, ValueView)>,
    n: nat,
)
    requires
        n <= entries.len(),
        entries.len() == fields.len(),
        forall|i: int|
            0 <= i < fields.len() ==> (#[trigger] fields[i]).0 == entries[i].0 && describes(
                fields[i].1,
                entries[i].1,
            ),
        found_in(records, entry_records(config, path, entries, entries.len())),
    ensures
        decoded_fields(config, records, fields, path, n) == Ok::<
            Seq<(Seq<char>, ValueView)>,
            DecodeErrorView,
        >(entries.take(n as int)),
    decreases fields, n,
{
    if n == 0 {
        assert(entries.take(0) =~= Seq::<(Seq<char>, ValueView)>::empty());
    } else {
        lemma_round_trip_fields(config, records, fields, path, entries, (n - 1) as nat);
        lemma_found_in_entries(config, records, path, entries, n, entries.len());
        lemma_found_in_parts(
            records,
            entry_records(config, path, entries, (n - 1) as nat),
            records_of(config, object_key(config, path, entries[n - 1].0), entries[n - 1].1),
        );
        assert(fields[n - 1].0 == entries[n - 1].0);
        lemma_round_trip_at(
            config,
            records,
            fields[n - 1].1,
            object_key(config, path, entries[n - 1].0),
            entries[n - 1].1,
        );
        assert(entries.take(n as int) =~= entries.take(n - 1).push(entries[n - 1]));
    }
}

/// Round trip: where the encoding of a value succeeds, and none of its
/// records is overwritten by a later one with the same key and another
/// value, decoding the records for a shape that describes the value gives
/// the value back.
pub proof fn lemma_round_trip(config: ConfigView, value: ValueView, shape: ShapeView)
    requires
        describes(shape, value),
        encoding(config, value) is Ok,
        unambiguous(encoding(config, value)->Ok_0),
    ensures
        decoded(config, encoding(config, value)->Ok_0, shape, Seq::empty()) == Ok::<
            ValueView,
            DecodeErrorView,
        >(value),
{
    lemma_round_trip_at(
        config,
        records_of(config, Seq::empty(), value),
        shape,
        Seq::empty(),
        value,
    );
}

/// Round trip for the shape that a value has by itself.
pub proof fn lemma_round_trip_own_shape(config: ConfigView, value: ValueView)
    requires
        encoding(config, value) is Ok,
        unambiguous(encoding(config, value)->Ok_0),
    ensures
        decoded(config, encoding(config, value)->Ok_0, shape_of(value), Seq::empty()) == Ok::<
            ValueView,
            DecodeErrorView,
        >(value),
{
    lemma_shape_of_describes(value);
    lemma_round_trip(config, value, shape_of(value));
}

/// Records whose keys are all different are unambiguous.
pub proof fn lemma_distinct_keys_unambiguous(records: Seq<RecordView>)
    requires
        forall|i: int, j: int|
            0 <= i < j < records.len() ==> (#[trigger] records[i]).0 != (#[trigger] records[j]).0,
    ensures
        unambiguous(records),
{
    assert forall|i: int| 0 <= i < records.len() implies lookup(
        records,
        (#[trigger] records[i]).0,
    ) == Some(records[i].1) by {
        let key = records[i].0;
        lemma_lookup_none(records, key);
        lemma_lookup_some(records, key);
        let k = choose|k: int|
            0 <= k < records.len() && (#[trigger] records[k]).0 == key && records[k].1 == lookup(
                records,
                key,
            )->0 && forall|j: int| k < j < records.len() ==> (#[trigger] records[j]).0 != key;
        if k < i {
            assert(records[k].0 != records[i].0);
        } else if i < k {
            assert(records[i].0 != records[k].0);
        }
    }
}

/// The records hold every part of `value` that a decoder reads for `shape`
/// where it looks for it: each scalar under its path, and under the marker
/// of each sequence whose length is read, a text that denotes that length.
pub open spec fn legible(
    config: ConfigView,
    records: Seq<RecordView>,
    shape: ShapeView,
    path: Seq<char>,
    value: ValueView,
) -> bool
    decreases shape,
{
    match shape {
        ShapeView::Scalar(_) => value matches ValueView::Scalar(text) && lookup(records, path)
            == Some(text),
        ShapeView::Unit => true,
        ShapeView::Sequence(inner) => value matches ValueView::Sequence(items) && items.len()
            <= usize::MAX && array_length(config, records, path) == Some(items.len() as usize)
            && forall|i: int|
            0 <= i < items.len() ==> legible(
                config,
                records,
                *inner,
                index_key(config, path, i as nat),
                #[trigger] items[i],
            ),
        ShapeView::Tuple(shapes) => value matches ValueView::Sequence(items) && forall|i: int|
            0 <= i < shapes.len() && i < items.len() ==> legible(
                config,
                records,
                #[trigger] shapes[i],
                index_key(config, path, i as nat),
                items[i],
            ),
        ShapeView::Struct(fields) => value matches ValueView::Mapping(entries) && forall|i: int|
            0 <= i < fields.len() && i < entries.len() ==> legible(
                config,
                records,
                (#[trigger] fields[i]).1,
                object_key(config, path, fields[i].0),
                entries[i].1,
            ),
        _ => false,
    }
}

/// Decoded elements are as many as asked for, each what is decoded at the
/// path of its index; and elements so decoded make the decoded sequence.
proof fn lemma_decoded_elements_parts(
    config: ConfigView,
    records: Seq<RecordView>,
    inner: ShapeView,
    path: Seq<char>,
    items: Seq<ValueView>,
    n: nat,
)
    requires
        n <= items.len(),
    ensures
        decoded_elements(config, records, inner, path, n) == Ok::<
            Seq<ValueView>,
            DecodeErrorView,
        >(items.take(n as int)) <==> forall|i: int|
            0 <= i < n ==> decoded(config, records, inner, index_key(config, path, i as nat))
                == Ok::<ValueView, DecodeErrorView>(#[trigger] items[i]),
    decreases n,
{
    if n == 0 {
        assert(items.take(0) =~= Seq::<ValueView>::empty());
    } else {
        let m = (n - 1) as nat;
        lemma_decoded_elements_parts(config, records, inner, path, items, m);
        let earlier = decoded_elements(config, records, inner, path, m);
        let last = decoded(config, records, inner, index_key(config, path, m));
        assert(items.take(n as int) =~= items.take(m as int).push(items[m as int]));
        assert(items.take(n as int).drop_last() =~= items.take(m as int));
        if decoded_elements(config, records, inner, path, n) == Ok::<
            Seq<ValueView>,
            DecodeErrorView,
        >(items.take(n as int)) {
            assert(earlier->Ok_0.push(last->Ok_0) == items.take(n as int));
            assert(earlier->Ok_0 =~= items.take(n as int).drop_last());
            assert(last->Ok_0 == items.take(n as int).last());
        }
    }
}

/// Decoded tuple elements are as many as asked for, each what is decoded at
/// the path of its index for its own shape; and elements so decoded make the
/// decoded sequence.
proof fn lemma_decoded_tuple_parts(
    config: ConfigView,
    records: Seq<RecordView>,
    shapes: Seq<ShapeView>,
    path: Seq<char>,
    items: Seq<ValueView>,
    n: nat,
)
    requires
        n <= items.len(),
        n <= shapes.len(),
    ensures
        decoded_tuple(config, records, shapes, path, n) == Ok::<Seq<ValueView>, DecodeErrorView>(
            items.take(n as int),
        ) <==> forall|i: int|
            0 <= i < n ==> decoded(
                config,
                records,
                #[trigger] shapes[i],
                index_key(config, path, i as nat),
            ) == Ok::<ValueView, DecodeErrorView>(items[i]),
    decreases n,
{
    if n == 0 {
        assert(items.take(0) =~= Seq::<ValueView>::empty());
    } else {
        let m = (n - 1) as nat;
        lemma_decoded_tuple_parts(config, records, shapes, path, items, m);
        let earlier = decoded_tuple(config, records, shapes, path, m);
        let last = decoded(config, records, shapes[m as int], index_key(config, path, m));
        assert(items.take(n as int) =~= items.take(m as int).push(items[m as int]));
        assert(items.take(n as int).drop_last() =~= items.take(m as int));
        if decoded_tuple(config, records, shapes, path, n) == Ok::<Seq<ValueView>, DecodeErrorView>(
            items.take(n as int),
        ) {
            assert(earlier->Ok_0.push(last->Ok_0) == items.take(n as int));
            assert(earlier->Ok_0 =~= items.take(n as int).drop_last());
            assert(last->Ok_0 == items.take(n as int).last());
        }
    }
}

/// Decoded fields are as many as asked for, each what is decoded at the
/// path of its name for its own shape; and fields so decoded make the
/// decoded mapping.
proof fn lemma_decoded_fields_parts(
    config: ConfigView,
    records: Seq<RecordView>,
    fields: Seq<(Seq<char>, ShapeView)>,
    path: Seq<char>,
    entries: Seq<(Seq<char>, ValueView)>,
    n: nat,
)
    requires
        n <= entries.len(),
        n <= fields.len(),
        forall|i: int| 0 <= i < n ==> (#[trigger] fields[i]).0 == entries[i].0,
    ensures
        decoded_fields(config, records, fields, path, n) == Ok::<
            Seq<(Seq<char>, ValueView)>,
            DecodeErrorView,
        >(entries.take(n as int)) <==> forall|i: int|
            0 <= i < n ==> decoded(
                config,
                records,
                (#[trigger] fields[i]).1,
                object_key(config, path, fields[i].0),
            ) == Ok::<ValueView, DecodeErrorView>(entries[i].1),
    decreases n,
{
    if n == 0 {
        assert(entries.take(0) =~= Seq::<(Seq<char>, ValueView)>::empty());
    } else {
        let m = (n - 1) as nat;
        lemma_decoded_fields_parts(config, records, fields, path, entries, m);
        let earlier = decoded_fields(config, records, fields, path, m);
        let last = decoded(
            config,
            records,
            fields[m as int].1,
            object_key(config, path, fields[m as int].0),
        );
        assert(entries.take(n as int) =~= entries.take(m as int).push(entries[m as int]));
        assert(entries.take(n as int).drop_last() =~= entries.take(m as int));
        assert(fields[m as int].0 == entries[m as int].0);
        if decoded_fields(config, records, fields, path, n) == Ok::<
            Seq<(Seq<char>, ValueView)>,
            DecodeErrorView,
        >(entries.take(n as int)) {
            assert(earlier->Ok_0.push((fields[m as int].0, last->Ok_0)) == entries.take(
                n as int,
            ));
            assert(earlier->Ok_0 =~= entries.take(n as int).drop_last());
            assert((fields[m as int].0, last->Ok_0) == entries.take(n as int).last());
        }
    }
}

/// Decoding for a shape that describes a value gives that value exactly
/// where the records hold every part of it that the decoder reads.
pub proof fn lemma_decoded_exactly(
    config: ConfigView,
    records: Seq<RecordView>,
    shape: ShapeView,
    path: Seq<char>,
    value: ValueView,
)
    requires
        describes(shape, value),
    ensures
        decoded(config, records, shape, path) == Ok::<ValueView, DecodeErrorView>(value)
            <==> legible(config, records, shape, path, value),
    decreases shape,
{
    match shape {
        ShapeView::Sequence(inner) => {
            let items = value->Sequence_0;
            assert forall|i: int| 0 <= i < items.len() implies (decoded(
                config,
                records,
                *inner,
                index_key(config, path, i as nat),
            ) == Ok::<ValueView, DecodeErrorView>(#[trigger] items[i]) <==> legible(
                config,
                records,
                *inner,
                index_key(config, path, i as nat),
                items[i],
            )) by {
                lemma_decoded_exactly(
                    config,
                    records,
                    *inner,
                    index_key(config, path, i as nat),
                    items[i],
                );
            }
            lemma_decoded_elements_parts(config, records, *inner, path, items, items.len());
            assert(items.take(items.len() as int) =~= items);
            if decoded(config, records, shape, path) == Ok::<ValueView, DecodeErrorView>(value) {
                let n = sequence_length(config, records, path)->Ok_0;
                lemma_decoded_elements_len(config, records, *inner, path, n as nat);
            }
        },
        ShapeView::Tuple(shapes) => {
            let items = value->Sequence_0;
            assert forall|i: int| 0 <= i < shapes.len() implies (decoded(
                config,
                records,
                #[trigger] shapes[i],
                index_key(config, path, i as nat),
            ) == Ok::<ValueView, DecodeErrorView>(items[i]) <==> legible(
                config,
                records,
                shapes[i],
                index_key(config, path, i as nat),
                items[i],
            )) by {
                lemma_decoded_exactly(
                    config,
                    records,
                    shapes[i],
                    index_key(config, path, i as nat),
                    items[i],
                );
            }
            lemma_decoded_tuple_parts(config, records, shapes, path, items, items.len());
            assert(items.take(items.len() as int) =~= items);
        },
        ShapeView::Struct(fields) => {
            let entries = value->Mapping_0;
            assert forall|i: int| 0 <= i < fields.len() implies (decoded(
                config,
                records,
                (#[trigger] fields[i]).1,
                object_key(config, path, fields[i].0),
            ) == Ok::<ValueView, DecodeErrorView>(entries[i].1) <==> legible(
                config,
                records,
                fields[i].1,
                object_key(config, path, fields[i].0),
                entries[i].1,
            )) by {
                lemma_decoded_exactly(
                    config,
                    records,
                    fields[i].1,
                    object_key(config, path, fields[i].0),
                    entries[i].1,
                );
            }
            lemma_decoded_fields_parts(config, records, fields, path, entries, entries.len());
            assert(entries.take(entries.len() as int) =~= entries);
        },
        _ => {},
    }
}

/// Decoded elements are as many as asked for.
proof fn lemma_decoded_elements_len(
    config: ConfigView,
    records: Seq<RecordView>,
    inner: ShapeView,
    path: Seq<char>,
    n: nat,
)
    ensures
        decoded_elements(config, records, inner, path, n) matches Ok(items) ==> items.len() == n,
    decreases n,
{
    if n > 0 {
        lemma_decoded_elements_len(config, records, inner, path, (n - 1) as nat);
    }
}

/// Round trip, exactly: where the encoding of a value succeeds, decoding its
/// records for a shape that describes the value gives the value back if and
/// only if the records hold every part of the value that the decoder reads.
pub proof fn lemma_round_trip_exactly(config: ConfigView, value: ValueView, shape: ShapeView)
    requires
        describes(shape, value),
        encoding(config, value) is Ok,
    ensures
        decoded(config, encoding(config, value)->Ok_0, shape, Seq::empty()) == Ok::<
            ValueView,
            DecodeErrorView,
        >(value) <==> legible(
            config,
            encoding(config, value)->Ok_0,
            shape,
            Seq::empty(),
            value,
        ),
{
    lemma_decoded_exactly(config, encoding(config, value)->Ok_0, shape, Seq::empty(), value);
}

} // verus!
