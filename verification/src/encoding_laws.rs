//! What holds of every encoding: how many records a value has, where they
//! lie, how a sequence is laid out, and which texts scalars get.

use vstd::prelude::*;
use crate::config::ConfigView;
use crate::decimal::{
    decimal, is_digit, lemma_decimal_digits, lemma_parse_decimal, lemma_parse_signed_decimal,
    signed_decimal,
};
use crate::path::{index_key, marker_key, object_key};
use crate::records::{
    all_fit, element_records, entry_records, lemma_fitting_prefix_bounds, records_of, RecordView,
};
use crate::scalar::{bool_of, char_of, denotes, signed_of, unsigned_of};
use crate::ser::{bool_text, encoding};
use crate::shape::ScalarKind;
use crate::text::starts_with;
use crate::value::ValueView;

verus! {

/// The number of scalars in a value.
pub open spec fn scalar_count(value: ValueView) -> nat
    decreases value,
{
    match value {
        ValueView::Scalar(_) => 1,
        ValueView::Absent => 0,
        ValueView::Sequence(items) => scalar_count_items(items, items.len()),
        ValueView::Mapping(entries) => scalar_count_entries(entries, entries.len()),
    }
}

/// The number of scalars in the first `n` items.
pub open spec fn scalar_count_items(items: Seq<ValueView>, n: nat) -> nat
    decreases items, n,
{
    if n == 0 || n > items.len() {
        0
    } else {
        scalar_count_items(items, (n - 1) as nat) + scalar_count(items[n - 1])
    }
}

/// The number of scalars in the first `n` entries.
pub open spec fn scalar_count_entries(entries: Seq<(Seq<char>, ValueView)>, n: nat) -> nat
    decreases entries, n,
{
    if n == 0 || n > entries.len() {
        0
    } else {
        scalar_count_entries(entries, (n - 1) as nat) + scalar_count(entries[n - 1].1)
    }
}

/// The number of sequences in a value, itself included.
pub open spec fn sequence_count(value: ValueView) -> nat
    decreases value,
{
    match value {
        ValueView::Scalar(_) => 0,
        ValueView::Absent => 0,
        ValueView::Sequence(items) => 1 + sequence_count_items(items, items.len()),
        ValueView::Mapping(entries) => sequence_count_entries(entries, entries.len()),
    }
}

/// The number of sequences in the first `n` items.
pub open spec fn sequence_count_items(items: Seq<ValueView>, n: nat) -> nat
    decreases items, n,
{
    if n == 0 || n > items.len() {
        0
    } else {
        sequence_count_items(items, (n - 1) as nat) + sequence_count(items[n - 1])
    }
}

/// The number of sequences in the first `n` entries.
pub open spec fn sequence_count_entries(entries: Seq<(Seq<char>, ValueView)>, n: nat) -> nat
    decreases entries, n,
{
    if n == 0 || n > entries.len() {
        0
    } else {
        sequence_count_entries(entries, (n - 1) as nat) + sequence_count(entries[n - 1].1)
    }
}

/// A value has one record for each of its scalars and one for each of its
/// sequences, and no other.
pub proof fn lemma_record_count(config: ConfigView, path: Seq<char>, value: ValueView)
    ensures
        records_of(config, path, value).len() == scalar_count(value) + sequence_count(value),
    decreases value, 0nat,
{
    match value {
        ValueView::Scalar(_) => {},
        ValueView::Absent => {},
        ValueView::Sequence(items) => {
            lemma_record_count_items(config, path, items, items.len());
        },
        ValueView::Mapping(entries) => {
            lemma_record_count_entries(config, path, entries, entries.len());
        },
    }
}

/// The first `n` items have one record for each of their scalars and one for
/// each of their sequences.
pub proof fn lemma_record_count_items(
    config: ConfigView,
    path: Seq<char>,
    items: Seq<ValueView>,
    n: nat,
)
    requires
        n <= items.len(),
    ensures
        element_records(config, path, items, n).len() == scalar_count_items(items, n)
            + sequence_count_items(items, n),
    decreases items, n,
{
    if n > 0 {
        lemma_record_count_items(config, path, items, (n - 1) as nat);
        lemma_record_count(config, index_key(config, path, (n - 1) as nat), items[n - 1]);
    }
}

/// The first `n` entries have one record for each of their scalars and one
/// for each of their sequences.
pub proof fn lemma_record_count_entries(
    config: ConfigView,
    path: Seq<char>,
    entries: Seq<(Seq<char>, ValueView)>,
    n: nat,
)
    requires
        n <= entries.len(),
    ensures
        entry_records(config, path, entries, n).len() == scalar_count_entries(entries, n)
            + sequence_count_entries(entries, n),
    decreases entries, n,
{
    if n > 0 {
        lemma_record_count_entries(config, path, entries, (n - 1) as nat);
        lemma_record_count(
            config,
            object_key(config, path, entries[n - 1].0),
            entries[n - 1].1,
        );
    }
}

/// Every record of a value lies under the value's path: its key begins with
/// the path.
pub proof fn lemma_keys_under_path(config: ConfigView, path: Seq<char>, value: ValueView)
    ensures
        forall|i: int|
            0 <= i < records_of(config, path, value).len() ==> starts_with(
                (#[trigger] records_of(config, path, value)[i]).0,
                path,
            ),
    decreases value, 0nat,
{
    let records = records_of(config, path, value);
    match value {
        ValueView::Scalar(_) => {
            assert(path.subrange(0, path.len() as int) =~= path);
        },
        ValueView::Absent => {},
        ValueView::Sequence(items) => {
            let elements = element_records(config, path, items, items.len());
            lemma_element_keys_under_path(config, path, items, items.len());
            let marker = marker_key(config, path);
            assert(marker.subrange(0, path.len() as int) =~= path);
            assert forall|i: int| 0 <= i < records.len() implies starts_with(
                (#[trigger] records[i]).0,
                path,
            ) by {
                if i < elements.len() {
                    assert(records[i] == elements[i]);
                }
            }
        },
        ValueView::Mapping(entries) => {
            lemma_entry_keys_under_path(config, path, entries, entries.len());
            assert(records == entry_records(config, path, entries, entries.len()));
            assert forall|i: int| 0 <= i < records.len() implies starts_with(
                (#[trigger] records[i]).0,
                path,
            ) by {
                assert(records[i] == entry_records(config, path, entries, entries.len())[i]);
            }
        },
    }
}

/// A text that begins with a text that begins with `path` begins with `path`.
pub proof fn lemma_starts_with_trans(key: Seq<char>, child: Seq<char>, path: Seq<char>)
    requires
        starts_with(key, child),
        starts_with(child, path),
    ensures
        starts_with(key, path),
{
    assert(key.subrange(0, path.len() as int) =~= key.subrange(0, child.len() as int).subrange(
        0,
        path.len() as int,
    ));
}

/// Every record of the first `n` elements of a sequence lies under the
/// sequence's path.
pub proof fn lemma_element_keys_under_path(
    config: ConfigView,
    path: Seq<char>,
    items: Seq<ValueView>,
    n: nat,
)
    requires
        n <= items.len(),
    ensures
        forall|i: int|
            0 <= i < element_records(config, path, items, n).len() ==> starts_with(
                (#[trigger] element_records(config, path, items, n)[i]).0,
                path,
            ),
    decreases items, n,
{
    if n > 0 {
        let earlier = element_records(config, path, items, (n - 1) as nat);
        let child = index_key(config, path, (n - 1) as nat);
        let part = records_of(config, child, items[n - 1]);
        lemma_element_keys_under_path(config, path, items, (n - 1) as nat);
        lemma_keys_under_path(config, child, items[n - 1]);
        assert(child.subrange(0, path.len() as int) =~= path);
        assert forall|i: int| 0 <= i < (earlier + part).len() implies starts_with(
            (#[trigger] (earlier + part)[i]).0,
            path,
        ) by {
            if i >= earlier.len() {
                assert((earlier + part)[i] == part[i - earlier.len()]);
                lemma_starts_with_trans(part[i - earlier.len()].0, child, path);
            } else {
                assert((earlier + part)[i] == earlier[i]);
            }
        }
    }
}

/// Every record of the first `n` fields of a mapping lies under the
/// mapping's path.
pub proof fn lemma_entry_keys_under_path(
    config: ConfigView,
    path: Seq<char>,
    entries: Seq<(Seq<char>, ValueView)>,
    n: nat,
)
    requires
        n <= entries.len(),
    ensures
        forall|i: int|
            0 <= i < entry_records(config, path, entries, n).len() ==> starts_with(
                (#[trigger] entry_records(config, path, entries, n)[i]).0,
                path,
            ),
    decreases entries, n,
{
    if n > 0 {
        let earlier = entry_records(config, path, entries, (n - 1) as nat);
        let child = object_key(config, path, entries[n - 1].0);
        let part = records_of(config, child, entries[n - 1].1);
        lemma_entry_keys_under_path(config, path, entries, (n - 1) as nat);
        lemma_keys_under_path(config, child, entries[n - 1].1);
        assert(child.subrange(0, path.len() as int) =~= path);
        assert forall|i: int| 0 <= i < (earlier + part).len() implies starts_with(
            (#[trigger] (earlier + part)[i]).0,
            path,
        ) by {
            if i >= earlier.len() {
                assert((earlier + part)[i] == part[i - earlier.len()]);
                lemma_starts_with_trans(part[i - earlier.len()].0, child, path);
            } else {
                assert((earlier + part)[i] == earlier[i]);
            }
        }
    }
}

/// The length suffix cannot be taken for the start of an element's path: it
/// does not begin with the array separator followed by a digit.
pub open spec fn suffix_apart(config: ConfigView) -> bool {
    forall|digit: char|
        is_digit(digit) ==> !starts_with(
            config.array_len_suffix,
            #[trigger] config.array_separator.push(digit),
        )
}

/// The layout of an encoded sequence of `N` elements at `path`: the records
/// of element 0, then those of element 1, and so on to element `N - 1`, each
/// group under the path of its element, and then one length marker that
/// carries `N`. Where the length suffix cannot be taken for the start of an
/// element's path, no other record of the sequence has the marker's key.
pub proof fn lemma_sequence_layout(config: ConfigView, path: Seq<char>, items: Seq<ValueView>)
    ensures
        ({
            let records = records_of(config, path, ValueView::Sequence(items));
            let elements = element_records(config, path, items, items.len());
            &&& records == elements.push((marker_key(config, path), decimal(items.len())))
            &&& element_records(config, path, items, 0) == Seq::<RecordView>::empty()
            &&& forall|i: nat|
                i < items.len() ==> #[trigger] element_records(config, path, items, i + 1)
                    == element_records(config, path, items, i) + records_of(
                    config,
                    index_key(config, path, i),
                    items[i as int],
                )
            &&& suffix_apart(config) ==> forall|j: int|
                0 <= j < elements.len() ==> (#[trigger] records[j]).0 != marker_key(config, path)
        }),
{
    let records = records_of(config, path, ValueView::Sequence(items));
    let elements = element_records(config, path, items, items.len());
    let marker = marker_key(config, path);
    if suffix_apart(config) {
        assert forall|j: int| 0 <= j < elements.len() implies (#[trigger] records[j]).0
            != marker by {
            lemma_element_keys_apart(config, path, items, items.len(), j);
        }
    }
}

/// No record of the first `n` elements of a sequence has the key of the
/// sequence's length marker, where the length suffix cannot be taken for the
/// start of an element's path.
pub proof fn lemma_element_keys_apart(
    config: ConfigView,
    path: Seq<char>,
    items: Seq<ValueView>,
    n: nat,
    j: int,
)
    requires
        n <= items.len(),
        suffix_apart(config),
        0 <= j < element_records(config, path, items, n).len(),
    ensures
        element_records(config, path, items, n)[j].0 != marker_key(config, path),
    decreases n,
{
    let earlier = element_records(config, path, items, (n - 1) as nat);
    if j < earlier.len() {
        lemma_element_keys_apart(config, path, items, (n - 1) as nat, j);
    } else {
        let child = index_key(config, path, (n - 1) as nat);
        let part = records_of(config, child, items[n - 1]);
        let key = part[j - earlier.len()].0;
        let marker = marker_key(config, path);
        lemma_keys_under_path(config, child, items[n - 1]);
        assert(starts_with(key, child));
        lemma_decimal_digits((n - 1) as nat);
        let digit = decimal((n - 1) as nat)[0];
        let head = config.array_separator.push(digit);
        if key == marker {
            // The marker would begin with the element's path, so the suffix
            // would begin with the separator and the index's first digit.
            let start = path.len() as int;
            assert(marker.subrange(0, child.len() as int) == child);
            assert(config.array_len_suffix.subrange(0, head.len() as int) =~= head) by {
                assert forall|k: int| 0 <= k < head.len() implies config.array_len_suffix[k]
                    == head[k] by {
                    assert(marker[start + k] == child[start + k]);
                    assert(marker.subrange(0, child.len() as int)[start + k] == marker[start
                        + k]);
                }
            }
            assert(starts_with(config.array_len_suffix, head));
            assert(false);
        }
    }
}

/// Every record of a successful encoding is within the length ceiling.
pub proof fn lemma_encoded_records_fit(config: ConfigView, value: ValueView)
    ensures
        encoding(config, value) matches Ok(records) ==> all_fit(config, records),
        encoding(config, value) is Err ==> !all_fit(
            config,
            records_of(config, Seq::empty(), value),
        ),
{
    lemma_fitting_prefix_bounds(config, records_of(config, Seq::empty(), value));
}

/// A scalar field at the root is one record whose key is the field's name
/// as it is, with no separator added.
pub proof fn lemma_root_field_key(config: ConfigView, name: Seq<char>, text: Seq<char>)
    ensures
        records_of(
            config,
            Seq::empty(),
            ValueView::Mapping(seq![(name, ValueView::Scalar(text))]),
        ) == seq![(name, text)],
{
    let entries = seq![(name, ValueView::Scalar(text))];
    assert(entry_records(config, Seq::empty(), entries, 0) =~= Seq::<RecordView>::empty());
    assert(object_key(config, Seq::empty(), name) == name);
    assert(records_of(config, name, entries[0].1) =~= seq![(name, text)]);
    assert(entry_records(config, Seq::empty(), entries, 1) =~= seq![(name, text)]);
}

/// The text that the encoder gives a boolean denotes that boolean.
pub proof fn lemma_bool_text_denotes(v: bool)
    ensures
        bool_of(bool_text(v)) == Some(v),
        denotes(ScalarKind::Bool, bool_text(v)),
{
    assert(bool_text(true)[0] != bool_text(false)[0]);
}

/// The text that the encoder gives a character denotes that character.
pub proof fn lemma_char_text_denotes(v: char)
    ensures
        char_of(seq![v]) == Some(v),
        denotes(ScalarKind::Char, seq![v]),
{
}

/// The text that the encoder gives an integer denotes that integer, for
/// every kind of integer that can hold it.
pub proof fn lemma_integer_text_denotes(v: int)
    ensures
        signed_of(signed_decimal(v), v, v) == Some(v),
        v >= 0 ==> unsigned_of(decimal(v as nat), v) == Some(v),
        forall|min: int, max: int|
            min <= v <= max ==> #[trigger] signed_of(signed_decimal(v), min, max) == Some(v),
{
    lemma_parse_signed_decimal(v);
    if v >= 0 {
        lemma_parse_decimal(v as nat);
    }
}

} // verus!
