//! What a set of records shows at a path: the value stored under a key, the
//! length of a sequence, and the field names that lie under a mapping.
//!
//! Records are held in the order they came in. Where two records share a
//! key, the later one counts.

use vstd::prelude::*;
use crate::config::ConfigView;
use crate::decimal::parse_unsigned;
use crate::path::marker_key;
use crate::records::RecordView;
use crate::text::{ends_with, first_index_of, starts_with};

verus! {

/// The value of the last record whose key is `key`.
pub open spec fn lookup(records: Seq<RecordView>, key: Seq<char>) -> Option<Seq<char>>
    decreases records.len(),
{
    if records.len() == 0 {
        None
    } else if records.last().0 == key {
        Some(records.last().1)
    } else {
        lookup(records.drop_last(), key)
    }
}

/// The length that the marker of the sequence at `base` carries, where there
/// is a marker and its text is an unsigned decimal that a `usize` holds.
pub open spec fn array_length(config: ConfigView, records: Seq<RecordView>, base: Seq<char>)
    -> Option<usize> {
    match lookup(records, marker_key(config, base)) {
        Some(text) => match parse_unsigned(text) {
            Some(n) if n <= usize::MAX => Some(n as usize),
            _ => None,
        },
        None => None,
    }
}

/// What stands before a field's name in every key under the mapping at
/// `base`: nothing at the empty root, else `base` and the object separator.
pub open spec fn field_prefix(config: ConfigView, base: Seq<char>) -> Seq<char> {
    if base.len() == 0 {
        Seq::empty()
    } else {
        base + config.object_separator
    }
}

/// `text` without the length suffix, if it ends in it.
pub open spec fn without_suffix(config: ConfigView, text: Seq<char>) -> Seq<char> {
    if ends_with(text, config.array_len_suffix) {
        text.subrange(0, text.len() - config.array_len_suffix.len())
    } else {
        text
    }
}

/// The first position in `text` where a separator of either kind occurs.
pub open spec fn first_separator(config: ConfigView, text: Seq<char>) -> Option<int> {
    match (
        first_index_of(text, config.object_separator),
        first_index_of(text, config.array_separator),
    ) {
        (Some(p), Some(q)) => Some(if p <= q { p } else { q }),
        (Some(p), None) => Some(p),
        (None, Some(q)) => Some(q),
        (None, None) => None,
    }
}

/// The first path segment of `text`: what precedes its first separator of
/// either kind, or all of it where it has none.
pub open spec fn first_segment(config: ConfigView, text: Seq<char>) -> Seq<char> {
    match first_separator(config, text) {
        Some(p) => text.subrange(0, p),
        None => text,
    }
}

/// The field name that a record key shows under the mapping at `base`.
///
/// Only a key that lies under the mapping shows one: at the empty root every
/// key, else a key that begins with `base` and the object separator. The
/// field is the first path segment of what follows. A length marker shows
/// the field that holds its sequence: the length suffix at the end of a key
/// is set aside before the segment is taken, so that a sequence without
/// elements is found by its marker alone. A key whose remainder begins with a
/// separator shows the field with the empty name.
pub open spec fn segment(config: ConfigView, base: Seq<char>, key: Seq<char>) -> Option<
    Seq<char>,
> {
    let prefix = field_prefix(config, base);
    if starts_with(key, prefix) {
        Some(
            first_segment(
                config,
                without_suffix(config, key.subrange(prefix.len() as int, key.len() as int)),
            ),
        )
    } else {
        None
    }
}

/// The distinct field names that the first `n` records show under the
/// mapping at `base`, each at the place of its first appearance.
pub open spec fn object_keys_upto(
    config: ConfigView,
    records: Seq<RecordView>,
    base: Seq<char>,
    n: nat,
) -> Seq<Seq<char>>
    decreases n,
{
    if n == 0 || n > records.len() {
        Seq::empty()
    } else {
        let earlier = object_keys_upto(config, records, base, (n - 1) as nat);
        match segment(config, base, records[n - 1].0) {
            Some(name) if !earlier.contains(name) => earlier.push(name),
            _ => earlier,
        }
    }
}

/// The distinct field names that the records show under the mapping at
/// `base`, in order of first appearance.
pub open spec fn object_keys(config: ConfigView, records: Seq<RecordView>, base: Seq<char>)
    -> Seq<Seq<char>> {
    object_keys_upto(config, records, base, records.len())
}

/// Something lies at or under `path`: a scalar, a length marker, or a field.
pub open spec fn present(config: ConfigView, records: Seq<RecordView>, path: Seq<char>) -> bool {
    ||| lookup(records, path) is Some
    ||| lookup(records, marker_key(config, path)) is Some
    ||| object_keys(config, records, path).len() > 0
}

/// The length of the longest key among the records.
pub open spec fn max_key_len(records: Seq<RecordView>) -> nat
    decreases records.len(),
{
    if records.len() == 0 {
        0
    } else {
        let rest = max_key_len(records.drop_last());
        if records.last().0.len() > rest {
            records.last().0.len()
        } else {
            rest
        }
    }
}

/// No key is longer than `max_key_len`.
pub proof fn lemma_max_key_len(records: Seq<RecordView>, i: int)
    requires
        0 <= i < records.len(),
    ensures
        records[i].0.len() <= max_key_len(records),
    decreases records.len(),
{
    if i < records.len() - 1 {
        lemma_max_key_len(records.drop_last(), i);
    }
}

/// A key that `lookup` finds is the key of some record, and the value found
/// is that of the last such record.
pub proof fn lemma_lookup_some(records: Seq<RecordView>, key: Seq<char>)
    requires
        lookup(records, key) is Some,
    ensures
        exists|i: int|
            0 <= i < records.len() && (#[trigger] records[i]).0 == key && records[i].1 == lookup(
                records,
                key,
            )->0 && forall|j: int| i < j < records.len() ==> (#[trigger] records[j]).0 != key,
    decreases records.len(),
{
    if records.last().0 == key {
        let i = records.len() - 1;
        assert(records[i].0 == key);
    } else {
        let rest = records.drop_last();
        lemma_lookup_some(rest, key);
        let i = choose|i: int|
            0 <= i < rest.len() && (#[trigger] rest[i]).0 == key && rest[i].1 == lookup(
                rest,
                key,
            )->0 && forall|j: int| i < j < rest.len() ==> (#[trigger] rest[j]).0 != key;
        assert(records[i] == rest[i]);
        assert forall|j: int| i < j < records.len() implies (#[trigger] records[j]).0 != key by {
            if j < rest.len() {
                assert(records[j] == rest[j]);
            }
        }
    }
}

/// `lookup` finds nothing exactly when no record has the key.
pub proof fn lemma_lookup_none(records: Seq<RecordView>, key: Seq<char>)
    ensures
        lookup(records, key) is None <==> forall|i: int|
            0 <= i < records.len() ==> (#[trigger] records[i]).0 != key,
    decreases records.len(),
{
    if records.len() > 0 {
        let rest = records.drop_last();
        lemma_lookup_none(rest, key);
        if lookup(records, key) is None {
            assert forall|i: int| 0 <= i < records.len() implies (#[trigger] records[i]).0
                != key by {
                if i < rest.len() {
                    assert(records[i] == rest[i]);
                }
            }
        } else if records.last().0 != key {
            let i = choose|i: int| 0 <= i < rest.len() && (#[trigger] rest[i]).0 == key;
            assert(records[i] == rest[i]);
        }
    }
}

/// A key that `lookup` finds is no longer than the longest key.
pub proof fn lemma_lookup_key_len(records: Seq<RecordView>, key: Seq<char>)
    requires
        lookup(records, key) is Some,
    ensures
        key.len() <= max_key_len(records),
{
    lemma_lookup_some(records, key);
    let i = choose|i: int| 0 <= i < records.len() && (#[trigger] records[i]).0 == key;
    lemma_max_key_len(records, i);
}

/// The field names found are distinct.
pub proof fn lemma_object_keys_distinct(
    config: ConfigView,
    records: Seq<RecordView>,
    base: Seq<char>,
    n: nat,
)
    requires
        n <= records.len(),
    ensures
        object_keys_upto(config, records, base, n).no_duplicates(),
    decreases n,
{
    if n > 0 {
        lemma_object_keys_distinct(config, records, base, (n - 1) as nat);
    }
}

/// A key that shows a field under the mapping at `base` is at least as long
/// as `base`.
pub proof fn lemma_segment_key_len(config: ConfigView, base: Seq<char>, key: Seq<char>)
    requires
        segment(config, base, key) is Some,
    ensures
        base.len() <= key.len(),
{
}

/// Where the records show a field under the mapping at `base`, `base` is no
/// longer than the longest key.
pub proof fn lemma_object_keys_nonempty(
    config: ConfigView,
    records: Seq<RecordView>,
    base: Seq<char>,
)
    requires
        object_keys(config, records, base).len() > 0,
    ensures
        base.len() <= max_key_len(records),
{
    lemma_object_keys_upto_nonempty(config, records, base, records.len());
}

/// Where the first `n` records show a field under the mapping at `base`,
/// `base` is no longer than the longest key.
pub proof fn lemma_object_keys_upto_nonempty(
    config: ConfigView,
    records: Seq<RecordView>,
    base: Seq<char>,
    n: nat,
)
    requires
        n <= records.len(),
        object_keys_upto(config, records, base, n).len() > 0,
    ensures
        base.len() <= max_key_len(records),
    decreases n,
{
    if n > 0 {
        if object_keys_upto(config, records, base, (n - 1) as nat).len() > 0 {
            lemma_object_keys_upto_nonempty(config, records, base, (n - 1) as nat);
        } else {
            lemma_segment_key_len(config, base, records[n - 1].0);
            lemma_max_key_len(records, n - 1);
        }
    }
}

} // verus!
