//! Where the records of a part of a value lie among the records of the
//! whole: under an orderly configuration and plain names, the records of a
//! part stand together, and no other record lies at or under the part's path.

use vstd::prelude::*;
use crate::config::ConfigView;
use crate::decimal::{decimal, lemma_decimal_digits};
use crate::discipline::{
    continues, distinct_keys, lemma_keys_continue, lemma_one_element, lemma_one_field, orderly,
    plain, plain_name,
};
use crate::lookup::{lemma_lookup_none, lookup};
use crate::path::{index_key, marker_key, object_key};
use crate::records::{
    element_records, entry_records, lemma_element_records_prefix, lemma_entry_records_prefix,
    records_of, RecordView,
};
use crate::round_trip::lemma_distinct_keys_unambiguous;
use crate::text::starts_with;
use crate::value::ValueView;

verus! {

/// `key` lies at or under `path`: every key at the empty root, else a key
/// that continues `path`.
pub open spec fn within(config: ConfigView, path: Seq<char>, key: Seq<char>) -> bool {
    path.len() == 0 || continues(config, path, key)
}

/// The records of `value` placed at `path` stand together in `records`,
/// from position `at` on, and no other record lies at or under `path`.
pub open spec fn placed(
    config: ConfigView,
    records: Seq<RecordView>,
    path: Seq<char>,
    value: ValueView,
    at: int,
) -> bool {
    let block = records_of(config, path, value);
    &&& 0 <= at
    &&& at + block.len() <= records.len()
    &&& forall|b: int| 0 <= b < block.len() ==> records[at + b] == #[trigger] block[b]
    &&& forall|a: int|
        0 <= a < records.len() && !(at <= a < at + block.len()) ==> !within(
            config,
            path,
            (#[trigger] records[a]).0,
        )
}

/// A value is placed in its own records, from their start.
pub proof fn lemma_placed_whole(config: ConfigView, path: Seq<char>, value: ValueView)
    ensures
        placed(config, records_of(config, path, value), path, value, 0),
{
}

/// The element that a record of the first `n` elements of a sequence
/// belongs to, by its position.
pub proof fn lemma_element_position(
    config: ConfigView,
    path: Seq<char>,
    items: Seq<ValueView>,
    n: nat,
    b: int,
) -> (j: nat)
    requires
        n <= items.len(),
        0 <= b < element_records(config, path, items, n).len(),
    ensures
        j < n,
        element_records(config, path, items, j).len() <= b < element_records(
            config,
            path,
            items,
            j + 1,
        ).len(),
        element_records(config, path, items, n)[b] == records_of(
            config,
            index_key(config, path, j),
            items[j as int],
        )[b - element_records(config, path, items, j).len()],
    decreases n,
{
    let m = (n - 1) as nat;
    let earlier = element_records(config, path, items, m);
    if b < earlier.len() {
        let j = lemma_element_position(config, path, items, m, b);
        assert(element_records(config, path, items, n)[b] == earlier[b]);
        j
    } else {
        m
    }
}

/// The field that a record of the first `n` fields of a mapping belongs to,
/// by its position.
pub proof fn lemma_entry_position(
    config: ConfigView,
    path: Seq<char>,
    entries: Seq<(Seq<char>, ValueView)>,
    n: nat,
    b: int,
) -> (j: nat)
    requires
        n <= entries.len(),
        0 <= b < entry_records(config, path, entries, n).len(),
    ensures
        j < n,
        entry_records(config, path, entries, j).len() <= b < entry_records(
            config,
            path,
            entries,
            j + 1,
        ).len(),
        entry_records(config, path, entries, n)[b] == records_of(
            config,
            object_key(config, path, entries[j as int].0),
            entries[j as int].1,
        )[b - entry_records(config, path, entries, j).len()],
    decreases n,
{
    let m = (n - 1) as nat;
    let earlier = entry_records(config, path, entries, m);
    if b < earlier.len() {
        let j = lemma_entry_position(config, path, entries, m, b);
        assert(entry_records(config, path, entries, n)[b] == earlier[b]);
        j
    } else {
        m
    }
}

/// Under an orderly configuration, the marker of a sequence does not begin
/// with the path of one of its elements.
pub proof fn lemma_marker_apart(config: ConfigView, path: Seq<char>, i: nat)
    requires
        orderly(config),
    ensures
        !starts_with(marker_key(config, path), index_key(config, path, i)),
{
    let marker = marker_key(config, path);
    let child = index_key(config, path, i);
    lemma_decimal_digits(i);
    let digit = decimal(i)[0];
    let head = config.array_separator.push(digit);
    if starts_with(marker, child) {
        let start = path.len() as int;
        assert(marker.subrange(0, child.len() as int) == child);
        assert(config.array_len_suffix.subrange(0, head.len() as int) =~= head) by {
            assert forall|k: int| 0 <= k < head.len() implies config.array_len_suffix[k]
                == head[k] by {
                assert(marker.subrange(0, child.len() as int)[start + k] == marker[start + k]);
                assert(child[start + k] == head[k]);
            }
        }
        assert(starts_with(config.array_len_suffix, head));
    }
}

/// A key that continues the path of a child continues the path of the
/// parent, where the child's path is the parent's followed by a mark.
pub proof fn lemma_within_parent(
    config: ConfigView,
    path: Seq<char>,
    child: Seq<char>,
    key: Seq<char>,
)
    requires
        continues(config, child, key),
        starts_with(child, path),
        path.len() == 0 || (child.len() > path.len() && crate::discipline::is_mark(
            config,
            child[path.len() as int],
        )),
    ensures
        within(config, path, key),
{
    if path.len() > 0 {
        assert(key.subrange(0, path.len() as int) =~= key.subrange(0, child.len() as int).subrange(
            0,
            path.len() as int,
        ));
        assert(key.subrange(0, child.len() as int)[path.len() as int] == key[path.len() as int]);
    }
}

/// Under an orderly configuration, each element of a placed sequence is
/// placed: its records stand together after those of the elements before it,
/// and no other record lies at or under its path.
pub proof fn lemma_placed_element(
    config: ConfigView,
    records: Seq<RecordView>,
    path: Seq<char>,
    items: Seq<ValueView>,
    at: int,
    i: nat,
)
    requires
        orderly(config),
        placed(config, records, path, ValueView::Sequence(items), at),
        i < items.len(),
    ensures
        placed(
            config,
            records,
            index_key(config, path, i),
            items[i as int],
            at + element_records(config, path, items, i).len(),
        ),
{
    let n = items.len();
    let block = records_of(config, path, ValueView::Sequence(items));
    let all = element_records(config, path, items, n);
    let done = element_records(config, path, items, i);
    let upto = element_records(config, path, items, i + 1);
    let child = index_key(config, path, i);
    let part = records_of(config, child, items[i as int]);
    let start = at + done.len();
    lemma_element_records_prefix(config, path, items, i + 1, n);
    assert(upto == done + part);
    assert forall|t: int| 0 <= t < part.len() implies records[start + t] == #[trigger] part[t] by {
        assert(upto[done.len() + t] == part[t]);
        assert(all.subrange(0, upto.len() as int)[done.len() + t] == all[done.len() + t]);
        assert(block[done.len() + t] == all[done.len() + t]);
        assert(records[at + (done.len() + t)] == block[done.len() + t]);
    }
    assert(child.subrange(0, path.len() as int) =~= path);
    assert(child[path.len() as int] == config.array_separator[0]);
    assert forall|a: int|
        0 <= a < records.len() && !(start <= a < start + part.len()) implies !within(
        config,
        child,
        (#[trigger] records[a]).0,
    ) by {
        let key = records[a].0;
        if continues(config, child, key) {
            if at <= a < at + block.len() {
                let b = a - at;
                assert(records[at + b] == block[b]);
                if b == all.len() {
                    assert(key == marker_key(config, path));
                    lemma_marker_apart(config, path, i);
                } else {
                    assert(block[b] == all[b]);
                    let j = lemma_element_position(config, path, items, n, b);
                    let other = index_key(config, path, j);
                    lemma_keys_continue(config, other, items[j as int]);
                    assert(continues(config, other, key));
                    lemma_one_element(config, path, i, j, key);
                }
            } else {
                lemma_within_parent(config, path, child, key);
            }
        }
    }
}

/// Under an orderly configuration, each field of a placed mapping with
/// plain, unique names is placed: its records stand together after those of
/// the fields before it, and no other record lies at or under its path.
pub proof fn lemma_placed_entry(
    config: ConfigView,
    records: Seq<RecordView>,
    path: Seq<char>,
    entries: Seq<(Seq<char>, ValueView)>,
    at: int,
    i: nat,
)
    requires
        orderly(config),
        plain(config, ValueView::Mapping(entries)),
        placed(config, records, path, ValueView::Mapping(entries), at),
        i < entries.len(),
    ensures
        placed(
            config,
            records,
            object_key(config, path, entries[i as int].0),
            entries[i as int].1,
            at + entry_records(config, path, entries, i).len(),
        ),
{
    let n = entries.len();
    let block = records_of(config, path, ValueView::Mapping(entries));
    let done = entry_records(config, path, entries, i);
    let upto = entry_records(config, path, entries, i + 1);
    let name = entries[i as int].0;
    let child = object_key(config, path, name);
    let part = records_of(config, child, entries[i as int].1);
    let start = at + done.len();
    lemma_entry_records_prefix(config, path, entries, i + 1, n);
    assert(upto == done + part);
    assert(plain_name(config, name));
    assert forall|t: int| 0 <= t < part.len() implies records[start + t] == #[trigger] part[t] by {
        assert(upto[done.len() + t] == part[t]);
        assert(block.subrange(0, upto.len() as int)[done.len() + t] == block[done.len() + t]);
        assert(records[at + (done.len() + t)] == block[done.len() + t]);
    }
    assert(child.subrange(0, path.len() as int) =~= path);
    assert forall|a: int|
        0 <= a < records.len() && !(start <= a < start + part.len()) implies !within(
        config,
        child,
        (#[trigger] records[a]).0,
    ) by {
        let key = records[a].0;
        if continues(config, child, key) {
            if at <= a < at + block.len() {
                let b = a - at;
                assert(records[at + b] == block[b]);
                let j = lemma_entry_position(config, path, entries, n, b);
                let other = object_key(config, path, entries[j as int].0);
                assert(plain_name(config, entries[j as int].0));
                lemma_keys_continue(config, other, entries[j as int].1);
                assert(continues(config, other, key));
                lemma_one_field(config, path, name, entries[j as int].0, key);
                assert(i != j);
                if i < j {
                    assert(entries[i as int].0 != entries[j as int].0);
                } else {
                    assert(entries[j as int].0 != entries[i as int].0);
                }
            } else {
                if path.len() > 0 {
                    assert(child[path.len() as int] == config.object_separator[0]);
                }
                lemma_within_parent(config, path, child, key);
            }
        }
    }
}

/// Among records with distinct keys, each record of a placed value is what
/// the records hold under its key.
pub proof fn lemma_placed_lookup(
    config: ConfigView,
    records: Seq<RecordView>,
    path: Seq<char>,
    value: ValueView,
    at: int,
    b: int,
)
    requires
        distinct_keys(records),
        placed(config, records, path, value, at),
        0 <= b < records_of(config, path, value).len(),
    ensures
        lookup(records, records_of(config, path, value)[b].0) == Some(
            records_of(config, path, value)[b].1,
        ),
{
    lemma_distinct_keys_unambiguous(records);
    let block = records_of(config, path, value);
    assert(records[at + b] == block[b]);
}

/// The records hold nothing under a key that lies at or under the path of a
/// placed value and is the key of none of the value's records.
pub proof fn lemma_placed_lookup_none(
    config: ConfigView,
    records: Seq<RecordView>,
    path: Seq<char>,
    value: ValueView,
    at: int,
    key: Seq<char>,
)
    requires
        placed(config, records, path, value, at),
        within(config, path, key),
        forall|b: int|
            0 <= b < records_of(config, path, value).len() ==> (#[trigger] records_of(
                config,
                path,
                value,
            )[b]).0 != key,
    ensures
        lookup(records, key) is None,
{
    let block = records_of(config, path, value);
    lemma_lookup_none(records, key);
    assert forall|a: int| 0 <= a < records.len() implies (#[trigger] records[a]).0 != key by {
        if at <= a < at + block.len() {
            assert(records[at + (a - at)] == block[a - at]);
        }
    }
}

/// `part` is the part of `value` that sits at `path`, where `value` itself
/// is placed at `at_path`: the value itself, or such a part of one of its
/// elements or fields.
pub open spec fn part_at(
    config: ConfigView,
    at_path: Seq<char>,
    value: ValueView,
    path: Seq<char>,
    part: ValueView,
) -> bool
    decreases value,
{
    (at_path == path && value == part) || match value {
        ValueView::Sequence(items) => exists|i: int|
            0 <= i < items.len() && part_at(
                config,
                index_key(config, at_path, i as nat),
                #[trigger] items[i],
                path,
                part,
            ),
        ValueView::Mapping(entries) => exists|i: int|
            0 <= i < entries.len() && part_at(
                config,
                object_key(config, at_path, entries[i].0),
                (#[trigger] entries[i]).1,
                path,
                part,
            ),
        _ => false,
    }
}

/// Under an orderly configuration, every part of a placed plain value is
/// placed.
pub proof fn lemma_part_placed(
    config: ConfigView,
    records: Seq<RecordView>,
    at_path: Seq<char>,
    value: ValueView,
    at: int,
    path: Seq<char>,
    part: ValueView,
) -> (start: int)
    requires
        orderly(config),
        plain(config, value),
        placed(config, records, at_path, value, at),
        part_at(config, at_path, value, path, part),
    ensures
        placed(config, records, path, part, start),
        plain(config, part),
    decreases value,
{
    if at_path == path && value == part {
        at
    } else {
        match value {
            ValueView::Sequence(items) => {
                let i = choose|i: int|
                    0 <= i < items.len() && part_at(
                        config,
                        index_key(config, at_path, i as nat),
                        #[trigger] items[i],
                        path,
                        part,
                    );
                lemma_placed_element(config, records, at_path, items, at, i as nat);
                lemma_part_placed(
                    config,
                    records,
                    index_key(config, at_path, i as nat),
                    items[i],
                    at + element_records(config, at_path, items, i as nat).len(),
                    path,
                    part,
                )
            },
            ValueView::Mapping(entries) => {
                let i = choose|i: int|
                    0 <= i < entries.len() && part_at(
                        config,
                        object_key(config, at_path, entries[i].0),
                        (#[trigger] entries[i]).1,
                        path,
                        part,
                    );
                lemma_placed_entry(config, records, at_path, entries, at, i as nat);
                lemma_part_placed(
                    config,
                    records,
                    object_key(config, at_path, entries[i].0),
                    entries[i].1,
                    at + entry_records(config, at_path, entries, i as nat).len(),
                    path,
                    part,
                )
            },
            _ => 0,
        }
    }
}

/// The sequence invariant, for a sequence of `N` elements anywhere inside a
/// plain value encoded under an orderly configuration. Among all records of
/// the value:
/// - exactly one has the key of the sequence's length marker, and it
///   carries `N`;
/// - the records of element 0, of element 1, and so on to element `N - 1`
///   stand together in this order, each group placed at the path of its
///   element, and all before the marker;
/// - no record's key continues the path of an index at or beyond `N`.
pub proof fn lemma_sequence_inside(
    config: ConfigView,
    value: ValueView,
    path: Seq<char>,
    items: Seq<ValueView>,
) -> (start: int)
    requires
        orderly(config),
        plain(config, value),
        part_at(config, Seq::empty(), value, path, ValueView::Sequence(items)),
    ensures
        ({
            let records = records_of(config, Seq::empty(), value);
            let marker = start + element_records(config, path, items, items.len()).len();
            &&& 0 <= start && marker < records.len()
            &&& records[marker] == (marker_key(config, path), decimal(items.len()))
            &&& forall|a: int|
                0 <= a < records.len() && a != marker ==> (#[trigger] records[a]).0 != marker_key(
                    config,
                    path,
                )
            &&& forall|i: nat|
                i < items.len() ==> placed(
                    config,
                    records,
                    #[trigger] index_key(config, path, i),
                    items[i as int],
                    start + element_records(config, path, items, i).len(),
                ) && start + element_records(config, path, items, i + 1).len() <= marker
            &&& forall|a: int, j: nat|
                0 <= a < records.len() && j >= items.len() ==> !continues(
                    config,
                    #[trigger] index_key(config, path, j),
                    (#[trigger] records[a]).0,
                )
        }),
{
    let records = records_of(config, Seq::empty(), value);
    let whole = ValueView::Sequence(items);
    let block = records_of(config, path, whole);
    let all = element_records(config, path, items, items.len());
    lemma_placed_whole(config, Seq::empty(), value);
    let start = lemma_part_placed(config, records, Seq::empty(), value, 0, path, whole);
    let marker = start + all.len();
    crate::discipline::lemma_distinct_keys(config, Seq::empty(), value);
    assert(records[start + all.len()] == block[all.len() as int]);
    assert forall|a: int| 0 <= a < records.len() && a != marker implies (
    #[trigger] records[a]).0 != marker_key(config, path) by {
        if a < marker {
            assert(records[a].0 != records[marker].0);
        } else {
            assert(records[marker].0 != records[a].0);
        }
    }
    assert forall|i: nat| i < items.len() implies placed(
        config,
        records,
        #[trigger] index_key(config, path, i),
        items[i as int],
        start + element_records(config, path, items, i).len(),
    ) && start + element_records(config, path, items, i + 1).len() <= marker by {
        lemma_placed_element(config, records, path, items, start, i);
        lemma_element_records_prefix(config, path, items, i + 1, items.len());
    }
    assert forall|a: int, j: nat| 0 <= a < records.len() && j >= items.len() implies !continues(
        config,
        #[trigger] index_key(config, path, j),
        (#[trigger] records[a]).0,
    ) by {
        let key = records[a].0;
        let beyond = index_key(config, path, j);
        if continues(config, beyond, key) {
            assert(beyond.subrange(0, path.len() as int) =~= path);
            assert(beyond[path.len() as int] == config.array_separator[0]);
            lemma_within_parent(config, path, beyond, key);
            assert(start <= a < start + block.len());
            let b = a - start;
            assert(records[start + b] == block[b]);
            if b == all.len() {
                lemma_marker_apart(config, path, j);
            } else {
                assert(block[b] == all[b]);
                let i = lemma_element_position(config, path, items, items.len(), b);
                lemma_keys_continue(config, index_key(config, path, i), items[i as int]);
                lemma_one_element(config, path, j, i, key);
            }
        }
    }
    start
}

} // verus!
