//! Which field a record shows, and which fields a mapping is found to have,
//! under a strict configuration and plain names.

use vstd::prelude::*;
use crate::config::ConfigView;
use crate::discipline::{is_mark, orderly, plain, plain_name};
use crate::encoding_laws::lemma_keys_under_path;
use crate::lookup::{
    field_prefix, first_segment, first_separator, object_keys, object_keys_upto, segment,
    without_suffix,
};
use crate::path::{index_key, marker_key, object_key};
use crate::placement::{lemma_element_position, lemma_entry_position, placed, within};
use crate::records::{element_records, entry_records, records_of, RecordView};
use crate::text::{ends_with, first_index_of, lemma_first_index_from, occurs_at, starts_with};
use crate::value::ValueView;

verus! {

/// No character of `separator` after its first begins a separator or the
/// length suffix.
pub open spec fn clean(config: ConfigView, separator: Seq<char>) -> bool {
    forall|t: int| 1 <= t < separator.len() ==> !is_mark(config, #[trigger] separator[t])
}

/// The configuration is orderly, the length suffix and the object separator
/// begin with different characters, and within a separator only its first
/// character begins a separator or the suffix.
pub open spec fn strict(config: ConfigView) -> bool {
    &&& orderly(config)
    &&& config.object_separator[0] != config.array_len_suffix[0]
    &&& clean(config, config.object_separator)
    &&& clean(config, config.array_separator)
}

/// What follows position `from` in `key` is nothing, or begins with a
/// separator, or is the length suffix.
pub open spec fn goes_on(config: ConfigView, key: Seq<char>, from: int) -> bool {
    let rest = key.subrange(from, key.len() as int);
    ||| rest.len() == 0
    ||| starts_with(rest, config.object_separator)
    ||| starts_with(rest, config.array_separator)
    ||| rest == config.array_len_suffix
}

/// Every record of a value placed at a path that is not empty has a key
/// that begins with the path and goes on from there.
pub proof fn lemma_keys_go_on(config: ConfigView, path: Seq<char>, value: ValueView, b: int)
    requires
        path.len() > 0,
        0 <= b < records_of(config, path, value).len(),
    ensures
        starts_with(records_of(config, path, value)[b].0, path),
        goes_on(config, records_of(config, path, value)[b].0, path.len() as int),
{
    let block = records_of(config, path, value);
    let key = block[b].0;
    let from = path.len() as int;
    let rest = key.subrange(from, key.len() as int);
    lemma_keys_under_path(config, path, value);
    match value {
        ValueView::Scalar(_) => {
            assert(key == path);
        },
        ValueView::Absent => {},
        ValueView::Sequence(items) => {
            let all = element_records(config, path, items, items.len());
            if b == all.len() {
                assert(key == marker_key(config, path));
                assert(rest =~= config.array_len_suffix);
            } else {
                assert(block[b] == all[b]);
                let j = lemma_element_position(config, path, items, items.len(), b);
                let child = index_key(config, path, j);
                lemma_keys_under_path(config, child, items[j as int]);
                assert(starts_with(key, child));
                assert(rest.subrange(0, config.array_separator.len() as int)
                    =~= config.array_separator) by {
                    assert forall|t: int| 0 <= t < config.array_separator.len() implies rest[t]
                        == config.array_separator[t] by {
                        assert(key.subrange(0, child.len() as int)[from + t] == key[from + t]);
                        assert(child[from + t] == config.array_separator[t]);
                    }
                }
            }
        },
        ValueView::Mapping(entries) => {
            let j = lemma_entry_position(config, path, entries, entries.len(), b);
            let child = object_key(config, path, entries[j as int].0);
            lemma_keys_under_path(config, child, entries[j as int].1);
            assert(starts_with(key, child));
            assert(rest.subrange(0, config.object_separator.len() as int)
                =~= config.object_separator) by {
                assert forall|t: int| 0 <= t < config.object_separator.len() implies rest[t]
                    == config.object_separator[t] by {
                    assert(key.subrange(0, child.len() as int)[from + t] == key[from + t]);
                    assert(child[from + t] == config.object_separator[t]);
                }
            }
        },
    }
}

/// A separator does not occur in a text before the end of a plain name that
/// the text begins with.
proof fn lemma_no_separator_in_name(
    config: ConfigView,
    text: Seq<char>,
    name: Seq<char>,
    separator: Seq<char>,
)
    requires
        plain_name(config, name),
        starts_with(text, name),
        separator.len() > 0,
        is_mark(config, separator[0]),
    ensures
        first_index_of(text, separator) matches Some(q) ==> q >= name.len(),
{
    lemma_first_index_from(text, separator, 0);
    if let Some(q) = first_index_of(text, separator) {
        if q < name.len() {
            assert(text.subrange(q, q + separator.len())[0] == separator[0]);
            assert(text.subrange(0, name.len() as int)[q] == text[q]);
            assert(is_mark(config, name[q]));
        }
    }
}

/// The first path segment of a text that is a plain name, or a plain name
/// followed by a separator, is the name.
proof fn lemma_first_segment_is_name(config: ConfigView, text: Seq<char>, name: Seq<char>)
    requires
        orderly(config),
        plain_name(config, name),
        starts_with(text, name),
        text.len() == name.len() || occurs_at(text, config.object_separator, name.len() as int)
            || occurs_at(text, config.array_separator, name.len() as int),
    ensures
        first_segment(config, text) == name,
{
    let m = name.len() as int;
    lemma_no_separator_in_name(config, text, name, config.object_separator);
    lemma_no_separator_in_name(config, text, name, config.array_separator);
    lemma_first_index_from(text, config.object_separator, 0);
    lemma_first_index_from(text, config.array_separator, 0);
    if text.len() == name.len() {
        assert(text.subrange(0, m) =~= text);
        assert(first_separator(config, text) is None);
    } else {
        assert(first_separator(config, text) == Some(m));
    }
}

/// Under a strict configuration, a key that is a field's path and goes on
/// from there shows that field, where the field's name is plain.
pub proof fn lemma_segment_is_name(
    config: ConfigView,
    base: Seq<char>,
    name: Seq<char>,
    key: Seq<char>,
)
    requires
        strict(config),
        plain_name(config, name),
        starts_with(key, object_key(config, base, name)),
        goes_on(config, key, object_key(config, base, name).len() as int),
    ensures
        segment(config, base, key) == Some(name),
{
    let prefix = field_prefix(config, base);
    let child = object_key(config, base, name);
    assert(child =~= prefix + name);
    let p = prefix.len() as int;
    let m = name.len() as int;
    let suffix = config.array_len_suffix;
    let rest = key.subrange(p, key.len() as int);
    let tail = key.subrange(p + m, key.len() as int);
    assert(key.subrange(0, p) =~= key.subrange(0, child.len() as int).subrange(0, p));
    assert(child.subrange(0, p) =~= prefix);
    assert(starts_with(key, prefix));
    assert(rest.subrange(0, m) =~= name) by {
        assert forall|t: int| 0 <= t < m implies rest[t] == name[t] by {
            assert(key.subrange(0, child.len() as int)[p + t] == key[p + t]);
        }
    }
    assert(starts_with(rest, name));
    assert forall|t: int| 0 <= t < tail.len() implies tail[t] == rest[m + t] by {}
    let stripped = without_suffix(config, rest);
    let s = rest.len() - suffix.len();
    if ends_with(rest, suffix) {
        assert(rest.subrange(s, s + suffix.len())[0] == suffix[0]);
        if s < m {
            assert(rest.subrange(0, m)[s] == rest[s]);
            assert(is_mark(config, name[s]));
        }
        assert(s >= m);
        assert(stripped.subrange(0, m) =~= name);
    }
    assert(starts_with(stripped, name));
    if tail.len() == 0 {
        assert(stripped.len() == m);
    } else if tail == suffix {
        assert(rest.subrange(s, s + suffix.len()) =~= suffix);
        assert(stripped.len() == m);
    } else {
        let separator = if starts_with(tail, config.object_separator) {
            config.object_separator
        } else {
            config.array_separator
        };
        assert(starts_with(tail, separator));
        assert forall|t: int| 0 <= t < separator.len() implies rest[m + t] == separator[t] by {
            assert(tail.subrange(0, separator.len() as int)[t] == tail[t]);
        }
        if ends_with(rest, suffix) && s < m + separator.len() {
            if s > m {
                assert(rest[s] == separator[s - m]);
                assert(is_mark(config, separator[s - m]));
            }
            assert(s == m);
            assert(stripped.len() == m);
        } else {
            assert(stripped.subrange(m, m + separator.len()) =~= separator);
            assert(occurs_at(stripped, separator, m));
        }
    }
    lemma_first_segment_is_name(config, stripped, name);
}

/// A key that shows a field under the mapping at `base` lies at or under
/// `base`.
pub proof fn lemma_segment_within(config: ConfigView, base: Seq<char>, key: Seq<char>)
    requires
        orderly(config),
        segment(config, base, key) is Some,
    ensures
        within(config, base, key),
{
    if base.len() > 0 {
        let prefix = base + config.object_separator;
        assert(key.subrange(0, base.len() as int) =~= key.subrange(0, prefix.len() as int).subrange(
            0,
            base.len() as int,
        ));
        assert(key.subrange(0, prefix.len() as int)[base.len() as int] == key[base.len() as int]);
        assert(prefix.subrange(0, base.len() as int) =~= base);
        assert(prefix[base.len() as int] == config.object_separator[0]);
        assert(starts_with(key, base));
        assert(is_mark(config, key[base.len() as int]));
    }
}

/// Records that show no field make no field name.
pub proof fn lemma_none_shown(
    config: ConfigView,
    records: Seq<RecordView>,
    base: Seq<char>,
    n: nat,
)
    requires
        n <= records.len(),
        forall|a: int| 0 <= a < n ==> segment(config, base, (#[trigger] records[a]).0) is None,
    ensures
        object_keys_upto(config, records, base, n) == Seq::<Seq<char>>::empty(),
    decreases n,
{
    if n > 0 {
        lemma_none_shown(config, records, base, (n - 1) as nat);
        assert(segment(config, base, records[n - 1].0) is None);
    }
}

/// A record that shows a field makes the field names not empty.
pub proof fn lemma_some_shown(
    config: ConfigView,
    records: Seq<RecordView>,
    base: Seq<char>,
    n: nat,
    a: int,
)
    requires
        0 <= a < n <= records.len(),
        segment(config, base, records[a].0) is Some,
    ensures
        object_keys_upto(config, records, base, n).len() > 0,
    decreases n,
{
    if a < n - 1 {
        lemma_some_shown(config, records, base, (n - 1) as nat, a);
    } else {
        let earlier = object_keys_upto(config, records, base, (n - 1) as nat);
        let name = segment(config, base, records[n - 1].0)->0;
        if earlier.contains(name) {
            assert(earlier.len() > 0);
        }
    }
}

/// The names of the entries of a mapping, in order.
pub open spec fn entry_names(entries: Seq<(Seq<char>, ValueView)>) -> Seq<Seq<char>> {
    Seq::new(entries.len(), |i: int| entries[i].0)
}

/// Every entry of the mapping at `path` has at least one record.
pub open spec fn all_emit(
    config: ConfigView,
    path: Seq<char>,
    entries: Seq<(Seq<char>, ValueView)>,
) -> bool {
    forall|i: int|
        0 <= i < entries.len() ==> records_of(
            config,
            object_key(config, path, (#[trigger] entries[i]).0),
            entries[i].1,
        ).len() > 0
}

/// The records of more fields are no fewer.
proof fn lemma_entry_records_grow(
    config: ConfigView,
    path: Seq<char>,
    entries: Seq<(Seq<char>, ValueView)>,
    m: nat,
    n: nat,
)
    requires
        m <= n <= entries.len(),
        all_emit(config, path, entries),
    ensures
        entry_records(config, path, entries, m).len() + (n - m) <= entry_records(
            config,
            path,
            entries,
            n,
        ).len(),
    decreases n - m,
{
    if m < n {
        lemma_entry_records_grow(config, path, entries, m, (n - 1) as nat);
        assert(records_of(
            config,
            object_key(config, path, entries[n - 1].0),
            entries[n - 1].1,
        ).len() > 0);
    }
}

/// Under a strict configuration, the field names that the first `n`
/// records show under a placed mapping with plain names, each of whose
/// fields has a record, are the names of the fields whose records have
/// begun, in order.
proof fn lemma_keys_inside(
    config: ConfigView,
    records: Seq<RecordView>,
    path: Seq<char>,
    entries: Seq<(Seq<char>, ValueView)>,
    at: int,
    n: nat,
) -> (k: nat)
    requires
        strict(config),
        plain(config, ValueView::Mapping(entries)),
        all_emit(config, path, entries),
        placed(config, records, path, ValueView::Mapping(entries), at),
        at <= n <= at + entry_records(config, path, entries, entries.len()).len(),
    ensures
        k <= entries.len(),
        n - at <= entry_records(config, path, entries, k).len(),
        k > 0 ==> entry_records(config, path, entries, (k - 1) as nat).len() < n - at,
        object_keys_upto(config, records, path, n) == entry_names(entries).take(k as int),
    decreases n,
{
    let names = entry_names(entries);
    if n == at {
        assert forall|a: int| 0 <= a < n implies segment(
            config,
            path,
            (#[trigger] records[a]).0,
        ) is None by {
            if segment(config, path, records[a].0) is Some {
                lemma_segment_within(config, path, records[a].0);
            }
        }
        lemma_none_shown(config, records, path, n);
        assert(names.take(0) =~= Seq::<Seq<char>>::empty());
        0
    } else {
        let before = lemma_keys_inside(config, records, path, entries, at, (n - 1) as nat);
        let b = n - 1 - at;
        let block = records_of(config, path, ValueView::Mapping(entries));
        assert(records[at + b] == block[b]);
        let j = lemma_entry_position(config, path, entries, entries.len(), b);
        let name = entries[j as int].0;
        let child = object_key(config, path, name);
        let key = records[n - 1].0;
        assert(plain_name(config, name));
        lemma_keys_go_on(config, child, entries[j as int].1, b - entry_records(
            config,
            path,
            entries,
            j,
        ).len());
        lemma_segment_is_name(config, path, name, key);
        let earlier = object_keys_upto(config, records, path, (n - 1) as nat);
        if b < entry_records(config, path, entries, before).len() {
            if j >= before {
                lemma_entry_records_grow(config, path, entries, before, j);
            }
            if j + 1 < before {
                lemma_entry_records_grow(config, path, entries, j + 1, (before - 1) as nat);
            }
            assert(j + 1 == before);
            assert(names.take(before as int)[j as int] == name);
            assert(earlier.contains(name));
            before
        } else {
            if j < before {
                lemma_entry_records_grow(config, path, entries, j + 1, before);
            }
            if j > before {
                lemma_entry_records_grow(config, path, entries, before + 1, j);
                lemma_entry_records_grow(config, path, entries, before, before + 1);
            }
            assert(j == before);
            if earlier.contains(name) {
                let i = choose|i: int| 0 <= i < earlier.len() && earlier[i] == name;
                assert(entries[i].0 == entries[j as int].0);
            }
            assert(names.take(before as int + 1) =~= names.take(before as int).push(name));
            before + 1
        }
    }
}

/// Under a strict configuration, the field names found under a placed
/// mapping with plain names, each of whose fields has a record, are the
/// names of its fields, in order.
pub proof fn lemma_mapping_keys(
    config: ConfigView,
    records: Seq<RecordView>,
    path: Seq<char>,
    entries: Seq<(Seq<char>, ValueView)>,
    at: int,
)
    requires
        strict(config),
        plain(config, ValueView::Mapping(entries)),
        all_emit(config, path, entries),
        placed(config, records, path, ValueView::Mapping(entries), at),
    ensures
        object_keys(config, records, path) == entry_names(entries),
{
    let whole = entry_records(config, path, entries, entries.len());
    lemma_keys_after(config, records, path, entries, at, records.len());
}

/// The records after those of a placed mapping show no further field.
proof fn lemma_keys_after(
    config: ConfigView,
    records: Seq<RecordView>,
    path: Seq<char>,
    entries: Seq<(Seq<char>, ValueView)>,
    at: int,
    n: nat,
)
    requires
        strict(config),
        plain(config, ValueView::Mapping(entries)),
        all_emit(config, path, entries),
        placed(config, records, path, ValueView::Mapping(entries), at),
        at + entry_records(config, path, entries, entries.len()).len() <= n <= records.len(),
    ensures
        object_keys_upto(config, records, path, n) == entry_names(entries),
    decreases n,
{
    let names = entry_names(entries);
    let whole = entry_records(config, path, entries, entries.len());
    if n == at + whole.len() {
        let k = lemma_keys_inside(config, records, path, entries, at, n);
        if k < entries.len() {
            lemma_entry_records_grow(config, path, entries, k, entries.len());
            if k > 0 {
                lemma_entry_records_grow(config, path, entries, (k - 1) as nat, k);
            }
        }
        assert(k == entries.len()) by {
            if k < entries.len() {
                if k == 0 {
                    assert(entry_records(config, path, entries, 0).len() == 0);
                }
            }
        }
        assert(names.take(k as int) =~= names);
    } else {
        lemma_keys_after(config, records, path, entries, at, (n - 1) as nat);
        if segment(config, path, records[n - 1].0) is Some {
            lemma_segment_within(config, path, records[n - 1].0);
        }
    }
}

} // verus!
