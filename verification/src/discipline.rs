//! A discipline under which no two records of an encoding share a key.
//!
//! Nothing stops a field name from looking like part of a path: with the
//! default configuration the field `a_0` beside the sequence `a` gives two
//! records under the key `a_0`. Keys cannot collide where every part of a
//! key announces itself: where the separators and the length suffix each
//! begin with a character that is no digit and that no field name holds.

use vstd::prelude::*;
use crate::config::ConfigView;
use crate::de::DecodeErrorView;
use crate::decimal::{decimal, is_digit, lemma_decimal_digits};
use crate::decode::decoded;
use crate::encoding_laws::{lemma_element_keys_apart, lemma_keys_under_path, suffix_apart};
use crate::path::{index_key, marker_key, object_key};
use crate::records::{element_records, entry_records, records_of, RecordView};
use crate::round_trip::{
    describes, lemma_distinct_keys_unambiguous, lemma_round_trip, unambiguous,
};
use crate::ser::encoding;
use crate::shape::ShapeView;
use crate::text::starts_with;
use crate::value::{names_unique, ValueView};

verus! {

/// `c` begins a separator or the length suffix.
pub open spec fn is_mark(config: ConfigView, c: char) -> bool {
    ||| c == config.object_separator[0]
    ||| c == config.array_separator[0]
    ||| c == config.array_len_suffix[0]
}

/// The separators and the length suffix are not empty, none of them begins
/// with a digit, and the suffix does not begin with the array separator
/// followed by a digit.
pub open spec fn orderly(config: ConfigView) -> bool {
    &&& config.object_separator.len() > 0
    &&& config.array_separator.len() > 0
    &&& config.array_len_suffix.len() > 0
    &&& !is_digit(config.object_separator[0])
    &&& !is_digit(config.array_separator[0])
    &&& !is_digit(config.array_len_suffix[0])
    &&& suffix_apart(config)
}

/// `name` is not empty and holds no character that begins a separator or
/// the length suffix.
pub open spec fn plain_name(config: ConfigView, name: Seq<char>) -> bool {
    &&& name.len() > 0
    &&& forall|i: int| 0 <= i < name.len() ==> !is_mark(config, #[trigger] name[i])
}

/// Every field name of the value is plain, and no mapping in it has two
/// fields of one name.
pub open spec fn plain(config: ConfigView, value: ValueView) -> bool
    decreases value,
{
    match value {
        ValueView::Scalar(_) => true,
        ValueView::Absent => true,
        ValueView::Sequence(items) => forall|i: int|
            0 <= i < items.len() ==> plain(config, #[trigger] items[i]),
        ValueView::Mapping(entries) => names_unique(entries) && forall|i: int|
            0 <= i < entries.len() ==> plain_name(config, (#[trigger] entries[i]).0) && plain(
                config,
                entries[i].1,
            ),
    }
}

/// `key` is `path`, or `path` followed by something that announces itself.
pub open spec fn continues(config: ConfigView, path: Seq<char>, key: Seq<char>) -> bool {
    &&& starts_with(key, path)
    &&& key.len() == path.len() || is_mark(config, key[path.len() as int])
}

/// No two records share a key.
pub open spec fn distinct_keys(records: Seq<RecordView>) -> bool {
    forall|i: int, j: int|
        0 <= i < j < records.len() ==> (#[trigger] records[i]).0 != (#[trigger] records[j]).0
}

/// `key` continues the path of one of the first `n` elements of the
/// sequence at `path`.
pub open spec fn under_element(config: ConfigView, path: Seq<char>, n: nat, key: Seq<char>)
    -> bool {
    exists|i: nat| i < n && continues(config, #[trigger] index_key(config, path, i), key)
}

/// `key` continues the path of one of the first `n` fields of the mapping
/// at `path`.
pub open spec fn under_entry(
    config: ConfigView,
    path: Seq<char>,
    entries: Seq<(Seq<char>, ValueView)>,
    n: nat,
    key: Seq<char>,
) -> bool {
    exists|i: int|
        0 <= i < n && continues(config, object_key(config, path, (#[trigger] entries[i]).0), key)
}

/// Under an orderly configuration, every record of a value placed at a
/// path that is not empty has a key that continues the path.
pub proof fn lemma_keys_continue(config: ConfigView, path: Seq<char>, value: ValueView)
    requires
        orderly(config),
        path.len() > 0,
    ensures
        forall|a: int|
            0 <= a < records_of(config, path, value).len() ==> continues(
                config,
                path,
                (#[trigger] records_of(config, path, value)[a]).0,
            ),
{
    let records = records_of(config, path, value);
    lemma_keys_under_path(config, path, value);
    assert forall|a: int| 0 <= a < records.len() implies continues(
        config,
        path,
        (#[trigger] records[a]).0,
    ) by {
        let key = records[a].0;
        assert(starts_with(key, path));
        match value {
            ValueView::Scalar(_) => {
                assert(key == path);
            },
            ValueView::Absent => {},
            ValueView::Sequence(items) => {
                let elements = element_records(config, path, items, items.len());
                if a < elements.len() {
                    assert(records[a] == elements[a]);
                    lemma_element_keys_marked(config, path, items, items.len(), a);
                } else {
                    assert(key == marker_key(config, path));
                    assert(key[path.len() as int] == config.array_len_suffix[0]);
                }
            },
            ValueView::Mapping(entries) => {
                lemma_entry_keys_marked(config, path, entries, entries.len(), a);
            },
        }
    }
}

/// Every record of the first `n` elements of a sequence has a key that is
/// longer than the sequence's path and goes on with the array separator.
pub proof fn lemma_element_keys_marked(
    config: ConfigView,
    path: Seq<char>,
    items: Seq<ValueView>,
    n: nat,
    a: int,
)
    requires
        config.array_separator.len() > 0,
        n <= items.len(),
        0 <= a < element_records(config, path, items, n).len(),
    ensures
        ({
            let key = element_records(config, path, items, n)[a].0;
            key.len() > path.len() && key[path.len() as int] == config.array_separator[0]
        }),
    decreases n,
{
    let earlier = element_records(config, path, items, (n - 1) as nat);
    if a < earlier.len() {
        lemma_element_keys_marked(config, path, items, (n - 1) as nat, a);
    } else {
        let child = index_key(config, path, (n - 1) as nat);
        let part = records_of(config, child, items[n - 1]);
        let key = part[a - earlier.len()].0;
        lemma_keys_under_path(config, child, items[n - 1]);
        assert(starts_with(key, child));
        assert(key.subrange(0, child.len() as int)[path.len() as int] == key[path.len() as int]);
        assert(child[path.len() as int] == config.array_separator[0]);
    }
}

/// Every record of the first `n` fields of a mapping at a path that is not
/// empty has a key that is longer than the path and goes on with the object
/// separator.
pub proof fn lemma_entry_keys_marked(
    config: ConfigView,
    path: Seq<char>,
    entries: Seq<(Seq<char>, ValueView)>,
    n: nat,
    a: int,
)
    requires
        config.object_separator.len() > 0,
        path.len() > 0,
        n <= entries.len(),
        0 <= a < entry_records(config, path, entries, n).len(),
    ensures
        ({
            let key = entry_records(config, path, entries, n)[a].0;
            key.len() > path.len() && key[path.len() as int] == config.object_separator[0]
        }),
    decreases n,
{
    let earlier = entry_records(config, path, entries, (n - 1) as nat);
    if a < earlier.len() {
        lemma_entry_keys_marked(config, path, entries, (n - 1) as nat, a);
    } else {
        let child = object_key(config, path, entries[n - 1].0);
        let part = records_of(config, child, entries[n - 1].1);
        let key = part[a - earlier.len()].0;
        lemma_keys_under_path(config, child, entries[n - 1].1);
        assert(starts_with(key, child));
        assert(key.subrange(0, child.len() as int)[path.len() as int] == key[path.len() as int]);
        assert(child[path.len() as int] == config.object_separator[0]);
    }
}

/// A key continues the paths of two fields of one mapping only if the
/// fields have one name.
pub proof fn lemma_one_field(
    config: ConfigView,
    path: Seq<char>,
    first: Seq<char>,
    second: Seq<char>,
    key: Seq<char>,
)
    requires
        plain_name(config, first),
        plain_name(config, second),
        continues(config, object_key(config, path, first), key),
        continues(config, object_key(config, path, second), key),
    ensures
        first == second,
{
    let a = object_key(config, path, first);
    let b = object_key(config, path, second);
    let base = a.len() - first.len();
    assert(b.len() - second.len() == base);
    assert forall|t: int| 0 <= t < first.len() implies first[t] == key[base + t] by {
        assert(a[base + t] == first[t]);
        assert(key.subrange(0, a.len() as int)[base + t] == key[base + t]);
    }
    assert forall|t: int| 0 <= t < second.len() implies second[t] == key[base + t] by {
        assert(b[base + t] == second[t]);
        assert(key.subrange(0, b.len() as int)[base + t] == key[base + t]);
    }
    if first.len() < second.len() {
        assert(key[a.len() as int] == second[first.len() as int]);
        assert(is_mark(config, second[first.len() as int]));
    } else if second.len() < first.len() {
        assert(key[b.len() as int] == first[second.len() as int]);
        assert(is_mark(config, first[second.len() as int]));
    } else {
        assert(first =~= second);
    }
}

/// Numbers with one decimal text are one number.
proof fn lemma_decimal_injective(i: nat, j: nat)
    requires
        decimal(i) == decimal(j),
    ensures
        i == j,
{
    lemma_decimal_digits(i);
    lemma_decimal_digits(j);
}

/// A key continues the paths of two elements of one sequence only if the
/// elements have one index.
pub proof fn lemma_one_element(config: ConfigView, path: Seq<char>, i: nat, j: nat, key: Seq<char>)
    requires
        orderly(config),
        continues(config, index_key(config, path, i), key),
        continues(config, index_key(config, path, j), key),
    ensures
        i == j,
{
    let a = index_key(config, path, i);
    let b = index_key(config, path, j);
    let first = decimal(i);
    let second = decimal(j);
    let base = path.len() + config.array_separator.len();
    lemma_decimal_digits(i);
    lemma_decimal_digits(j);
    assert forall|t: int| 0 <= t < first.len() implies first[t] == key[base + t] by {
        assert(a[base + t] == first[t]);
        assert(key.subrange(0, a.len() as int)[base + t] == key[base + t]);
    }
    assert forall|t: int| 0 <= t < second.len() implies second[t] == key[base + t] by {
        assert(b[base + t] == second[t]);
        assert(key.subrange(0, b.len() as int)[base + t] == key[base + t]);
    }
    if first.len() < second.len() {
        assert(key[a.len() as int] == second[first.len() as int]);
        assert(is_digit(second[first.len() as int]));
    } else if second.len() < first.len() {
        assert(key[b.len() as int] == first[second.len() as int]);
        assert(is_digit(first[second.len() as int]));
    } else {
        assert(first =~= second);
        lemma_decimal_injective(i, j);
    }
}

/// Under an orderly configuration, no two records of a plain value share a
/// key.
pub proof fn lemma_distinct_keys(config: ConfigView, path: Seq<char>, value: ValueView)
    requires
        orderly(config),
        plain(config, value),
    ensures
        distinct_keys(records_of(config, path, value)),
    decreases value, 0nat,
{
    let records = records_of(config, path, value);
    match value {
        ValueView::Scalar(_) => {},
        ValueView::Absent => {},
        ValueView::Sequence(items) => {
            let elements = element_records(config, path, items, items.len());
            lemma_elements_distinct(config, path, items, items.len());
            assert forall|a: int, b: int| 0 <= a < b < records.len() implies (
            #[trigger] records[a]).0 != (#[trigger] records[b]).0 by {
                assert(records[a] == elements[a]);
                if b < elements.len() {
                    assert(records[b] == elements[b]);
                } else {
                    lemma_element_keys_apart(config, path, items, items.len(), a);
                }
            }
        },
        ValueView::Mapping(entries) => {
            lemma_entries_distinct(config, path, entries, entries.len());
        },
    }
}

/// Under an orderly configuration, no two records of the first `n` elements
/// of a sequence of plain values share a key, and each key continues the
/// path of one of those elements.
proof fn lemma_elements_distinct(
    config: ConfigView,
    path: Seq<char>,
    items: Seq<ValueView>,
    n: nat,
)
    requires
        orderly(config),
        n <= items.len(),
        forall|i: int| 0 <= i < items.len() ==> plain(config, #[trigger] items[i]),
    ensures
        distinct_keys(element_records(config, path, items, n)),
        forall|a: int|
            0 <= a < element_records(config, path, items, n).len() ==> under_element(
                config,
                path,
                n,
                (#[trigger] element_records(config, path, items, n)[a]).0,
            ),
    decreases items, n,
{
    if n > 0 {
        let m = (n - 1) as nat;
        let earlier = element_records(config, path, items, m);
        let child = index_key(config, path, m);
        let part = records_of(config, child, items[m as int]);
        let all = element_records(config, path, items, n);
        lemma_elements_distinct(config, path, items, m);
        lemma_distinct_keys(config, child, items[m as int]);
        lemma_keys_continue(config, child, items[m as int]);
        assert forall|a: int| 0 <= a < all.len() implies under_element(
            config,
            path,
            n,
            (#[trigger] all[a]).0,
        ) by {
            if a < earlier.len() {
                assert(all[a] == earlier[a]);
                let i = choose|i: nat|
                    i < m && continues(config, #[trigger] index_key(config, path, i), earlier[a].0);
                assert(i < n && continues(config, index_key(config, path, i), all[a].0));
            } else {
                assert(all[a] == part[a - earlier.len()]);
                assert(m < n && continues(config, index_key(config, path, m), all[a].0));
            }
        }
        assert forall|a: int, b: int| 0 <= a < b < all.len() implies (#[trigger] all[a]).0 != (
        #[trigger] all[b]).0 by {
            if b < earlier.len() {
                assert(all[a] == earlier[a] && all[b] == earlier[b]);
            } else if a >= earlier.len() {
                assert(all[a] == part[a - earlier.len()] && all[b] == part[b - earlier.len()]);
            } else {
                assert(all[a] == earlier[a] && all[b] == part[b - earlier.len()]);
                let i = choose|i: nat|
                    i < m && continues(config, #[trigger] index_key(config, path, i), earlier[a].0);
                if all[a].0 == all[b].0 {
                    lemma_one_element(config, path, i, m, all[a].0);
                }
            }
        }
    }
}

/// Under an orderly configuration, no two records of the first `n` fields
/// of a mapping with plain, unique names and plain values share a key, and
/// each key continues the path of one of those fields.
proof fn lemma_entries_distinct(
    config: ConfigView,
    path: Seq<char>,
    entries: Seq<(Seq<char>, ValueView)>,
    n: nat,
)
    requires
        orderly(config),
        n <= entries.len(),
        names_unique(entries),
        forall|i: int|
            0 <= i < entries.len() ==> plain_name(config, (#[trigger] entries[i]).0) && plain(
                config,
                entries[i].1,
            ),
    ensures
        distinct_keys(entry_records(config, path, entries, n)),
        forall|a: int|
            0 <= a < entry_records(config, path, entries, n).len() ==> under_entry(
                config,
                path,
                entries,
                n,
                (#[trigger] entry_records(config, path, entries, n)[a]).0,
            ),
    decreases entries, n,
{
    if n > 0 {
        let m = (n - 1) as nat;
        let earlier = entry_records(config, path, entries, m);
        let child = object_key(config, path, entries[m as int].0);
        let part = records_of(config, child, entries[m as int].1);
        let all = entry_records(config, path, entries, n);
        lemma_entries_distinct(config, path, entries, m);
        lemma_distinct_keys(config, child, entries[m as int].1);
        lemma_keys_continue(config, child, entries[m as int].1);
        assert forall|a: int| 0 <= a < all.len() implies under_entry(
            config,
            path,
            entries,
            n,
            (#[trigger] all[a]).0,
        ) by {
            if a < earlier.len() {
                assert(all[a] == earlier[a]);
                let i = choose|i: int|
                    0 <= i < m && continues(
                        config,
                        object_key(config, path, (#[trigger] entries[i]).0),
                        earlier[a].0,
                    );
                assert(0 <= i < n && continues(
                    config,
                    object_key(config, path, entries[i].0),
                    all[a].0,
                ));
            } else {
                assert(all[a] == part[a - earlier.len()]);
                assert(0 <= m < n && continues(
                    config,
                    object_key(config, path, entries[m as int].0),
                    all[a].0,
                ));
            }
        }
        assert forall|a: int, b: int| 0 <= a < b < all.len() implies (#[trigger] all[a]).0 != (
        #[trigger] all[b]).0 by {
            if b < earlier.len() {
                assert(all[a] == earlier[a] && all[b] == earlier[b]);
            } else if a >= earlier.len() {
                assert(all[a] == part[a - earlier.len()] && all[b] == part[b - earlier.len()]);
            } else {
                assert(all[a] == earlier[a] && all[b] == part[b - earlier.len()]);
                let i = choose|i: int|
                    0 <= i < m && continues(
                        config,
                        object_key(config, path, (#[trigger] entries[i]).0),
                        earlier[a].0,
                    );
                if all[a].0 == all[b].0 {
                    lemma_one_field(
                        config,
                        path,
                        entries[i].0,
                        entries[m as int].0,
                        all[a].0,
                    );
                    assert(entries[i].0 != entries[m as int].0);
                }
            }
        }
    }
}

/// Round trip under discipline: where the configuration is orderly and the
/// value plain, and the encoding succeeds, decoding the records for a shape
/// that describes the value gives the value back.
pub proof fn lemma_round_trip_plain(config: ConfigView, value: ValueView, shape: ShapeView)
    requires
        orderly(config),
        plain(config, value),
        describes(shape, value),
        encoding(config, value) is Ok,
    ensures
        distinct_keys(encoding(config, value)->Ok_0),
        unambiguous(encoding(config, value)->Ok_0),
        decoded(config, encoding(config, value)->Ok_0, shape, Seq::empty()) == Ok::<
            ValueView,
            DecodeErrorView,
        >(value),
{
    lemma_distinct_keys(config, Seq::empty(), value);
    lemma_distinct_keys_unambiguous(encoding(config, value)->Ok_0);
    lemma_round_trip(config, value, shape);
}


/// The default configuration is orderly.
pub proof fn lemma_default_orderly()
    ensures
        orderly(crate::config::default_config()),
{
    let config = crate::config::default_config();
    assert forall|digit: char| is_digit(digit) implies !starts_with(
        config.array_len_suffix,
        #[trigger] config.array_separator.push(digit),
    ) by {
        let head = config.array_separator.push(digit);
        if starts_with(config.array_len_suffix, head) {
            assert(config.array_len_suffix.subrange(0, 2)[1] == head[1]);
        }
    }
}

} // verus!
