//! The flat form of a structured value: which records it becomes, in which
//! order, and which of them fit the length ceiling.

use vstd::prelude::*;
use crate::config::ConfigView;
use crate::decimal::decimal;
use crate::path::{index_key, marker_key, object_key};
use crate::text::utf8_len;
use crate::value::ValueView;

verus! {

/// One record as plain values: its key and its value.
pub type RecordView = (Seq<char>, Seq<char>);

/// Length in bytes of a record rendered as `key=value`.
pub open spec fn rendered_len(record: RecordView) -> nat {
    utf8_len(record.0) + 1 + utf8_len(record.1)
}

/// The record's rendered form is within the configured ceiling.
pub open spec fn fits(config: ConfigView, record: RecordView) -> bool {
    rendered_len(record) <= config.record_len
}

/// Every record is within the configured ceiling.
pub open spec fn all_fit(config: ConfigView, records: Seq<RecordView>) -> bool {
    forall|i: int| 0 <= i < records.len() ==> fits(config, #[trigger] records[i])
}

/// How many records at the front of `records` fit before the first that does
/// not; the length of `records` if all fit.
pub open spec fn fitting_prefix(config: ConfigView, records: Seq<RecordView>) -> nat
    decreases records.len(),
{
    if records.len() == 0 || !fits(config, records[0]) {
        0
    } else {
        1 + fitting_prefix(config, records.drop_first())
    }
}

/// The records of `value` placed at `path`, in emission order.
///
/// A scalar is one record under its path. An absent value leaves nothing. A
/// sequence is its elements' records, element by element, followed by its
/// length marker. A mapping is its fields' records, field by field.
pub open spec fn records_of(config: ConfigView, path: Seq<char>, value: ValueView) -> Seq<
    RecordView,
>
    decreases value,
{
    match value {
        ValueView::Scalar(text) => seq![(path, text)],
        ValueView::Absent => Seq::empty(),
        ValueView::Sequence(items) => element_records(config, path, items, items.len()).push(
            (marker_key(config, path), decimal(items.len())),
        ),
        ValueView::Mapping(entries) => entry_records(config, path, entries, entries.len()),
    }
}

/// The records of the first `n` elements of a sequence at `path`.
pub open spec fn element_records(
    config: ConfigView,
    path: Seq<char>,
    items: Seq<ValueView>,
    n: nat,
) -> Seq<RecordView>
    decreases items, n,
{
    if n == 0 || n > items.len() {
        Seq::empty()
    } else {
        element_records(config, path, items, (n - 1) as nat) + records_of(
            config,
            index_key(config, path, (n - 1) as nat),
            items[n - 1],
        )
    }
}

/// The records of the first `n` fields of a mapping at `path`.
pub open spec fn entry_records(
    config: ConfigView,
    path: Seq<char>,
    entries: Seq<(Seq<char>, ValueView)>,
    n: nat,
) -> Seq<RecordView>
    decreases entries, n,
{
    if n == 0 || n > entries.len() {
        Seq::empty()
    } else {
        entry_records(config, path, entries, (n - 1) as nat) + records_of(
            config,
            object_key(config, path, entries[n - 1].0),
            entries[n - 1].1,
        )
    }
}

/// `fitting_prefix` stops at the first record that does not fit, and
/// everything before it fits.
pub proof fn lemma_fitting_prefix_bounds(config: ConfigView, records: Seq<RecordView>)
    ensures
        fitting_prefix(config, records) <= records.len(),
        forall|i: int|
            0 <= i < fitting_prefix(config, records) ==> fits(config, #[trigger] records[i]),
        fitting_prefix(config, records) < records.len() ==> !fits(
            config,
            records[fitting_prefix(config, records) as int],
        ),
        fitting_prefix(config, records) == records.len() <==> all_fit(config, records),
    decreases records.len(),
{
    if records.len() == 0 || !fits(config, records[0]) {
    } else {
        let rest = records.drop_first();
        lemma_fitting_prefix_bounds(config, rest);
        assert forall|i: int| 0 <= i < fitting_prefix(config, records) implies fits(
            config,
            #[trigger] records[i],
        ) by {
            if i > 0 {
                assert(records[i] == rest[i - 1]);
            }
        }
        if fitting_prefix(config, rest) < rest.len() {
            assert(rest[fitting_prefix(config, rest) as int] == records[fitting_prefix(
                config,
                records,
            ) as int]);
        }
        if all_fit(config, records) {
            assert forall|i: int| 0 <= i < rest.len() implies fits(config, #[trigger] rest[i]) by {
                assert(rest[i] == records[i + 1]);
            }
        }
    }
}

/// A position before which everything fits, and which holds a record that
/// does not (or is the end), is the fitting prefix.
pub proof fn lemma_fitting_prefix_is(config: ConfigView, records: Seq<RecordView>, k: nat)
    requires
        k <= records.len(),
        forall|i: int| 0 <= i < k ==> fits(config, #[trigger] records[i]),
        k < records.len() ==> !fits(config, records[k as int]),
    ensures
        fitting_prefix(config, records) == k,
{
    lemma_fitting_prefix_bounds(config, records);
    let f = fitting_prefix(config, records);
    if f < k {
        assert(fits(config, records[f as int]));
    } else if f > k {
        assert(fits(config, records[k as int]));
    }
}

/// Emitting `part` after `done` where all of `part` fits: everything emitted
/// so far fits, and the output has grown by all of `part`.
pub proof fn lemma_part_emitted(
    config: ConfigView,
    output: Seq<RecordView>,
    done: Seq<RecordView>,
    part: Seq<RecordView>,
)
    requires
        all_fit(config, done),
        fitting_prefix(config, part) == part.len(),
    ensures
        all_fit(config, done + part),
        fitting_prefix(config, done + part) == (done + part).len(),
        output + done + part.take(part.len() as int) == output + (done + part),
        (done + part).take((done + part).len() as int) == done + part,
{
    lemma_fitting_prefix_bounds(config, part);
    assert forall|i: int| 0 <= i < (done + part).len() implies fits(
        config,
        #[trigger] (done + part)[i],
    ) by {
        if i < done.len() {
            assert((done + part)[i] == done[i]);
        } else {
            assert((done + part)[i] == part[i - done.len()]);
        }
    }
    lemma_fitting_prefix_bounds(config, done + part);
    assert(part.take(part.len() as int) =~= part);
    assert(output + done + part =~= output + (done + part));
    assert((done + part).take((done + part).len() as int) =~= done + part);
}

/// Emitting `part` after `done` where `part` holds a record that does not
/// fit: the first such record is the first of all of `whole`, of which
/// `done` and `part` are the front, and the output has grown by what
/// precedes it.
pub proof fn lemma_part_stopped(
    config: ConfigView,
    output: Seq<RecordView>,
    done: Seq<RecordView>,
    part: Seq<RecordView>,
    whole: Seq<RecordView>,
)
    requires
        all_fit(config, done),
        fitting_prefix(config, part) < part.len(),
        (done + part).is_prefix_of(whole),
    ensures
        ({
            let f = fitting_prefix(config, part);
            let k = fitting_prefix(config, whole);
            &&& k == done.len() + f
            &&& k < whole.len()
            &&& whole[k as int] == part[f as int]
            &&& output + done + part.take(f as int) == output + whole.take(k as int)
        }),
{
    let f = fitting_prefix(config, part);
    let k = done.len() + f;
    lemma_fitting_prefix_bounds(config, part);
    assert forall|i: int| 0 <= i < k implies fits(config, #[trigger] whole[i]) by {
        assert(whole[i] == (done + part)[i]);
        if i < done.len() {
            assert((done + part)[i] == done[i]);
        } else {
            assert((done + part)[i] == part[i - done.len()]);
        }
    }
    assert(whole[k as int] == (done + part)[k as int]);
    assert((done + part)[k as int] == part[f as int]);
    lemma_fitting_prefix_is(config, whole, k);
    assert(output + done + part.take(f as int) =~= output + whole.take(k as int)) by {
        assert forall|i: int| 0 <= i < k implies whole.take(k as int)[i] == (done + part.take(
            f as int,
        ))[i] by {
            assert(whole[i] == (done + part)[i]);
        }
        assert(whole.take(k as int) =~= done + part.take(f as int));
    }
}

/// The records of the first `m` elements are the front of the records of the
/// first `n`, for `m <= n`.
pub proof fn lemma_element_records_prefix(
    config: ConfigView,
    path: Seq<char>,
    items: Seq<ValueView>,
    m: nat,
    n: nat,
)
    requires
        m <= n <= items.len(),
    ensures
        element_records(config, path, items, m).is_prefix_of(
            element_records(config, path, items, n),
        ),
    decreases n - m,
{
    if m < n {
        lemma_element_records_prefix(config, path, items, m, (n - 1) as nat);
    }
}

/// The records of the first `m` fields are the front of the records of the
/// first `n`, for `m <= n`.
pub proof fn lemma_entry_records_prefix(
    config: ConfigView,
    path: Seq<char>,
    entries: Seq<(Seq<char>, ValueView)>,
    m: nat,
    n: nat,
)
    requires
        m <= n <= entries.len(),
    ensures
        entry_records(config, path, entries, m).is_prefix_of(
            entry_records(config, path, entries, n),
        ),
    decreases n - m,
{
    if m < n {
        lemma_entry_records_prefix(config, path, entries, m, (n - 1) as nat);
    }
}

} // verus!
