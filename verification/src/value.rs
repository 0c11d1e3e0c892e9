//! Structured values: the form every encoded value takes on its way to and
//! from flat records.

use vstd::prelude::*;

verus! {

/// A value as the codec sees it: a text leaf, an ordered list, an ordered
/// list of named fields, or nothing at all.
#[derive(Debug, PartialEq, Eq)]
pub enum StructuredValue {
    /// A leaf, held as its text.
    Scalar(String),
    /// An ordered list of values.
    Sequence(Vec<StructuredValue>),
    /// Named fields in the caller's order. Names are expected to be unique.
    Mapping(Vec<(String, StructuredValue)>),
    /// No value; it leaves no record behind.
    Absent,
}

/// A structured value as plain mathematical data.
pub enum ValueView {
    Scalar(Seq<char>),
    Sequence(Seq<ValueView>),
    Mapping(Seq<(Seq<char>, ValueView)>),
    Absent,
}

impl View for StructuredValue {
    type V = ValueView;

    open spec fn view(&self) -> ValueView {
        value_view(*self)
    }
}

/// The plain form of a structured value.
pub open spec fn value_view(value: StructuredValue) -> ValueView
    decreases value,
{
    match value {
        StructuredValue::Scalar(text) => ValueView::Scalar(text@),
        StructuredValue::Sequence(items) => ValueView::Sequence(
            Seq::new(
                items@.len(),
                |i: int|
                    if 0 <= i < items@.len() {
                        value_view(items@[i])
                    } else {
                        ValueView::Absent
                    },
            ),
        ),
        StructuredValue::Mapping(entries) => ValueView::Mapping(
            Seq::new(
                entries@.len(),
                |i: int|
                    if 0 <= i < entries@.len() {
                        (entries@[i].0@, value_view(entries@[i].1))
                    } else {
                        (Seq::empty(), ValueView::Absent)
                    },
            ),
        ),
        StructuredValue::Absent => ValueView::Absent,
    }
}

/// No two entries carry the same name.
pub open spec fn names_unique<T>(entries: Seq<(Seq<char>, T)>) -> bool {
    forall|i: int, j: int|
        0 <= i < j < entries.len() ==> (#[trigger] entries[i]).0 != (#[trigger] entries[j]).0
}

impl ValueView {
    /// Field names are unique in every mapping of the value.
    pub open spec fn well_formed(self) -> bool
        decreases self,
    {
        match self {
            ValueView::Scalar(_) => true,
            ValueView::Sequence(items) => forall|i: int|
                0 <= i < items.len() ==> (#[trigger] items[i]).well_formed(),
            ValueView::Mapping(entries) => names_unique(entries) && forall|i: int|
                0 <= i < entries.len() ==> (#[trigger] entries[i]).1.well_formed(),
            ValueView::Absent => true,
        }
    }
}

/// The view of a sequence holds the views of its items, in order.
pub proof fn lemma_sequence_view(items: Vec<StructuredValue>)
    ensures
        StructuredValue::Sequence(items)@ is Sequence,
        StructuredValue::Sequence(items)@->Sequence_0.len() == items@.len(),
        forall|i: int|
            0 <= i < items@.len() ==> StructuredValue::Sequence(items)@->Sequence_0[i]
                == items@[i]@,
{
}

/// The view of a mapping holds the names and the views of its entries, in order.
pub proof fn lemma_mapping_view(entries: Vec<(String, StructuredValue)>)
    ensures
        StructuredValue::Mapping(entries)@ is Mapping,
        StructuredValue::Mapping(entries)@->Mapping_0.len() == entries@.len(),
        forall|i: int|
            0 <= i < entries@.len() ==> StructuredValue::Mapping(entries)@->Mapping_0[i] == (
                entries@[i].0@,
                entries@[i].1@,
            ),
{
}


impl StructuredValue {
    /// A copy that holds the same value.
    #[verifier::loop_isolation(false)]
    pub fn duplicate(&self) -> (copy: Self)
        ensures
            copy@ == self@,
        decreases self,
    {
        match self {
            StructuredValue::Scalar(text) => StructuredValue::Scalar(text.clone()),
            StructuredValue::Absent => StructuredValue::Absent,
            StructuredValue::Sequence(items) => {
                let mut copies: Vec<StructuredValue> = Vec::new();
                let mut i: usize = 0;
                while i < items.len()
                    invariant
                        i <= items.len(),
                        copies@.len() == i,
                        forall|j: int| 0 <= j < i ==> copies@[j]@ == items@[j]@,
                    decreases items.len() - i,
                {
                    copies.push(items[i].duplicate());
                    i += 1;
                }
                proof {
                    lemma_sequence_view(*items);
                    lemma_sequence_view(copies);
                    assert(StructuredValue::Sequence(copies)@->Sequence_0 =~= self@->Sequence_0);
                }
                StructuredValue::Sequence(copies)
            },
            StructuredValue::Mapping(entries) => {
                let mut copies: Vec<(String, StructuredValue)> = Vec::new();
                let mut i: usize = 0;
                while i < entries.len()
                    invariant
                        i <= entries.len(),
                        copies@.len() == i,
                        forall|j: int|
                            0 <= j < i ==> copies@[j].0@ == entries@[j].0@ && copies@[j].1@
                                == entries@[j].1@,
                    decreases entries.len() - i,
                {
                    let entry = &entries[i];
                    copies.push((entry.0.clone(), entry.1.duplicate()));
                    i += 1;
                }
                proof {
                    lemma_mapping_view(*entries);
                    lemma_mapping_view(copies);
                    assert(StructuredValue::Mapping(copies)@->Mapping_0 =~= self@->Mapping_0);
                }
                StructuredValue::Mapping(copies)
            },
        }
    }
}

impl Clone for StructuredValue {
    fn clone(&self) -> (copy: Self)
        ensures
            copy@ == self@,
    {
        self.duplicate()
    }
}

} // verus!
