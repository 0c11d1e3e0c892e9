//! What a set of records denotes at a path, for a given shape.
//!
//! A shape names what is expected at a path. Under `Any` the records alone
//! decide: a record under the very path makes it a scalar; failing that, a
//! length marker makes it a sequence; failing that, field names found under
//! it make it a mapping; failing all three, the path is missing.

use vstd::pervasive::unreached;
use vstd::prelude::*;
use vstd::string::*;
use crate::config::ConfigView;
use crate::decimal::lemma_decimal_digits;
use crate::de::{
    invalid_length, outcome, DecodeErrorView, DeserializeError, TxtRecordDeserializer,
};
use crate::lookup::{
    array_length, lemma_lookup_key_len, lemma_object_keys_nonempty, lookup, max_key_len,
    object_keys, present,
};
use crate::path::{index_key, length_key, marker_key, object_key};
use crate::records::RecordView;
use crate::scalar::{denotes, kind_name};
use crate::shape::{lemma_struct_view, lemma_tuple_view, ScalarKind, Shape, ShapeView};
use crate::value::{lemma_mapping_view, lemma_sequence_view, StructuredValue, ValueView};

verus! {

/// The failure for a scalar whose text does not denote a value of the kind
/// named `kind`.
pub open spec fn named_parse_failure(kind: Seq<char>, text: Seq<char>) -> DecodeErrorView {
    DecodeErrorView::InvalidValue("Cannot parse '"@ + text + "' as "@ + kind)
}

/// The failure for a scalar whose text does not denote a value of `kind`.
pub open spec fn parse_failure(kind: ScalarKind, text: Seq<char>) -> DecodeErrorView {
    named_parse_failure(kind_name(kind), text)
}

/// The failure for a length marker whose text is not a length.
pub open spec fn bad_length(text: Seq<char>) -> DecodeErrorView {
    DecodeErrorView::InvalidFormat("Invalid array length '"@ + text + "'"@)
}

/// The failure for a field that would sit at the very path of its mapping.
pub open spec fn bad_field(path: Seq<char>) -> DecodeErrorView {
    DecodeErrorView::InvalidFormat("Empty field name under '"@ + path + "'"@)
}

/// The scalar of kind `kind` at `path`: the text stored under `path`, if it
/// denotes a value of that kind.
pub open spec fn scalar_at(records: Seq<RecordView>, kind: ScalarKind, path: Seq<char>) -> Result<
    Seq<char>,
    DecodeErrorView,
> {
    match lookup(records, path) {
        Some(text) => if denotes(kind, text) {
            Ok(text)
        } else {
            Err(parse_failure(kind, text))
        },
        None => Err(DecodeErrorView::MissingField(path)),
    }
}

/// The length of the sequence at `path`. A missing marker is a missing
/// field, named by the marker's key; a marker that holds no length is a
/// format failure.
pub open spec fn sequence_length(config: ConfigView, records: Seq<RecordView>, path: Seq<char>)
    -> Result<usize, DecodeErrorView> {
    match lookup(records, marker_key(config, path)) {
        Some(text) => match array_length(config, records, path) {
            Some(n) => Ok(n),
            None => Err(bad_length(text)),
        },
        None => Err(DecodeErrorView::MissingField(marker_key(config, path))),
    }
}

/// A sequence of the given items, or the failure that stopped them.
pub open spec fn as_sequence(items: Result<Seq<ValueView>, DecodeErrorView>) -> Result<
    ValueView,
    DecodeErrorView,
> {
    match items {
        Ok(items) => Ok(ValueView::Sequence(items)),
        Err(error) => Err(error),
    }
}

/// A mapping of the given entries, or the failure that stopped them.
pub open spec fn as_mapping(entries: Result<Seq<(Seq<char>, ValueView)>, DecodeErrorView>)
    -> Result<ValueView, DecodeErrorView> {
    match entries {
        Ok(entries) => Ok(ValueView::Mapping(entries)),
        Err(error) => Err(error),
    }
}

/// How far the path is from being longer than every key. Nothing lies at or
/// under a path that is longer than every key.
pub open spec fn depth_left(records: Seq<RecordView>, path: Seq<char>) -> nat {
    if path.len() <= max_key_len(records) {
        (max_key_len(records) - path.len() + 1) as nat
    } else {
        0
    }
}

/// What occupies a path, as far as one look at the records shows.
#[derive(Debug)]
pub enum Resolution {
    /// A scalar with this text.
    Scalar(String),
    /// A sequence of this many elements.
    Sequence(usize),
    /// A mapping with these fields.
    Mapping(Vec<String>),
}

/// A resolution as plain values.
pub enum ResolutionView {
    Scalar(Seq<char>),
    Sequence(usize),
    Mapping(Seq<Seq<char>>),
}

impl View for Resolution {
    type V = ResolutionView;

    open spec fn view(&self) -> ResolutionView {
        match self {
            Resolution::Scalar(text) => ResolutionView::Scalar(text@),
            Resolution::Sequence(len) => ResolutionView::Sequence(*len),
            Resolution::Mapping(names) => ResolutionView::Mapping(names.deep_view()),
        }
    }
}

/// What occupies `path`, by the records alone, in strict order of
/// precedence: a record under the very path makes it a scalar; failing that,
/// a length marker makes it a sequence of the length it carries; failing
/// that, field names found under the path make it a mapping of those fields;
/// failing all three, the path is missing.
pub open spec fn resolved(config: ConfigView, records: Seq<RecordView>, path: Seq<char>)
    -> Result<ResolutionView, DecodeErrorView> {
    match lookup(records, path) {
        Some(text) => Ok(ResolutionView::Scalar(text)),
        None => match lookup(records, marker_key(config, path)) {
            Some(text) => match array_length(config, records, path) {
                Some(n) => Ok(ResolutionView::Sequence(n)),
                None => Err(bad_length(text)),
            },
            None => {
                let names = object_keys(config, records, path);
                if names.len() > 0 {
                    Ok(ResolutionView::Mapping(names))
                } else {
                    Err(DecodeErrorView::MissingField(path))
                }
            },
        },
    }
}

/// The result of a resolution, as plain values.
pub open spec fn resolution_outcome(result: Result<Resolution, DeserializeError>) -> Result<
    ResolutionView,
    DecodeErrorView,
> {
    match result {
        Ok(resolution) => Ok(resolution@),
        Err(error) => Err(error@),
    }
}

/// What the records alone show at `path`: what occupies it, and for a
/// sequence or a mapping, what the records alone show at each element or
/// field.
pub open spec fn inferred(config: ConfigView, records: Seq<RecordView>, path: Seq<char>)
    -> Result<ValueView, DecodeErrorView>
    decreases depth_left(records, path), 1nat, 0nat,
{
    match resolved(config, records, path) {
        Ok(ResolutionView::Scalar(text)) => Ok(ValueView::Scalar(text)),
        Ok(ResolutionView::Sequence(n)) => as_sequence(
            inferred_elements(config, records, path, n as nat),
        ),
        Ok(ResolutionView::Mapping(names)) => as_mapping(
            inferred_fields(config, records, path, names, names.len()),
        ),
        Err(error) => Err(error),
    }
}

/// What the records show at the first `n` elements of the sequence at
/// `path`, up to the first failure.
pub open spec fn inferred_elements(
    config: ConfigView,
    records: Seq<RecordView>,
    path: Seq<char>,
    n: nat,
) -> Result<Seq<ValueView>, DecodeErrorView>
    decreases depth_left(records, path), 0nat, n,
    when path.len() <= max_key_len(records)
{
    if n == 0 {
        Ok(Seq::empty())
    } else {
        match inferred_elements(config, records, path, (n - 1) as nat) {
            Ok(items) => {
                proof {
                    lemma_decimal_digits((n - 1) as nat);
                }
                match inferred(config, records, index_key(config, path, (n - 1) as nat)) {
                    Ok(item) => Ok(items.push(item)),
                    Err(error) => Err(error),
                }
            },
            Err(error) => Err(error),
        }
    }
}

/// What the records show at the first `n` of the fields `names` of the
/// mapping at `path`, up to the first failure. A field whose path would be
/// that of the mapping itself is a format failure.
pub open spec fn inferred_fields(
    config: ConfigView,
    records: Seq<RecordView>,
    path: Seq<char>,
    names: Seq<Seq<char>>,
    n: nat,
) -> Result<Seq<(Seq<char>, ValueView)>, DecodeErrorView>
    decreases depth_left(records, path), 0nat, n,
    when path.len() <= max_key_len(records)
{
    if n == 0 || n > names.len() {
        Ok(Seq::empty())
    } else {
        match inferred_fields(config, records, path, names, (n - 1) as nat) {
            Ok(entries) => {
                let child = object_key(config, path, names[n - 1]);
                if child.len() <= path.len() {
                    Err(bad_field(path))
                } else {
                    match inferred(config, records, child) {
                        Ok(value) => Ok(entries.push((names[n - 1], value))),
                        Err(error) => Err(error),
                    }
                }
            },
            Err(error) => Err(error),
        }
    }
}

/// What the records denote at `path` for the given shape.
pub open spec fn decoded(
    config: ConfigView,
    records: Seq<RecordView>,
    shape: ShapeView,
    path: Seq<char>,
) -> Result<ValueView, DecodeErrorView>
    decreases shape, 0nat,
{
    match shape {
        ShapeView::Any => inferred(config, records, path),
        ShapeView::Scalar(kind) => match scalar_at(records, kind, path) {
            Ok(text) => Ok(ValueView::Scalar(text)),
            Err(error) => Err(error),
        },
        ShapeView::Unit => Ok(ValueView::Absent),
        ShapeView::Optional(inner) => if present(config, records, path) {
            decoded(config, records, *inner, path)
        } else {
            Ok(ValueView::Absent)
        },
        ShapeView::Sequence(inner) => match sequence_length(config, records, path) {
            Ok(n) => as_sequence(decoded_elements(config, records, *inner, path, n as nat)),
            Err(error) => Err(error),
        },
        ShapeView::Tuple(shapes) => as_sequence(
            decoded_tuple(config, records, shapes, path, shapes.len()),
        ),
        ShapeView::Dictionary(inner) => {
            let names = object_keys(config, records, path);
            as_mapping(decoded_entries(config, records, *inner, path, names, names.len()))
        },
        ShapeView::Struct(fields) => as_mapping(
            decoded_fields(config, records, fields, path, fields.len()),
        ),
    }
}

/// The first `n` elements of the sequence at `path`, each of shape `shape`,
/// up to the first failure.
pub open spec fn decoded_elements(
    config: ConfigView,
    records: Seq<RecordView>,
    shape: ShapeView,
    path: Seq<char>,
    n: nat,
) -> Result<Seq<ValueView>, DecodeErrorView>
    decreases shape, n + 1,
{
    if n == 0 {
        Ok(Seq::empty())
    } else {
        match decoded_elements(config, records, shape, path, (n - 1) as nat) {
            Ok(items) => match decoded(
                config,
                records,
                shape,
                index_key(config, path, (n - 1) as nat),
            ) {
                Ok(item) => Ok(items.push(item)),
                Err(error) => Err(error),
            },
            Err(error) => Err(error),
        }
    }
}

/// The first `n` elements of the sequence at `path`, element `i` of shape
/// `shapes[i]`, up to the first failure.
pub open spec fn decoded_tuple(
    config: ConfigView,
    records: Seq<RecordView>,
    shapes: Seq<ShapeView>,
    path: Seq<char>,
    n: nat,
) -> Result<Seq<ValueView>, DecodeErrorView>
    decreases shapes, n,
{
    if n == 0 || n > shapes.len() {
        Ok(Seq::empty())
    } else {
        match decoded_tuple(config, records, shapes, path, (n - 1) as nat) {
            Ok(items) => match decoded(
                config,
                records,
                shapes[n - 1],
                index_key(config, path, (n - 1) as nat),
            ) {
                Ok(item) => Ok(items.push(item)),
                Err(error) => Err(error),
            },
            Err(error) => Err(error),
        }
    }
}

/// The first `n` of the fields `names` of the mapping at `path`, each of
/// shape `shape`, up to the first failure.
pub open spec fn decoded_entries(
    config: ConfigView,
    records: Seq<RecordView>,
    shape: ShapeView,
    path: Seq<char>,
    names: Seq<Seq<char>>,
    n: nat,
) -> Result<Seq<(Seq<char>, ValueView)>, DecodeErrorView>
    decreases shape, n + 1,
{
    if n == 0 || n > names.len() {
        Ok(Seq::empty())
    } else {
        match decoded_entries(config, records, shape, path, names, (n - 1) as nat) {
            Ok(entries) => match decoded(
                config,
                records,
                shape,
                object_key(config, path, names[n - 1]),
            ) {
                Ok(value) => Ok(entries.push((names[n - 1], value))),
                Err(error) => Err(error),
            },
            Err(error) => Err(error),
        }
    }
}

/// The first `n` of the given fields of the mapping at `path`, each of its
/// own shape, up to the first failure.
pub open spec fn decoded_fields(
    config: ConfigView,
    records: Seq<RecordView>,
    fields: Seq<(Seq<char>, ShapeView)>,
    path: Seq<char>,
    n: nat,
) -> Result<Seq<(Seq<char>, ValueView)>, DecodeErrorView>
    decreases fields, n,
{
    if n == 0 || n > fields.len() {
        Ok(Seq::empty())
    } else {
        match decoded_fields(config, records, fields, path, (n - 1) as nat) {
            Ok(entries) => match decoded(
                config,
                records,
                fields[n - 1].1,
                object_key(config, path, fields[n - 1].0),
            ) {
                Ok(value) => Ok(entries.push((fields[n - 1].0, value))),
                Err(error) => Err(error),
            },
            Err(error) => Err(error),
        }
    }
}

/// The views of decoded items, in order.
pub open spec fn item_views(items: Seq<StructuredValue>) -> Seq<ValueView> {
    items.map_values(|item: StructuredValue| item@)
}

/// The names and views of decoded entries, in order.
pub open spec fn entry_views(entries: Seq<(String, StructuredValue)>) -> Seq<
    (Seq<char>, ValueView),
> {
    entries.map_values(|entry: (String, StructuredValue)| (entry.0@, entry.1@))
}

/// A sequence of the given items.
fn sequence_of(items: Vec<StructuredValue>) -> (value: StructuredValue)
    ensures
        value@ == ValueView::Sequence(item_views(items@)),
{
    proof {
        lemma_sequence_view(items);
        assert(StructuredValue::Sequence(items)@->Sequence_0 =~= item_views(items@));
    }
    StructuredValue::Sequence(items)
}

/// A mapping of the given entries.
fn mapping_of(entries: Vec<(String, StructuredValue)>) -> (value: StructuredValue)
    ensures
        value@ == ValueView::Mapping(entry_views(entries@)),
{
    proof {
        lemma_mapping_view(entries);
        assert(StructuredValue::Mapping(entries)@->Mapping_0 =~= entry_views(entries@));
    }
    StructuredValue::Mapping(entries)
}

impl TxtRecordDeserializer {
    /// Finds what occupies `path`, by the records alone: a scalar, else a
    /// sequence, else a mapping.
    pub fn resolve(&self, path: &str) -> (result: Result<Resolution, DeserializeError>)
        ensures
            resolution_outcome(result) == resolved(self@.config, self@.records, path@),
    {
        match self.get_value(path) {
            Some(text) => Ok(Resolution::Scalar(text.clone())),
            None => {
                let len_key = length_key(self.config(), path);
                match self.get_value(len_key.as_str()) {
                    Some(text) => match self.get_array_length(path) {
                        Some(n) => Ok(Resolution::Sequence(n)),
                        None => Err(invalid_length(text.as_str())),
                    },
                    None => {
                        let names = self.get_object_keys(path);
                        if names.len() > 0 {
                            Ok(Resolution::Mapping(names))
                        } else {
                            Err(DeserializeError::MissingField(path.to_owned()))
                        }
                    },
                }
            },
        }
    }

    /// Decodes what the records alone show at `path`: a scalar, else a
    /// sequence, else a mapping, and so on for each element or field.
    #[verifier::loop_isolation(false)]
    pub fn deserialize_any(&self, path: &str) -> (result: Result<
        StructuredValue,
        DeserializeError,
    >)
        ensures
            outcome(result) == inferred(self@.config, self@.records, path@),
        decreases depth_left(self@.records, path@),
    {
        let ghost config = self@.config;
        let ghost records = self@.records;
        match self.resolve(path) {
            Err(error) => Err(error),
            Ok(Resolution::Scalar(text)) => Ok(StructuredValue::Scalar(text)),
            Ok(Resolution::Sequence(n)) => {
                proof {
                    lemma_lookup_key_len(records, marker_key(config, path@));
                }
                let mut items: Vec<StructuredValue> = Vec::new();
                let mut access = self.deserialize_tuple(path, n);
                let mut i: usize = 0;
                assert(item_views(items@) =~= Seq::<ValueView>::empty());
                while i < n
                    invariant
                        i <= n,
                        path@.len() <= max_key_len(records),
                        access@.base_key == path@,
                        access@.index == i,
                        access@.len == n,
                        inferred_elements(config, records, path@, i as nat) == Ok::<
                            Seq<ValueView>,
                            DecodeErrorView,
                        >(item_views(items@)),
                    decreases n - i,
                {
                    let key = match access.next_key(self.config()) {
                        Some(key) => key,
                        None => unreached(),
                    };
                    proof {
                        lemma_decimal_digits(i as nat);
                    }
                    match self.deserialize_any(key.as_str()) {
                        Ok(item) => {
                            let ghost before = items@;
                            items.push(item);
                            assert(item_views(items@) =~= item_views(before).push(item@));
                        },
                        Err(error) => {
                            proof {
                                lemma_inferred_elements_failed(
                                    config,
                                    records,
                                    path@,
                                    (i + 1) as nat,
                                    n as nat,
                                );
                            }
                            return Err(error);
                        },
                    }
                    i += 1;
                }
                Ok(sequence_of(items))
            },
            Ok(Resolution::Mapping(names)) => {
                proof {
                    lemma_object_keys_nonempty(config, records, path@);
                }
                let ghost wanted = names.deep_view();
                let count = names.len();
                let path_len = path.unicode_len();
                let mut entries: Vec<(String, StructuredValue)> = Vec::new();
                let mut access = self.deserialize_struct(path, names);
                let mut i: usize = 0;
                assert(entry_views(entries@) =~= Seq::<(Seq<char>, ValueView)>::empty());
                while i < count
                    invariant
                        i <= count,
                        count == wanted.len(),
                        path@.len() <= max_key_len(records),
                        access@.base_key == path@,
                        access@.keys == wanted,
                        access@.key_index == i,
                        inferred_fields(config, records, path@, wanted, i as nat) == Ok::<
                            Seq<(Seq<char>, ValueView)>,
                            DecodeErrorView,
                        >(entry_views(entries@)),
                    decreases count - i,
                {
                    let name = match access.next_key() {
                        Some(name) => name.clone(),
                        None => unreached(),
                    };
                    let key = access.next_value_key(self.config());
                    if key.as_str().unicode_len() <= path_len {
                        proof {
                            lemma_inferred_fields_failed(
                                config,
                                records,
                                path@,
                                wanted,
                                (i + 1) as nat,
                                count as nat,
                            );
                        }
                        return Err(invalid_field(path));
                    }
                    match self.deserialize_any(key.as_str()) {
                        Ok(value) => {
                            let ghost before = entries@;
                            entries.push((name, value));
                            assert(entry_views(entries@) =~= entry_views(before).push(
                                (name@, value@),
                            ));
                        },
                        Err(error) => {
                            proof {
                                lemma_inferred_fields_failed(
                                    config,
                                    records,
                                    path@,
                                    wanted,
                                    (i + 1) as nat,
                                    count as nat,
                                );
                            }
                            return Err(error);
                        },
                    }
                    i += 1;
                }
                Ok(mapping_of(entries))
            },
        }
    }

    /// Decodes what the records denote at `path` for the given shape.
    #[verifier::loop_isolation(false)]
    pub fn deserialize(&self, path: &str, shape: &Shape) -> (result: Result<
        StructuredValue,
        DeserializeError,
    >)
        ensures
            outcome(result) == decoded(self@.config, self@.records, shape@, path@),
        decreases shape,
    {
        let ghost config = self@.config;
        let ghost records = self@.records;
        match shape {
            Shape::Any => self.deserialize_any(path),
            Shape::Scalar(kind) => match self.read_scalar(path, *kind) {
                Ok(text) => Ok(StructuredValue::Scalar(text)),
                Err(error) => Err(error),
            },
            Shape::Unit => Ok(StructuredValue::Absent),
            Shape::Optional(inner) => {
                if self.deserialize_option(path) {
                    self.deserialize(path, inner)
                } else {
                    Ok(StructuredValue::Absent)
                }
            },
            Shape::Sequence(inner) => match self.deserialize_seq(path) {
                Ok(found) => {
                    let mut access = found;
                    let n = access.len();
                    let mut items: Vec<StructuredValue> = Vec::new();
                    let mut i: usize = 0;
                    assert(item_views(items@) =~= Seq::<ValueView>::empty());
                    while i < n
                        invariant
                            i <= n,
                            access@.base_key == path@,
                            access@.index == i,
                            access@.len == n,
                            decoded_elements(config, records, inner@, path@, i as nat) == Ok::<
                                Seq<ValueView>,
                                DecodeErrorView,
                            >(item_views(items@)),
                        decreases n - i,
                    {
                        let key = match access.next_key(self.config()) {
                            Some(key) => key,
                            None => unreached(),
                        };
                        match self.deserialize(key.as_str(), inner) {
                            Ok(item) => {
                                let ghost before = items@;
                                items.push(item);
                                assert(item_views(items@) =~= item_views(before).push(item@));
                            },
                            Err(error) => {
                                proof {
                                    lemma_decoded_elements_failed(
                                        config,
                                        records,
                                        inner@,
                                        path@,
                                        (i + 1) as nat,
                                        n as nat,
                                    );
                                }
                                return Err(error);
                            },
                        }
                        i += 1;
                    }
                    Ok(sequence_of(items))
                },
                Err(error) => Err(error),
            },
            Shape::Tuple(shapes) => {
                let ghost views = shape@->Tuple_0;
                proof {
                    lemma_tuple_view(*shapes);
                }
                let n = shapes.len();
                let mut access = self.deserialize_tuple(path, n);
                let mut items: Vec<StructuredValue> = Vec::new();
                let mut i: usize = 0;
                assert(item_views(items@) =~= Seq::<ValueView>::empty());
                while i < n
                    invariant
                        i <= n,
                        access@.base_key == path@,
                        access@.index == i,
                        access@.len == n,
                        decoded_tuple(config, records, views, path@, i as nat) == Ok::<
                            Seq<ValueView>,
                            DecodeErrorView,
                        >(item_views(items@)),
                    decreases n - i,
                {
                    let key = match access.next_key(self.config()) {
                        Some(key) => key,
                        None => unreached(),
                    };
                    match self.deserialize(key.as_str(), &shapes[i]) {
                        Ok(item) => {
                            let ghost before = items@;
                            items.push(item);
                            assert(item_views(items@) =~= item_views(before).push(item@));
                        },
                        Err(error) => {
                            proof {
                                lemma_decoded_tuple_failed(
                                    config,
                                    records,
                                    views,
                                    path@,
                                    (i + 1) as nat,
                                    n as nat,
                                );
                            }
                            return Err(error);
                        },
                    }
                    i += 1;
                }
                Ok(sequence_of(items))
            },
            Shape::Dictionary(inner) => {
                let mut access = self.deserialize_map(path);
                let ghost wanted = access@.keys;
                let count = access.len();
                let mut entries: Vec<(String, StructuredValue)> = Vec::new();
                let mut i: usize = 0;
                assert(entry_views(entries@) =~= Seq::<(Seq<char>, ValueView)>::empty());
                while i < count
                    invariant
                        i <= count,
                        access@.base_key == path@,
                        access@.keys == wanted,
                        access@.key_index == i,
                        decoded_entries(config, records, inner@, path@, wanted, i as nat) == Ok::<
                            Seq<(Seq<char>, ValueView)>,
                            DecodeErrorView,
                        >(entry_views(entries@)),
                    decreases count - i,
                {
                    let name = match access.next_key() {
                        Some(name) => name.clone(),
                        None => unreached(),
                    };
                    let key = access.next_value_key(self.config());
                    match self.deserialize(key.as_str(), inner) {
                        Ok(value) => {
                            let ghost before = entries@;
                            entries.push((name, value));
                            assert(entry_views(entries@) =~= entry_views(before).push(
                                (name@, value@),
                            ));
                        },
                        Err(error) => {
                            proof {
                                lemma_decoded_entries_failed(
                                    config,
                                    records,
                                    inner@,
                                    path@,
                                    wanted,
                                    (i + 1) as nat,
                                    count as nat,
                                );
                            }
                            return Err(error);
                        },
                    }
                    i += 1;
                }
                Ok(mapping_of(entries))
            },
            Shape::Struct(fields) => {
                let ghost views = shape@->Struct_0;
                proof {
                    lemma_struct_view(*fields);
                }
                let count = fields.len();
                let mut entries: Vec<(String, StructuredValue)> = Vec::new();
                let mut i: usize = 0;
                assert(entry_views(entries@) =~= Seq::<(Seq<char>, ValueView)>::empty());
                while i < count
                    invariant
                        i <= count,
                        decoded_fields(config, records, views, path@, i as nat) == Ok::<
                            Seq<(Seq<char>, ValueView)>,
                            DecodeErrorView,
                        >(entry_views(entries@)),
                    decreases count - i,
                {
                    let field = &fields[i];
                    let key = crate::path::compose_object(
                        self.config(),
                        path,
                        field.0.as_str(),
                    );
                    match self.deserialize(key.as_str(), &field.1) {
                        Ok(value) => {
                            let ghost before = entries@;
                            let name = field.0.clone();
                            entries.push((name, value));
                            assert(entry_views(entries@) =~= entry_views(before).push(
                                (name@, value@),
                            ));
                        },
                        Err(error) => {
                            proof {
                                lemma_decoded_fields_failed(
                                    config,
                                    records,
                                    views,
                                    path@,
                                    (i + 1) as nat,
                                    count as nat,
                                );
                            }
                            return Err(error);
                        },
                    }
                    i += 1;
                }
                Ok(mapping_of(entries))
            },
        }
    }
}

/// The failure for a field that would sit at the very path of its mapping.
pub fn invalid_field(path: &str) -> (error: DeserializeError)
    ensures
        error@ == bad_field(path@),
{
    let mut message = "Empty field name under '".to_owned();
    message.append(path);
    message.append("'");
    DeserializeError::InvalidFormat(message)
}

/// Once an element fails, the sequence fails with it, however many elements
/// follow.
pub proof fn lemma_inferred_elements_failed(
    config: ConfigView,
    records: Seq<RecordView>,
    path: Seq<char>,
    m: nat,
    n: nat,
)
    requires
        m <= n,
        path.len() <= max_key_len(records),
        inferred_elements(config, records, path, m) is Err,
    ensures
        inferred_elements(config, records, path, n) == inferred_elements(config, records, path, m),
    decreases n - m,
{
    if m < n {
        lemma_inferred_elements_failed(config, records, path, m, (n - 1) as nat);
    }
}

/// Once a field fails, the mapping fails with it, however many fields follow.
pub proof fn lemma_inferred_fields_failed(
    config: ConfigView,
    records: Seq<RecordView>,
    path: Seq<char>,
    names: Seq<Seq<char>>,
    m: nat,
    n: nat,
)
    requires
        m <= n <= names.len(),
        path.len() <= max_key_len(records),
        inferred_fields(config, records, path, names, m) is Err,
    ensures
        inferred_fields(config, records, path, names, n) == inferred_fields(
            config,
            records,
            path,
            names,
            m,
        ),
    decreases n - m,
{
    if m < n {
        lemma_inferred_fields_failed(config, records, path, names, m, (n - 1) as nat);
    }
}

/// Once an element fails, the sequence fails with it, however many elements
/// follow.
pub proof fn lemma_decoded_elements_failed(
    config: ConfigView,
    records: Seq<RecordView>,
    shape: ShapeView,
    path: Seq<char>,
    m: nat,
    n: nat,
)
    requires
        m <= n,
        decoded_elements(config, records, shape, path, m) is Err,
    ensures
        decoded_elements(config, records, shape, path, n) == decoded_elements(
            config,
            records,
            shape,
            path,
            m,
        ),
    decreases n - m,
{
    if m < n {
        lemma_decoded_elements_failed(config, records, shape, path, m, (n - 1) as nat);
    }
}

/// Once an element fails, the tuple fails with it, however many elements
/// follow.
pub proof fn lemma_decoded_tuple_failed(
    config: ConfigView,
    records: Seq<RecordView>,
    shapes: Seq<ShapeView>,
    path: Seq<char>,
    m: nat,
    n: nat,
)
    requires
        m <= n <= shapes.len(),
        decoded_tuple(config, records, shapes, path, m) is Err,
    ensures
        decoded_tuple(config, records, shapes, path, n) == decoded_tuple(
            config,
            records,
            shapes,
            path,
            m,
        ),
    decreases n - m,
{
    if m < n {
        lemma_decoded_tuple_failed(config, records, shapes, path, m, (n - 1) as nat);
    }
}

/// Once a field fails, the mapping fails with it, however many fields follow.
pub proof fn lemma_decoded_entries_failed(
    config: ConfigView,
    records: Seq<RecordView>,
    shape: ShapeView,
    path: Seq<char>,
    names: Seq<Seq<char>>,
    m: nat,
    n: nat,
)
    requires
        m <= n <= names.len(),
        decoded_entries(config, records, shape, path, names, m) is Err,
    ensures
        decoded_entries(config, records, shape, path, names, n) == decoded_entries(
            config,
            records,
            shape,
            path,
            names,
            m,
        ),
    decreases n - m,
{
    if m < n {
        lemma_decoded_entries_failed(config, records, shape, path, names, m, (n - 1) as nat);
    }
}

/// Once a field fails, the mapping fails with it, however many fields follow.
pub proof fn lemma_decoded_fields_failed(
    config: ConfigView,
    records: Seq<RecordView>,
    fields: Seq<(Seq<char>, ShapeView)>,
    path: Seq<char>,
    m: nat,
    n: nat,
)
    requires
        m <= n <= fields.len(),
        decoded_fields(config, records, fields, path, m) is Err,
    ensures
        decoded_fields(config, records, fields, path, n) == decoded_fields(
            config,
            records,
            fields,
            path,
            m,
        ),
    decreases n - m,
{
    if m < n {
        lemma_decoded_fields_failed(config, records, fields, path, m, (n - 1) as nat);
    }
}

} // verus!
