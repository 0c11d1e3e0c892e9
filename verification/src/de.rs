//! The decoder's view of a set of records: lookups by key, and the typed
//! reading of scalars.

use vstd::prelude::*;
use vstd::string::*;
use vstd::utf8::encode_utf8;
use crate::config::{ConfigView, TxtRecordConfig};
use crate::decimal::parse_u64;
use crate::decode::{
    bad_length, decoded, named_parse_failure, parse_failure, scalar_at, sequence_length,
};
use crate::lookup::{
    array_length, field_prefix, lookup, object_keys, object_keys_upto, present, segment,
    without_suffix,
};
use crate::path::{compose_index, compose_object, index_key, length_key, object_key};
use crate::records::RecordView;
use crate::scalar::{
    bool_of, char_of, integer_of, is_valid, name_of, parse_bool, parse_char, parse_i16_text,
    parse_i32_text, parse_i64_text, parse_i8_text, parse_u16_text, parse_u32_text, parse_u64_text,
    parse_u8_text,
};
use crate::shape::{ScalarKind, Shape};
use crate::text::{find, has_prefix, has_suffix, head_to, tail_from, to_chars};
use crate::value::{StructuredValue, ValueView};

verus! {

/// Why a decoding failed.
#[derive(Debug)]
pub enum DeserializeError {
    /// A failure reported by the caller's own code.
    Custom(String),
    /// Records that contradict each other or the key grammar.
    InvalidFormat(String),
    /// Nothing was found where a value was required; holds the path.
    MissingField(String),
    /// A scalar whose text does not denote a value of the expected kind.
    InvalidValue(String),
}

/// A decoding failure as plain values.
pub enum DecodeErrorView {
    Custom(Seq<char>),
    InvalidFormat(Seq<char>),
    MissingField(Seq<char>),
    InvalidValue(Seq<char>),
}

impl View for DeserializeError {
    type V = DecodeErrorView;

    open spec fn view(&self) -> DecodeErrorView {
        match self {
            DeserializeError::Custom(message) => DecodeErrorView::Custom(message@),
            DeserializeError::InvalidFormat(message) => DecodeErrorView::InvalidFormat(message@),
            DeserializeError::MissingField(path) => DecodeErrorView::MissingField(path@),
            DeserializeError::InvalidValue(message) => DecodeErrorView::InvalidValue(message@),
        }
    }
}

/// The text that describes a failure.
pub open spec fn failure_text(error: DecodeErrorView) -> Seq<char> {
    match error {
        DecodeErrorView::Custom(message) => message,
        DecodeErrorView::InvalidFormat(message) => "Invalid format: "@ + message,
        DecodeErrorView::MissingField(path) => "Missing field: "@ + path,
        DecodeErrorView::InvalidValue(message) => "Invalid value: "@ + message,
    }
}

impl DeserializeError {
    /// Describes the failure in words.
    pub fn message(&self) -> (text: String)
        ensures
            text@ == failure_text(self@),
    {
        match self {
            DeserializeError::Custom(message) => message.clone(),
            DeserializeError::InvalidFormat(message) => {
                let mut text = "Invalid format: ".to_owned();
                text.append(message.as_str());
                text
            },
            DeserializeError::MissingField(path) => {
                let mut text = "Missing field: ".to_owned();
                text.append(path.as_str());
                text
            },
            DeserializeError::InvalidValue(message) => {
                let mut text = "Invalid value: ".to_owned();
                text.append(message.as_str());
                text
            },
        }
    }
}

/// A decoder: a configuration and the records to read from.
#[derive(Debug)]
pub struct TxtRecordDeserializer {
    config: TxtRecordConfig,
    records: Vec<(String, String)>,
}

/// A decoder as plain values.
pub struct DeserializerView {
    pub config: ConfigView,
    pub records: Seq<RecordView>,
}

impl View for TxtRecordDeserializer {
    type V = DeserializerView;

    closed spec fn view(&self) -> DeserializerView {
        DeserializerView { config: self.config@, records: self.records.deep_view() }
    }
}

/// The position of a field name inside a record key, as `segment` finds it.
pub open spec fn segment_is(
    config: ConfigView,
    base: Seq<char>,
    key: Seq<char>,
    bounds: Option<(usize, usize)>,
) -> bool {
    match bounds {
        Some((from, to)) => from <= to <= key.len() && segment(config, base, key) == Some(
            key.subrange(from as int, to as int),
        ),
        None => segment(config, base, key) is None,
    }
}

/// Where in `key` the field name lies that the key shows under the mapping
/// at `base`, if it shows one.
fn segment_bounds(
    config: &TxtRecordConfig,
    base: &[char],
    object_separator: &[char],
    array_separator: &[char],
    suffix: &[char],
    key: &[char],
) -> (bounds: Option<(usize, usize)>)
    requires
        object_separator@ == config@.object_separator,
        array_separator@ == config@.array_separator,
        suffix@ == config@.array_len_suffix,
    ensures
        segment_is(config@, base@, key@, bounds),
{
    let mut prefix: Vec<char> = Vec::new();
    if base.len() > 0 {
        let mut i: usize = 0;
        while i < base.len()
            invariant
                i <= base.len(),
                prefix@ == base@.take(i as int),
            decreases base.len() - i,
        {
            prefix.push(base[i]);
            i += 1;
            assert(prefix@ =~= base@.take(i as int));
        }
        let mut j: usize = 0;
        while j < object_separator.len()
            invariant
                j <= object_separator.len(),
                prefix@ == base@ + object_separator@.take(j as int),
            decreases object_separator.len() - j,
        {
            prefix.push(object_separator[j]);
            j += 1;
            assert(prefix@ =~= base@ + object_separator@.take(j as int));
        }
        assert(prefix@ =~= base@ + object_separator@);
    }
    assert(prefix@ =~= field_prefix(config@, base@));
    if !has_prefix(key, prefix.as_slice()) {
        return None;
    }
    let start = prefix.len();
    let rest = tail_from(key, start);
    let named_len = if has_suffix(rest.as_slice(), suffix) {
        rest.len() - suffix.len()
    } else {
        rest.len()
    };
    let named = head_to(rest.as_slice(), named_len);
    assert(named@ =~= without_suffix(config@, rest@));
    let cut = match (find(named.as_slice(), object_separator), find(named.as_slice(), array_separator)) {
        (Some(p), Some(q)) => if p <= q {
            p
        } else {
            q
        },
        (Some(p), None) => p,
        (None, Some(q)) => q,
        (None, None) => named.len(),
    };
    proof {
        crate::text::lemma_first_index_from(named@, object_separator@, 0);
        crate::text::lemma_first_index_from(named@, array_separator@, 0);
        assert(cut <= named@.len() <= rest@.len());
        assert(rest@.len() == key@.len() - start);
        assert(named@.subrange(0, cut as int) =~= key@.subrange(start as int, start + cut));
        assert(named@.subrange(0, named@.len() as int) =~= named@);
    }
    let total = key.len();
    assert(start + cut <= total);
    Some((start, start + cut))
}

/// Whether `name` is among `names`.
fn has_name(names: &Vec<String>, name: &String) -> (found: bool)
    ensures
        found == names.deep_view().contains(name@),
{
    let mut i: usize = 0;
    while i < names.len()
        invariant
            i <= names.len(),
            forall|j: int| 0 <= j < i ==> names.deep_view()[j] != name@,
        decreases names.len() - i,
    {
        if names[i] == *name {
            assert(names.deep_view()[i as int] == name@);
            return true;
        }
        i += 1;
    }
    false
}

impl TxtRecordDeserializer {
    /// A decoder over `records` with the default configuration.
    pub fn new(records: Vec<(String, String)>) -> (de: Self)
        ensures
            de@.config == crate::config::default_config(),
            de@.records == records.deep_view(),
    {
        Self::with_config(records, TxtRecordConfig::default())
    }

    /// A decoder over `records` with the given configuration.
    pub fn with_config(records: Vec<(String, String)>, config: TxtRecordConfig) -> (de: Self)
        ensures
            de@.config == config@,
            de@.records == records.deep_view(),
    {
        TxtRecordDeserializer { config, records }
    }

    /// The configuration this decoder works under.
    pub fn config(&self) -> (config: &TxtRecordConfig)
        ensures
            config@ == self@.config,
    {
        &self.config
    }

    /// The value stored under `key`: that of the last record with this key.
    pub fn get_value(&self, key: &str) -> (value: Option<&String>)
        ensures
            match value {
                Some(text) => lookup(self@.records, key@) == Some(text@),
                None => lookup(self@.records, key@) is None,
            },
    {
        let wanted = key.to_owned();
        let ghost records = self.records.deep_view();
        let mut i: usize = self.records.len();
        assert(records.take(i as int) =~= records);
        while i > 0
            invariant
                i <= self.records.len(),
                records == self.records.deep_view(),
                wanted@ == key@,
                lookup(records, key@) == lookup(records.take(i as int), key@),
            decreases i,
        {
            i -= 1;
            proof {
                let upto = records.take(i + 1);
                assert(upto.drop_last() =~= records.take(i as int));
                assert(upto.last() == (self.records@[i as int].0@, self.records@[i as int].1@));
            }
            if self.records[i].0 == wanted {
                return Some(&self.records[i].1);
            }
        }
        assert(records.take(0).len() == 0);
        None
    }

    /// The length of the sequence at `base_key`, as its marker gives it.
    /// Nothing where there is no marker, or where its text is not an unsigned
    /// decimal that a `usize` holds.
    pub fn get_array_length(&self, base_key: &str) -> (len: Option<usize>)
        ensures
            len == array_length(self@.config, self@.records, base_key@),
    {
        let len_key = length_key(&self.config, base_key);
        match self.get_value(len_key.as_str()) {
            Some(text) => {
                let chars = to_chars(text.as_str());
                match parse_u64(chars.as_slice(), usize::MAX as u64) {
                    Some(n) => Some(n as usize),
                    None => None,
                }
            },
            None => None,
        }
    }

    /// The distinct field names that the record keys show under the mapping
    /// at `base_key`, in order of first appearance.
    pub fn get_object_keys(&self, base_key: &str) -> (keys: Vec<String>)
        ensures
            keys.deep_view() == object_keys(self@.config, self@.records, base_key@),
    {
        let base = to_chars(base_key);
        let object_separator = to_chars(self.config.object_separator.as_str());
        let array_separator = to_chars(self.config.array_separator.as_str());
        let suffix = to_chars(self.config.array_len_suffix.as_str());
        let ghost records = self.records.deep_view();
        let ghost config = self.config@;
        let mut keys: Vec<String> = Vec::new();
        let mut i: usize = 0;
        assert(keys.deep_view() =~= Seq::<Seq<char>>::empty());
        while i < self.records.len()
            invariant
                i <= self.records.len(),
                records == self.records.deep_view(),
                config == self.config@,
                base@ == base_key@,
                object_separator@ == config.object_separator,
                array_separator@ == config.array_separator,
                suffix@ == config.array_len_suffix,
                keys.deep_view() == object_keys_upto(config, records, base_key@, i as nat),
            decreases self.records.len() - i,
        {
            let key = &self.records[i].0;
            assert(records[i as int].0 == key@);
            let chars = to_chars(key.as_str());
            let bounds = segment_bounds(
                &self.config,
                base.as_slice(),
                object_separator.as_slice(),
                array_separator.as_slice(),
                suffix.as_slice(),
                chars.as_slice(),
            );
            let ghost earlier = keys.deep_view();
            match bounds {
                Some((from, to)) => {
                    let name = key.as_str().substring_char(from, to).to_owned();
                    if !has_name(&keys, &name) {
                        keys.push(name);
                        assert(keys.deep_view() =~= earlier.push(name@));
                    }
                },
                None => {},
            }
            i += 1;
        }
        keys
    }
}

/// The result of reading a typed scalar, its failure as plain values.
pub open spec fn typed<T>(result: Result<T, DeserializeError>) -> Result<T, DecodeErrorView> {
    match result {
        Ok(value) => Ok(value),
        Err(error) => Err(error@),
    }
}

/// The result of reading a text, as plain values.
pub open spec fn text_outcome(result: Result<String, DeserializeError>) -> Result<
    Seq<char>,
    DecodeErrorView,
> {
    match result {
        Ok(text) => Ok(text@),
        Err(error) => Err(error@),
    }
}

/// The result of a decoding, as plain values.
pub open spec fn outcome(result: Result<StructuredValue, DeserializeError>) -> Result<
    ValueView,
    DecodeErrorView,
> {
    match result {
        Ok(value) => Ok(value@),
        Err(error) => Err(error@),
    }
}

/// The integer of kind `kind` at `path`.
pub open spec fn integer_at(records: Seq<RecordView>, kind: ScalarKind, path: Seq<char>) -> Result<
    int,
    DecodeErrorView,
> {
    match scalar_at(records, kind, path) {
        Ok(text) => Ok(integer_of(kind, text)->0),
        Err(error) => Err(error),
    }
}

/// The failure for a scalar whose text does not denote a value of the kind
/// named `kind`.
pub fn invalid_text(kind: &str, text: &str) -> (error: DeserializeError)
    ensures
        error@ == named_parse_failure(kind@, text@),
{
    let mut message = "Cannot parse '".to_owned();
    message.append(text);
    message.append("' as ");
    message.append(kind);
    DeserializeError::InvalidValue(message)
}

/// The failure for a scalar whose text does not denote a value of `kind`.
pub fn invalid_value(kind: ScalarKind, text: &str) -> (error: DeserializeError)
    ensures
        error@ == parse_failure(kind, text@),
{
    invalid_text(name_of(kind), text)
}

/// The failure for a length marker whose text is not a length.
pub fn invalid_length(text: &str) -> (error: DeserializeError)
    ensures
        error@ == bad_length(text@),
{
    let mut message = "Invalid array length '".to_owned();
    message.append(text);
    message.append("'");
    DeserializeError::InvalidFormat(message)
}

impl TxtRecordDeserializer {
    /// Reads the scalar at `path` as text of the given kind.
    pub fn read_scalar(&self, path: &str, kind: ScalarKind) -> (result: Result<
        String,
        DeserializeError,
    >)
        ensures
            text_outcome(result) == scalar_at(self@.records, kind, path@),
    {
        match self.get_value(path) {
            Some(text) => {
                if is_valid(kind, text.as_str()) {
                    Ok(text.clone())
                } else {
                    Err(invalid_value(kind, text.as_str()))
                }
            },
            None => Err(DeserializeError::MissingField(path.to_owned())),
        }
    }

    /// Reads the text at `path`.
    pub fn deserialize_str(&self, path: &str) -> (result: Result<String, DeserializeError>)
        ensures
            text_outcome(result) == scalar_at(self@.records, ScalarKind::Text, path@),
    {
        self.read_scalar(path, ScalarKind::Text)
    }

    /// Reads the text at `path` as the bytes of its UTF-8 form.
    pub fn deserialize_bytes(&self, path: &str) -> (result: Result<Vec<u8>, DeserializeError>)
        ensures
            match result {
                Ok(bytes) => scalar_at(self@.records, ScalarKind::Text, path@) matches Ok(text)
                    && bytes@ == encode_utf8(text),
                Err(error) => scalar_at(self@.records, ScalarKind::Text, path@) == Err::<
                    Seq<char>,
                    DecodeErrorView,
                >(error@),
            },
    {
        match self.get_value(path) {
            Some(text) => Ok(text.as_str().as_bytes_vec()),
            None => Err(DeserializeError::MissingField(path.to_owned())),
        }
    }

    /// Reads the boolean at `path`.
    pub fn deserialize_bool(&self, path: &str) -> (result: Result<bool, DeserializeError>)
        ensures
            typed(result) == match scalar_at(self@.records, ScalarKind::Bool, path@) {
                Ok(text) => Ok::<bool, DecodeErrorView>(bool_of(text)->0),
                Err(error) => Err(error),
            },
    {
        match self.get_value(path) {
            Some(text) => match parse_bool(text.as_str()) {
                Some(value) => Ok(value),
                None => Err(invalid_value(ScalarKind::Bool, text.as_str())),
            },
            None => Err(DeserializeError::MissingField(path.to_owned())),
        }
    }

    /// Reads the character at `path`.
    pub fn deserialize_char(&self, path: &str) -> (result: Result<char, DeserializeError>)
        ensures
            typed(result) == match scalar_at(self@.records, ScalarKind::Char, path@) {
                Ok(text) => Ok::<char, DecodeErrorView>(char_of(text)->0),
                Err(error) => Err(error),
            },
    {
        match self.get_value(path) {
            Some(text) => match parse_char(text.as_str()) {
                Some(value) => Ok(value),
                None => Err(invalid_value(ScalarKind::Char, text.as_str())),
            },
            None => Err(DeserializeError::MissingField(path.to_owned())),
        }
    }

    /// Reads the integer at `path`.
    pub fn deserialize_i8(&self, path: &str) -> (result: Result<i8, DeserializeError>)
        ensures
            match result {
                Ok(value) => integer_at(self@.records, ScalarKind::I8, path@) == Ok::<
                    int,
                    DecodeErrorView,
                >(value as int),
                Err(error) => integer_at(self@.records, ScalarKind::I8, path@) == Err::<
                    int,
                    DecodeErrorView,
                >(error@),
            },
    {
        match self.get_value(path) {
            Some(text) => match parse_i8_text(text.as_str()) {
                Some(value) => Ok(value),
                None => Err(invalid_value(ScalarKind::I8, text.as_str())),
            },
            None => Err(DeserializeError::MissingField(path.to_owned())),
        }
    }

    /// Reads the integer at `path`.
    pub fn deserialize_i16(&self, path: &str) -> (result: Result<i16, DeserializeError>)
        ensures
            match result {
                Ok(value) => integer_at(self@.records, ScalarKind::I16, path@) == Ok::<
                    int,
                    DecodeErrorView,
                >(value as int),
                Err(error) => integer_at(self@.records, ScalarKind::I16, path@) == Err::<
                    int,
                    DecodeErrorView,
                >(error@),
            },
    {
        match self.get_value(path) {
            Some(text) => match parse_i16_text(text.as_str()) {
                Some(value) => Ok(value),
                None => Err(invalid_value(ScalarKind::I16, text.as_str())),
            },
            None => Err(DeserializeError::MissingField(path.to_owned())),
        }
    }

    /// Reads the integer at `path`.
    pub fn deserialize_i32(&self, path: &str) -> (result: Result<i32, DeserializeError>)
        ensures
            match result {
                Ok(value) => integer_at(self@.records, ScalarKind::I32, path@) == Ok::<
                    int,
                    DecodeErrorView,
                >(value as int),
                Err(error) => integer_at(self@.records, ScalarKind::I32, path@) == Err::<
                    int,
                    DecodeErrorView,
                >(error@),
            },
    {
        match self.get_value(path) {
            Some(text) => match parse_i32_text(text.as_str()) {
                Some(value) => Ok(value),
                None => Err(invalid_value(ScalarKind::I32, text.as_str())),
            },
            None => Err(DeserializeError::MissingField(path.to_owned())),
        }
    }

    /// Reads the integer at `path`.
    pub fn deserialize_i64(&self, path: &str) -> (result: Result<i64, DeserializeError>)
        ensures
            match result {
                Ok(value) => integer_at(self@.records, ScalarKind::I64, path@) == Ok::<
                    int,
                    DecodeErrorView,
                >(value as int),
                Err(error) => integer_at(self@.records, ScalarKind::I64, path@) == Err::<
                    int,
                    DecodeErrorView,
                >(error@),
            },
    {
        match self.get_value(path) {
            Some(text) => match parse_i64_text(text.as_str()) {
                Some(value) => Ok(value),
                None => Err(invalid_value(ScalarKind::I64, text.as_str())),
            },
            None => Err(DeserializeError::MissingField(path.to_owned())),
        }
    }

    /// Reads the integer at `path`.
    pub fn deserialize_u8(&self, path: &str) -> (result: Result<u8, DeserializeError>)
        ensures
            match result {
                Ok(value) => integer_at(self@.records, ScalarKind::U8, path@) == Ok::<
                    int,
                    DecodeErrorView,
                >(value as int),
                Err(error) => integer_at(self@.records, ScalarKind::U8, path@) == Err::<
                    int,
                    DecodeErrorView,
                >(error@),
            },
    {
        match self.get_value(path) {
            Some(text) => match parse_u8_text(text.as_str()) {
                Some(value) => Ok(value),
                None => Err(invalid_value(ScalarKind::U8, text.as_str())),
            },
            None => Err(DeserializeError::MissingField(path.to_owned())),
        }
    }

    /// Reads the integer at `path`.
    pub fn deserialize_u16(&self, path: &str) -> (result: Result<u16, DeserializeError>)
        ensures
            match result {
                Ok(value) => integer_at(self@.records, ScalarKind::U16, path@) == Ok::<
                    int,
                    DecodeErrorView,
                >(value as int),
                Err(error) => integer_at(self@.records, ScalarKind::U16, path@) == Err::<
                    int,
                    DecodeErrorView,
                >(error@),
            },
    {
        match self.get_value(path) {
            Some(text) => match parse_u16_text(text.as_str()) {
                Some(value) => Ok(value),
                None => Err(invalid_value(ScalarKind::U16, text.as_str())),
            },
            None => Err(DeserializeError::MissingField(path.to_owned())),
        }
    }

    /// Reads the integer at `path`.
    pub fn deserialize_u32(&self, path: &str) -> (result: Result<u32, DeserializeError>)
        ensures
            match result {
                Ok(value) => integer_at(self@.records, ScalarKind::U32, path@) == Ok::<
                    int,
                    DecodeErrorView,
                >(value as int),
                Err(error) => integer_at(self@.records, ScalarKind::U32, path@) == Err::<
                    int,
                    DecodeErrorView,
                >(error@),
            },
    {
        match self.get_value(path) {
            Some(text) => match parse_u32_text(text.as_str()) {
                Some(value) => Ok(value),
                None => Err(invalid_value(ScalarKind::U32, text.as_str())),
            },
            None => Err(DeserializeError::MissingField(path.to_owned())),
        }
    }

    /// Reads the integer at `path`.
    pub fn deserialize_u64(&self, path: &str) -> (result: Result<u64, DeserializeError>)
        ensures
            match result {
                Ok(value) => integer_at(self@.records, ScalarKind::U64, path@) == Ok::<
                    int,
                    DecodeErrorView,
                >(value as int),
                Err(error) => integer_at(self@.records, ScalarKind::U64, path@) == Err::<
                    int,
                    DecodeErrorView,
                >(error@),
            },
    {
        match self.get_value(path) {
            Some(text) => match parse_u64_text(text.as_str()) {
                Some(value) => Ok(value),
                None => Err(invalid_value(ScalarKind::U64, text.as_str())),
            },
            None => Err(DeserializeError::MissingField(path.to_owned())),
        }
    }

    /// Whether anything lies at or under `path`: a scalar, a length marker,
    /// or a field.
    pub fn deserialize_option(&self, path: &str) -> (found: bool)
        ensures
            found == present(self@.config, self@.records, path@),
    {
        if self.get_value(path).is_some() {
            return true;
        }
        let len_key = length_key(&self.config, path);
        if self.get_value(len_key.as_str()).is_some() {
            return true;
        }
        let names = self.get_object_keys(path);
        names.len() > 0
    }

    /// Enters the sequence at `path`: reads its length from its marker.
    pub fn deserialize_seq(&self, path: &str) -> (result: Result<SeqAccess, DeserializeError>)
        ensures
            match result {
                Ok(access) => sequence_length(self@.config, self@.records, path@) == Ok::<
                    usize,
                    DecodeErrorView,
                >(access@.len) && access@.base_key == path@ && access@.index == 0,
                Err(error) => sequence_length(self@.config, self@.records, path@) == Err::<
                    usize,
                    DecodeErrorView,
                >(error@),
            },
    {
        let len_key = length_key(&self.config, path);
        match self.get_value(len_key.as_str()) {
            Some(text) => match self.get_array_length(path) {
                Some(len) => Ok(SeqAccess::new(path, len)),
                None => Err(invalid_length(text.as_str())),
            },
            None => Err(DeserializeError::MissingField(len_key)),
        }
    }

    /// Enters the sequence of `len` elements at `path`; no marker is read.
    pub fn deserialize_tuple(&self, path: &str, len: usize) -> (access: SeqAccess)
        ensures
            access@ == (SeqAccessView { base_key: path@, index: 0, len }),
    {
        SeqAccess::new(path, len)
    }

    /// Enters the mapping at `path` whose fields are those that the record
    /// keys show.
    pub fn deserialize_map(&self, path: &str) -> (access: MapAccess)
        ensures
            access@ == (MapAccessView {
                base_key: path@,
                keys: object_keys(self@.config, self@.records, path@),
                key_index: 0,
            }),
    {
        MapAccess::new(path, self.get_object_keys(path))
    }

    /// Enters the mapping at `path` with exactly the given fields.
    pub fn deserialize_struct(&self, path: &str, fields: Vec<String>) -> (access: MapAccess)
        ensures
            access@ == (MapAccessView { base_key: path@, keys: fields.deep_view(), key_index: 0 }),
    {
        MapAccess::new(path, fields)
    }
}

/// The decoder's place in a sequence: where the sequence sits, which element
/// comes next, and how many there are.
#[derive(Debug)]
pub struct SeqAccess {
    base_key: String,
    index: usize,
    len: usize,
}

/// A place in a sequence as plain values.
pub struct SeqAccessView {
    pub base_key: Seq<char>,
    pub index: usize,
    pub len: usize,
}

impl View for SeqAccess {
    type V = SeqAccessView;

    closed spec fn view(&self) -> SeqAccessView {
        SeqAccessView { base_key: self.base_key@, index: self.index, len: self.len }
    }
}

impl SeqAccess {
    /// Starts at the first of the `len` elements of the sequence at `base_key`.
    pub fn new(base_key: &str, len: usize) -> (access: Self)
        ensures
            access@ == (SeqAccessView { base_key: base_key@, index: 0, len }),
    {
        SeqAccess { base_key: base_key.to_owned(), index: 0, len }
    }

    /// The number of elements of the sequence.
    pub fn len(&self) -> (len: usize)
        ensures
            len == self@.len,
    {
        self.len
    }

    /// The path of the next element, if one is left, moving past it.
    pub fn next_key(&mut self, config: &TxtRecordConfig) -> (key: Option<String>)
        ensures
            old(self)@.index >= old(self)@.len ==> key is None && final(self)@ == old(self)@,
            old(self)@.index < old(self)@.len ==> key is Some && key->0@ == index_key(
                config@,
                old(self)@.base_key,
                old(self)@.index as nat,
            ) && final(self)@.base_key == old(self)@.base_key && final(self)@.len == old(
                self,
            )@.len && final(self)@.index == old(self)@.index + 1,
    {
        if self.index >= self.len {
            return None;
        }
        let key = compose_index(config, self.base_key.as_str(), self.index);
        self.index = self.index + 1;
        Some(key)
    }
}

/// The decoder's place in a mapping: where the mapping sits, its field
/// names, and which field comes next.
#[derive(Debug)]
pub struct MapAccess {
    base_key: String,
    keys: Vec<String>,
    key_index: usize,
}

/// A place in a mapping as plain values.
pub struct MapAccessView {
    pub base_key: Seq<char>,
    pub keys: Seq<Seq<char>>,
    pub key_index: usize,
}

impl View for MapAccess {
    type V = MapAccessView;

    closed spec fn view(&self) -> MapAccessView {
        MapAccessView {
            base_key: self.base_key@,
            keys: self.keys.deep_view(),
            key_index: self.key_index,
        }
    }
}

impl MapAccess {
    /// Starts at the first of the fields `keys` of the mapping at `base_key`.
    pub fn new(base_key: &str, keys: Vec<String>) -> (access: Self)
        ensures
            access@ == (MapAccessView {
                base_key: base_key@,
                keys: keys.deep_view(),
                key_index: 0,
            }),
    {
        MapAccess { base_key: base_key.to_owned(), keys, key_index: 0 }
    }

    /// The number of fields of the mapping.
    pub fn len(&self) -> (len: usize)
        ensures
            len == self@.keys.len(),
    {
        proof {
            assert(self.keys.deep_view().len() == self.keys@.len());
        }
        self.keys.len()
    }

    /// The name of the next field, if one is left. The name is the field's
    /// key as it is: a path segment stands for itself.
    pub fn next_key(&self) -> (key: Option<&String>)
        ensures
            self@.key_index >= self@.keys.len() ==> key is None,
            self@.key_index < self@.keys.len() ==> key is Some && key->0@
                == self@.keys[self@.key_index as int],
    {
        proof {
            assert(self.keys.deep_view().len() == self.keys@.len());
        }
        if self.key_index >= self.keys.len() {
            return None;
        }
        assert(self.keys.deep_view()[self.key_index as int] == self.keys@[self.key_index as int]@);
        Some(&self.keys[self.key_index])
    }

    /// The path of the next field's value, moving past the field.
    pub fn next_value_key(&mut self, config: &TxtRecordConfig) -> (key: String)
        requires
            old(self)@.key_index < old(self)@.keys.len(),
        ensures
            key@ == object_key(
                config@,
                old(self)@.base_key,
                old(self)@.keys[old(self)@.key_index as int],
            ),
            final(self)@.base_key == old(self)@.base_key,
            final(self)@.keys == old(self)@.keys,
            final(self)@.key_index == old(self)@.key_index + 1,
    {
        proof {
            assert(self.keys.deep_view().len() == self.keys@.len());
            assert(self.keys.deep_view()[self.key_index as int] == self.keys@[self.key_index as int]@);
        }
        let count = self.keys.len();
        assert(self.key_index < count);
        let key = compose_object(
            config,
            self.base_key.as_str(),
            self.keys[self.key_index].as_str(),
        );
        self.key_index = self.key_index + 1;
        key
    }
}

/// Decodes what `records` denote at the empty root for the given shape,
/// under the default configuration.
pub fn from_txt_records(records: Vec<(String, String)>, shape: &Shape) -> (result: Result<
    StructuredValue,
    DeserializeError,
>)
    ensures
        outcome(result) == decoded(
            crate::config::default_config(),
            records.deep_view(),
            shape@,
            Seq::empty(),
        ),
{
    from_txt_records_with_config(records, TxtRecordConfig::default(), shape)
}

/// Decodes what `records` denote at the empty root for the given shape.
pub fn from_txt_records_with_config(
    records: Vec<(String, String)>,
    config: TxtRecordConfig,
    shape: &Shape,
) -> (result: Result<StructuredValue, DeserializeError>)
    ensures
        outcome(result) == decoded(config@, records.deep_view(), shape@, Seq::empty()),
{
    let deserializer = TxtRecordDeserializer::with_config(records, config);
    proof {
        reveal_strlit("");
        assert(""@ =~= Seq::<char>::empty());
    }
    deserializer.deserialize("", shape)
}

} // verus!
