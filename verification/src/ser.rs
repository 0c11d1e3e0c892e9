//! The encoder: walks a structured value depth first and emits its records,
//! stopping at the first record that is too long.

use vstd::prelude::*;
use vstd::string::*;
use crate::config::{ConfigView, TxtRecordConfig};
use crate::decimal::{decimal, render_i64, render_u64, render_usize, signed_decimal};
use crate::path::{compose_index, compose_object, index_key, length_key, marker_key, object_key};
use crate::records::{
    all_fit, element_records, entry_records, fitting_prefix, lemma_element_records_prefix,
    lemma_entry_records_prefix, lemma_fitting_prefix_is, lemma_part_emitted, lemma_part_stopped,
    records_of, rendered_len, RecordView,
};
use crate::text::char_text;
use crate::value::{lemma_mapping_view, lemma_sequence_view, StructuredValue, ValueView};

verus! {

/// Why an encoding failed.
#[derive(Debug)]
pub enum TxtRecordError {
    /// A failure reported by the caller's own code.
    Custom(String),
    /// A value that has no flat form.
    UnsupportedType(String),
    /// A record whose rendered `key=value` form is longer than allowed.
    RecordTooLong { key: String, value: String, max_len: usize, actual_len: usize },
}

/// An encoding failure as plain values.
pub enum EncodeErrorView {
    Custom(Seq<char>),
    UnsupportedType(Seq<char>),
    RecordTooLong { key: Seq<char>, value: Seq<char>, max_len: usize, actual_len: usize },
}

impl View for TxtRecordError {
    type V = EncodeErrorView;

    open spec fn view(&self) -> EncodeErrorView {
        match self {
            TxtRecordError::Custom(message) => EncodeErrorView::Custom(message@),
            TxtRecordError::UnsupportedType(name) => EncodeErrorView::UnsupportedType(name@),
            TxtRecordError::RecordTooLong {
                key,
                value,
                max_len,
                actual_len,
            } => EncodeErrorView::RecordTooLong {
                key: key@,
                value: value@,
                max_len: *max_len,
                actual_len: *actual_len,
            },
        }
    }
}

/// A length as the error reports it: itself, or the greatest `usize` if it
/// is beyond that.
pub open spec fn reported_len(n: nat) -> usize {
    if n > usize::MAX {
        usize::MAX
    } else {
        n as usize
    }
}

/// The failure that a record too long for `config` gives.
pub open spec fn too_long(config: ConfigView, record: RecordView) -> EncodeErrorView {
    EncodeErrorView::RecordTooLong {
        key: record.0,
        value: record.1,
        max_len: config.record_len,
        actual_len: reported_len(rendered_len(record)),
    }
}

/// The text that describes a failure.
pub open spec fn error_text(error: EncodeErrorView) -> Seq<char> {
    match error {
        EncodeErrorView::Custom(message) => message,
        EncodeErrorView::UnsupportedType(name) => "Unsupported type: "@ + name,
        EncodeErrorView::RecordTooLong { key, value, max_len, actual_len } => "Record '"@ + key
            + "="@ + value + "' is too long: "@ + decimal(actual_len as nat)
            + " characters exceeds maximum of "@ + decimal(max_len as nat),
    }
}

impl TxtRecordError {
    /// Describes the failure in words.
    pub fn message(&self) -> (text: String)
        ensures
            text@ == error_text(self@),
    {
        match self {
            TxtRecordError::Custom(message) => message.clone(),
            TxtRecordError::UnsupportedType(name) => {
                let mut text = "Unsupported type: ".to_owned();
                text.append(name.as_str());
                text
            },
            TxtRecordError::RecordTooLong { key, value, max_len, actual_len } => {
                let mut text = "Record '".to_owned();
                text.append(key.as_str());
                text.append("=");
                text.append(value.as_str());
                text.append("' is too long: ");
                let actual = render_usize(*actual_len);
                text.append(actual.as_str());
                text.append(" characters exceeds maximum of ");
                let max = render_usize(*max_len);
                text.append(max.as_str());
                text
            },
        }
    }
}

/// The result of an encoding as plain values: all records of the value if
/// every one fits, else the failure of the first that does not.
pub open spec fn encoding(config: ConfigView, value: ValueView) -> Result<
    Seq<RecordView>,
    EncodeErrorView,
> {
    let records = records_of(config, Seq::empty(), value);
    let k = fitting_prefix(config, records);
    if k == records.len() {
        Ok(records)
    } else {
        Err(too_long(config, records[k as int]))
    }
}

/// An encoder at work: its configuration and the records emitted so far.
#[derive(Debug)]
pub struct TxtRecordSerializer {
    config: TxtRecordConfig,
    output: Vec<(String, String)>,
}

/// An encoder as plain values.
pub struct SerializerView {
    pub config: ConfigView,
    pub output: Seq<RecordView>,
}

/// What handing `records` to an encoder does: those before the first that
/// does not fit are appended to the output, in order; the encoder succeeds if
/// all fit, and otherwise fails on the first that does not.
pub open spec fn emitted(
    before: SerializerView,
    after: SerializerView,
    result: Result<(), TxtRecordError>,
    records: Seq<RecordView>,
) -> bool {
    let k = fitting_prefix(before.config, records);
    &&& after.config == before.config
    &&& after.output == before.output + records.take(k as int)
    &&& match result {
        Ok(_) => k == records.len(),
        Err(error) => k < records.len() && error@ == too_long(before.config, records[k as int]),
    }
}

/// The text of a boolean.
pub open spec fn bool_text(v: bool) -> Seq<char> {
    if v {
        seq!['t', 'r', 'u', 'e']
    } else {
        seq!['f', 'a', 'l', 's', 'e']
    }
}

impl View for TxtRecordSerializer {
    type V = SerializerView;

    closed spec fn view(&self) -> SerializerView {
        SerializerView { config: self.config@, output: self.output.deep_view() }
    }
}

impl TxtRecordSerializer {
    /// An encoder with the default configuration and no output.
    pub fn new() -> (ser: Self)
        ensures
            ser@.config == crate::config::default_config(),
            ser@.output == Seq::<RecordView>::empty(),
    {
        Self::with_config(TxtRecordConfig::default())
    }

    /// An encoder with the given configuration and no output.
    pub fn with_config(config: TxtRecordConfig) -> (ser: Self)
        ensures
            ser@.config == config@,
            ser@.output == Seq::<RecordView>::empty(),
    {
        let ser = TxtRecordSerializer { config, output: Vec::new() };
        assert(ser.output.deep_view() =~= Seq::<RecordView>::empty());
        ser
    }

    /// The records emitted so far, in emission order.
    pub fn finish(self) -> (records: Vec<(String, String)>)
        ensures
            records.deep_view() == self@.output,
    {
        self.output
    }

    /// The configuration this encoder works under.
    pub fn config(&self) -> (config: &TxtRecordConfig)
        ensures
            config@ == self@.config,
    {
        &self.config
    }

    /// Emits one record if its rendered form fits, and fails otherwise.
    pub fn push_record(&mut self, key: String, value: String) -> (result: Result<
        (),
        TxtRecordError,
    >)
        ensures
            emitted(old(self)@, final(self)@, result, seq![(key@, value@)]),
    {
        let ghost record = (key@, value@);
        let key_len = key.as_str().as_bytes().len();
        let value_len = value.as_str().as_bytes().len();
        let max_len = self.config.record_len;
        let overflow = key_len == usize::MAX || value_len > usize::MAX - 1 - key_len;
        let actual_len = if overflow {
            usize::MAX
        } else {
            key_len + 1 + value_len
        };
        assert(actual_len == reported_len(rendered_len(record)));
        if overflow || actual_len > max_len {
            proof {
                lemma_fitting_prefix_is(self@.config, seq![record], 0);
                assert(self@.output + seq![record].take(0) =~= self@.output);
            }
            return Err(TxtRecordError::RecordTooLong { key, value, max_len, actual_len });
        }
        let ghost before = self.output.deep_view();
        self.output.push((key, value));
        proof {
            lemma_fitting_prefix_is(self@.config, seq![record], 1);
            assert(self.output.deep_view() =~= before + seq![record].take(1));
        }
        Ok(())
    }

    /// Emits a text scalar under `path`.
    pub fn serialize_str(&mut self, path: &str, v: &str) -> (result: Result<(), TxtRecordError>)
        ensures
            emitted(old(self)@, final(self)@, result, seq![(path@, v@)]),
    {
        self.push_record(path.to_owned(), v.to_owned())
    }

    /// Emits a boolean under `path`, as `true` or `false`.
    pub fn serialize_bool(&mut self, path: &str, v: bool) -> (result: Result<(), TxtRecordError>)
        ensures
            emitted(old(self)@, final(self)@, result, seq![(path@, bool_text(v))]),
    {
        proof {
            reveal_strlit("true");
            reveal_strlit("false");
            assert("true"@ =~= bool_text(true));
            assert("false"@ =~= bool_text(false));
        }
        if v {
            self.serialize_str(path, "true")
        } else {
            self.serialize_str(path, "false")
        }
    }

    /// Emits a signed integer under `path`, in decimal.
    pub fn serialize_i64(&mut self, path: &str, v: i64) -> (result: Result<(), TxtRecordError>)
        ensures
            emitted(old(self)@, final(self)@, result, seq![(path@, signed_decimal(v as int))]),
    {
        self.push_record(path.to_owned(), render_i64(v))
    }

    /// Emits a signed integer under `path`, in decimal.
    pub fn serialize_i32(&mut self, path: &str, v: i32) -> (result: Result<(), TxtRecordError>)
        ensures
            emitted(old(self)@, final(self)@, result, seq![(path@, signed_decimal(v as int))]),
    {
        self.serialize_i64(path, v as i64)
    }

    /// Emits a signed integer under `path`, in decimal.
    pub fn serialize_i16(&mut self, path: &str, v: i16) -> (result: Result<(), TxtRecordError>)
        ensures
            emitted(old(self)@, final(self)@, result, seq![(path@, signed_decimal(v as int))]),
    {
        self.serialize_i64(path, v as i64)
    }

    /// Emits a signed integer under `path`, in decimal.
    pub fn serialize_i8(&mut self, path: &str, v: i8) -> (result: Result<(), TxtRecordError>)
        ensures
            emitted(old(self)@, final(self)@, result, seq![(path@, signed_decimal(v as int))]),
    {
        self.serialize_i64(path, v as i64)
    }

    /// Emits an unsigned integer under `path`, in decimal.
    pub fn serialize_u64(&mut self, path: &str, v: u64) -> (result: Result<(), TxtRecordError>)
        ensures
            emitted(old(self)@, final(self)@, result, seq![(path@, decimal(v as nat))]),
    {
        self.push_record(path.to_owned(), render_u64(v))
    }

    /// Emits an unsigned integer under `path`, in decimal.
    pub fn serialize_u32(&mut self, path: &str, v: u32) -> (result: Result<(), TxtRecordError>)
        ensures
            emitted(old(self)@, final(self)@, result, seq![(path@, decimal(v as nat))]),
    {
        self.serialize_u64(path, v as u64)
    }

    /// Emits an unsigned integer under `path`, in decimal.
    pub fn serialize_u16(&mut self, path: &str, v: u16) -> (result: Result<(), TxtRecordError>)
        ensures
            emitted(old(self)@, final(self)@, result, seq![(path@, decimal(v as nat))]),
    {
        self.serialize_u64(path, v as u64)
    }

    /// Emits an unsigned integer under `path`, in decimal.
    pub fn serialize_u8(&mut self, path: &str, v: u8) -> (result: Result<(), TxtRecordError>)
        ensures
            emitted(old(self)@, final(self)@, result, seq![(path@, decimal(v as nat))]),
    {
        self.serialize_u64(path, v as u64)
    }

    /// Emits a character under `path`, as the text of that one character.
    pub fn serialize_char(&mut self, path: &str, v: char) -> (result: Result<(), TxtRecordError>)
        ensures
            emitted(old(self)@, final(self)@, result, seq![(path@, seq![v])]),
    {
        self.push_record(path.to_owned(), char_text(v))
    }

    /// Emits the name of a variant without data under `path`.
    pub fn serialize_unit_variant(&mut self, path: &str, variant: &str) -> (result: Result<
        (),
        TxtRecordError,
    >)
        ensures
            emitted(old(self)@, final(self)@, result, seq![(path@, variant@)]),
    {
        self.serialize_str(path, variant)
    }

    /// Emits nothing: an absent value leaves no record.
    pub fn serialize_none(&mut self) -> (result: Result<(), TxtRecordError>)
        ensures
            result is Ok,
            final(self)@ == old(self)@,
    {
        Ok(())
    }

    /// Emits the records of `value` placed at `path`, depth first, up to the
    /// first record that does not fit.
    #[verifier::loop_isolation(false)]
    pub fn serialize(&mut self, path: &str, value: &StructuredValue) -> (result: Result<
        (),
        TxtRecordError,
    >)
        ensures
            emitted(
                old(self)@,
                final(self)@,
                result,
                records_of(old(self)@.config, path@, value@),
            ),
        decreases value, 0nat,
    {
        let ghost start = self@;
        let ghost all = records_of(start.config, path@, value@);
        match value {
            StructuredValue::Scalar(text) => self.serialize_str(path, text.as_str()),
            StructuredValue::Absent => {
                assert(start.output + all.take(0) =~= start.output);
                Ok(())
            },
            StructuredValue::Sequence(items) => {
                let ghost views = value@->Sequence_0;
                proof {
                    lemma_sequence_view(*items);
                }
                let mut seq = SeqSerializer::new(path);
                let mut i: usize = 0;
                assert(start.output + element_records(start.config, path@, views, 0)
                    =~= start.output);
                while i < items.len()
                    invariant
                        i <= items.len(),
                        seq@ == (SeqSerializerView { base_key: path@, index: i }),
                        self@.config == start.config,
                        self@.output == start.output + element_records(
                            start.config,
                            path@,
                            views,
                            i as nat,
                        ),
                        all_fit(start.config, element_records(start.config, path@, views, i as nat)),
                    decreases items.len() - i,
                {
                    let ghost done = element_records(start.config, path@, views, i as nat);
                    let ghost part = records_of(
                        start.config,
                        index_key(start.config, path@, i as nat),
                        views[i as int],
                    );
                    match seq.serialize_element(self, &items[i]) {
                        Ok(_) => {
                            proof {
                                lemma_part_emitted(start.config, start.output, done, part);
                            }
                        },
                        Err(error) => {
                            proof {
                                lemma_element_records_prefix(
                                    start.config,
                                    path@,
                                    views,
                                    (i + 1) as nat,
                                    views.len(),
                                );
                                lemma_part_stopped(start.config, start.output, done, part, all);
                            }
                            return Err(error);
                        },
                    }
                    i += 1;
                }
                let ghost done = element_records(start.config, path@, views, views.len());
                let ghost marker = seq![(marker_key(start.config, path@), decimal(views.len()))];
                let result = seq.end(self);
                proof {
                    assert(all =~= done + marker);
                    if result is Ok {
                        lemma_part_emitted(start.config, start.output, done, marker);
                    } else {
                        lemma_part_stopped(start.config, start.output, done, marker, all);
                    }
                }
                result
            },
            StructuredValue::Mapping(entries) => {
                let ghost views = value@->Mapping_0;
                proof {
                    lemma_mapping_view(*entries);
                }
                let mut map = MapSerializer::new(path);
                let mut i: usize = 0;
                assert(start.output + entry_records(start.config, path@, views, 0)
                    =~= start.output);
                while i < entries.len()
                    invariant
                        i <= entries.len(),
                        map@.base_key == path@,
                        self@.config == start.config,
                        self@.output == start.output + entry_records(
                            start.config,
                            path@,
                            views,
                            i as nat,
                        ),
                        all_fit(start.config, entry_records(start.config, path@, views, i as nat)),
                    decreases entries.len() - i,
                {
                    let ghost done = entry_records(start.config, path@, views, i as nat);
                    let ghost part = records_of(
                        start.config,
                        object_key(start.config, path@, views[i as int].0),
                        views[i as int].1,
                    );
                    let entry = &entries[i];
                    match map.serialize_field(self, entry.0.as_str(), &entry.1) {
                        Ok(_) => {
                            proof {
                                lemma_part_emitted(start.config, start.output, done, part);
                            }
                        },
                        Err(error) => {
                            proof {
                                lemma_entry_records_prefix(
                                    start.config,
                                    path@,
                                    views,
                                    (i + 1) as nat,
                                    views.len(),
                                );
                                lemma_part_stopped(start.config, start.output, done, part, all);
                            }
                            return Err(error);
                        },
                    }
                    i += 1;
                }
                proof {
                    lemma_part_emitted(
                        start.config,
                        start.output,
                        all,
                        Seq::<RecordView>::empty(),
                    );
                    assert(all + Seq::<RecordView>::empty() =~= all);
                }
                map.end()
            },
        }
    }
}

impl Default for TxtRecordSerializer {
    fn default() -> (ser: Self)
        ensures
            ser@.config == crate::config::default_config(),
            ser@.output == Seq::<RecordView>::empty(),
    {
        Self::new()
    }
}

/// The encoder's place in a sequence: where the sequence sits, and how many
/// elements it has passed, which is the index of the element that comes next.
#[derive(Debug)]
pub struct SeqSerializer {
    base_key: String,
    index: usize,
}

/// A place in a sequence as plain values.
pub struct SeqSerializerView {
    pub base_key: Seq<char>,
    pub index: usize,
}

impl View for SeqSerializer {
    type V = SeqSerializerView;

    closed spec fn view(&self) -> SeqSerializerView {
        SeqSerializerView { base_key: self.base_key@, index: self.index }
    }
}

impl SeqSerializer {
    /// Starts a sequence at `base_key`, before its first element.
    pub fn new(base_key: &str) -> (seq: Self)
        ensures
            seq@ == (SeqSerializerView { base_key: base_key@, index: 0 }),
    {
        SeqSerializer { base_key: base_key.to_owned(), index: 0 }
    }

    /// The place of the element that comes next, counted from zero.
    pub fn index(&self) -> (index: usize)
        ensures
            index == self@.index,
    {
        self.index
    }

    /// The path of the element that comes next.
    pub fn element_key(&self, config: &TxtRecordConfig) -> (key: String)
        ensures
            key@ == index_key(config@, self@.base_key, self@.index as nat),
    {
        compose_index(config, self.base_key.as_str(), self.index)
    }

    /// Moves on to the next element.
    pub fn advance(&mut self)
        requires
            old(self)@.index < usize::MAX,
        ensures
            final(self)@.base_key == old(self)@.base_key,
            final(self)@.index == old(self)@.index + 1,
    {
        self.index = self.index + 1;
    }

    /// Emits `value` as the next element, and moves past it if that succeeds.
    pub fn serialize_element(
        &mut self,
        ser: &mut TxtRecordSerializer,
        value: &StructuredValue,
    ) -> (result: Result<(), TxtRecordError>)
        requires
            old(self)@.index < usize::MAX,
        ensures
            emitted(
                old(ser)@,
                final(ser)@,
                result,
                records_of(
                    old(ser)@.config,
                    index_key(old(ser)@.config, old(self)@.base_key, old(self)@.index as nat),
                    value@,
                ),
            ),
            final(self)@.base_key == old(self)@.base_key,
            result is Ok ==> final(self)@.index == old(self)@.index + 1,
            result is Err ==> final(self)@ == old(self)@,
        decreases value, 1nat,
    {
        let key = compose_index(&ser.config, self.base_key.as_str(), self.index);
        match ser.serialize(key.as_str(), value) {
            Ok(_) => {
                self.index = self.index + 1;
                Ok(())
            },
            Err(error) => Err(error),
        }
    }

    /// Ends the sequence: emits its length marker, which carries the number
    /// of elements passed.
    pub fn end(self, ser: &mut TxtRecordSerializer) -> (result: Result<(), TxtRecordError>)
        ensures
            emitted(
                old(ser)@,
                final(ser)@,
                result,
                seq![
                    (
                        marker_key(old(ser)@.config, self@.base_key),
                        decimal(self@.index as nat),
                    ),
                ],
            ),
    {
        let key = length_key(&ser.config, self.base_key.as_str());
        ser.push_record(key, render_usize(self.index))
    }
}

/// The encoder's place in a mapping: where the mapping sits, and the path of
/// the entry at hand.
#[derive(Debug)]
pub struct MapSerializer {
    base_key: String,
    entry_key: String,
}

/// A place in a mapping as plain values.
pub struct MapSerializerView {
    pub base_key: Seq<char>,
    pub entry_key: Seq<char>,
}

impl View for MapSerializer {
    type V = MapSerializerView;

    closed spec fn view(&self) -> MapSerializerView {
        MapSerializerView { base_key: self.base_key@, entry_key: self.entry_key@ }
    }
}

/// The path of the entry whose key, encoded on its own, gave `key_records`:
/// the path of the field named by the first record's value, or the path as it
/// was where the key gave no record.
pub open spec fn keyed_entry(
    config: ConfigView,
    map: MapSerializerView,
    key_records: Seq<RecordView>,
) -> MapSerializerView {
    if key_records.len() > 0 {
        MapSerializerView {
            entry_key: object_key(config, map.base_key, key_records[0].1),
            ..map
        }
    } else {
        map
    }
}

impl MapSerializer {
    /// Starts a mapping at `base_key`, before its first entry.
    pub fn new(base_key: &str) -> (map: Self)
        ensures
            map@ == (MapSerializerView { base_key: base_key@, entry_key: base_key@ }),
    {
        MapSerializer { base_key: base_key.to_owned(), entry_key: base_key.to_owned() }
    }

    /// The path of the entry at hand.
    pub fn entry_key(&self) -> (key: &String)
        ensures
            key@ == self@.entry_key,
    {
        &self.entry_key
    }

    /// Takes the key of the next entry from the records that the key gave
    /// when it was encoded on its own.
    pub fn accept_key(&mut self, config: &TxtRecordConfig, key_records: Vec<(String, String)>)
        ensures
            final(self)@ == keyed_entry(config@, old(self)@, key_records.deep_view()),
    {
        if key_records.len() > 0 {
            assert(key_records.deep_view()[0] == (key_records@[0].0@, key_records@[0].1@));
            self.entry_key = compose_object(
                config,
                self.base_key.as_str(),
                key_records[0].1.as_str(),
            );
        }
    }

    /// Reduces the key of the next entry to text by encoding it on its own,
    /// under the configuration of `ser`, and keeping the value of the first
    /// record that it gives. Fails where that encoding fails.
    pub fn serialize_key(&mut self, ser: &TxtRecordSerializer, key: &StructuredValue) -> (result:
        Result<(), TxtRecordError>)
        ensures
            ({
                let records = records_of(ser@.config, Seq::empty(), key@);
                let k = fitting_prefix(ser@.config, records);
                match result {
                    Ok(_) => k == records.len() && final(self)@ == keyed_entry(
                        ser@.config,
                        old(self)@,
                        records,
                    ),
                    Err(error) => k < records.len() && error@ == too_long(
                        ser@.config,
                        records[k as int],
                    ) && final(self)@ == old(self)@,
                }
            }),
        decreases key, 1nat,
    {
        let mut key_ser = TxtRecordSerializer::with_config(ser.config.clone());
        match key_ser.serialize("", key) {
            Ok(_) => {
                let ghost records = records_of(ser@.config, Seq::empty(), key@);
                proof {
                    assert(""@ =~= Seq::<char>::empty()) by {
                        reveal_strlit("");
                    }
                    assert(Seq::<RecordView>::empty() + records.take(records.len() as int)
                        =~= records);
                }
                self.accept_key(&ser.config, key_ser.finish());
                Ok(())
            },
            Err(error) => {
                proof {
                    assert(""@ =~= Seq::<char>::empty()) by {
                        reveal_strlit("");
                    }
                }
                Err(error)
            },
        }
    }

    /// Emits `value` under the path of the entry at hand.
    pub fn serialize_value(&self, ser: &mut TxtRecordSerializer, value: &StructuredValue) -> (result:
        Result<(), TxtRecordError>)
        ensures
            emitted(
                old(ser)@,
                final(ser)@,
                result,
                records_of(old(ser)@.config, self@.entry_key, value@),
            ),
        decreases value, 1nat,
    {
        ser.serialize(self.entry_key.as_str(), value)
    }

    /// Takes the field named `key` as the entry at hand.
    pub fn select_field(&mut self, config: &TxtRecordConfig, key: &str)
        ensures
            final(self)@ == (MapSerializerView {
                entry_key: object_key(config@, old(self)@.base_key, key@),
                ..old(self)@
            }),
    {
        self.entry_key = compose_object(config, self.base_key.as_str(), key);
    }

    /// Emits `value` as the field named `key`.
    pub fn serialize_field(
        &mut self,
        ser: &mut TxtRecordSerializer,
        key: &str,
        value: &StructuredValue,
    ) -> (result: Result<(), TxtRecordError>)
        ensures
            emitted(
                old(ser)@,
                final(ser)@,
                result,
                records_of(
                    old(ser)@.config,
                    object_key(old(ser)@.config, old(self)@.base_key, key@),
                    value@,
                ),
            ),
            final(self)@ == (MapSerializerView {
                entry_key: object_key(old(ser)@.config, old(self)@.base_key, key@),
                ..old(self)@
            }),
        decreases value, 1nat,
    {
        self.select_field(&ser.config, key);
        ser.serialize(self.entry_key.as_str(), value)
    }

    /// Ends the mapping; a mapping has no record of its own.
    pub fn end(self) -> (result: Result<(), TxtRecordError>)
        ensures
            result is Ok,
    {
        Ok(())
    }
}

/// Encodes `value` under the default configuration.
pub fn to_txt_records(value: &StructuredValue) -> (result: Result<
    Vec<(String, String)>,
    TxtRecordError,
>)
    ensures
        match result {
            Ok(records) => encoding(crate::config::default_config(), value@) == Ok::<
                Seq<RecordView>,
                EncodeErrorView,
            >(records.deep_view()),
            Err(error) => encoding(crate::config::default_config(), value@) == Err::<
                Seq<RecordView>,
                EncodeErrorView,
            >(error@),
        },
{
    to_txt_records_with_config(value, TxtRecordConfig::default())
}

/// Encodes `value` placed at the empty root: its records in emission order
/// if every one fits the length ceiling of `config`, else the failure of the
/// first that does not.
pub fn to_txt_records_with_config(value: &StructuredValue, config: TxtRecordConfig) -> (result:
    Result<Vec<(String, String)>, TxtRecordError>)
    ensures
        match result {
            Ok(records) => encoding(config@, value@) == Ok::<Seq<RecordView>, EncodeErrorView>(
                records.deep_view(),
            ),
            Err(error) => encoding(config@, value@) == Err::<Seq<RecordView>, EncodeErrorView>(
                error@,
            ),
        },
{
    let mut serializer = TxtRecordSerializer::with_config(config);
    proof {
        reveal_strlit("");
        assert(""@ =~= Seq::<char>::empty());
    }
    match serializer.serialize("", value) {
        Ok(_) => {
            proof {
                let records = records_of(config@, Seq::empty(), value@);
                assert(Seq::<RecordView>::empty() + records.take(records.len() as int)
                    =~= records);
            }
            Ok(serializer.finish())
        },
        Err(error) => Err(error),
    }
}

} // verus!
