//! A codec between structured values and flat TXT records.
//!
//! A structured value is a text leaf, an ordered list, an ordered list of
//! named fields, or nothing. Its flat form is an ordered list of `key=value`
//! records, each within a configured length:
//!
//! - a leaf under `key` becomes `key=value`;
//! - a list under `key` becomes `key_0=..`, `key_1=..`, and `key_len=2`;
//! - fields under `key` become `key.foo=..`, `key.bar=..`.
//!
//! The separators, the length suffix and the greatest record length are
//! configurable. Encoding and decoding are stated over plain mathematical
//! models of values, records and configurations, and proved against them.
//!
//! - [`config`], [`path`]: the configuration and the composition of key paths.
//! - [`value`], [`shape`]: structured values, and what a decoder is asked to find.
//! - [`records`], [`ser`]: which records a value becomes, and the encoder.
//! - [`lookup`], [`decode`], [`de`]: what records show at a path, and the decoder.
//! - [`text`], [`decimal`], [`scalar`]: text search, decimal numbers, typed leaves.
//! - [`encoding_laws`], [`decoding_laws`], [`round_trip`]: what holds of every
//!   encoding and decoding.
//! - [`discipline`], [`placement`], [`inference_laws`], [`plain_round_trip`]:
//!   what holds where names and configuration keep the parts of a key apart.

pub mod config;
pub mod de;
pub mod decimal;
pub mod decode;
pub mod decoding_laws;
pub mod discipline;
pub mod encoding_laws;
pub mod inference_laws;
pub mod lookup;
pub mod path;
pub mod placement;
pub mod plain_round_trip;
pub mod records;
pub mod round_trip;
pub mod scalar;
pub mod ser;
pub mod shape;
pub mod text;
pub mod value;

pub use config::TxtRecordConfig;
pub use de::{
    from_txt_records, from_txt_records_with_config, DeserializeError, MapAccess, SeqAccess,
    TxtRecordDeserializer,
};
pub use ser::{
    to_txt_records, to_txt_records_with_config, MapSerializer, SeqSerializer, TxtRecordError,
    TxtRecordSerializer,
};
pub use decode::Resolution;
pub use shape::{ScalarKind, Shape};
pub use value::StructuredValue;
