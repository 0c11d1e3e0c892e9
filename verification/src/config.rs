//! The grammar of key paths and the ceiling on a record's length.

use vstd::prelude::*;
use vstd::string::*;

verus! {

/// How key paths are composed, and how long one record may be.
///
/// An encoder and a decoder interoperate only under equal configurations.
/// Nothing checks that the separators and the suffix stay clear of the
/// characters of field names; that is up to the caller.
#[derive(Debug)]
pub struct TxtRecordConfig {
    /// Stands between a sequence's path and an element's index (default `_`).
    pub array_separator: String,
    /// Stands between a mapping's path and a field's name (default `.`).
    pub object_separator: String,
    /// Greatest length in bytes of a record rendered as `key=value` (default 255).
    pub record_len: usize,
    /// Follows a sequence's path in the key of its length marker (default `_len`).
    pub array_len_suffix: String,
}

/// A configuration as plain values.
pub struct ConfigView {
    pub array_separator: Seq<char>,
    pub object_separator: Seq<char>,
    pub record_len: usize,
    pub array_len_suffix: Seq<char>,
}

impl View for TxtRecordConfig {
    type V = ConfigView;

    open spec fn view(&self) -> ConfigView {
        ConfigView {
            array_separator: self.array_separator@,
            object_separator: self.object_separator@,
            record_len: self.record_len,
            array_len_suffix: self.array_len_suffix@,
        }
    }
}

/// The configuration used when none is given.
pub open spec fn default_config() -> ConfigView {
    ConfigView {
        array_separator: seq!['_'],
        object_separator: seq!['.'],
        record_len: 255,
        array_len_suffix: seq!['_', 'l', 'e', 'n'],
    }
}

impl Default for TxtRecordConfig {
    fn default() -> (config: Self)
        ensures
            config@ == default_config(),
    {
        proof {
            reveal_strlit("_");
            reveal_strlit(".");
            reveal_strlit("_len");
        }
        let config = TxtRecordConfig {
            array_separator: "_".to_owned(),
            object_separator: ".".to_owned(),
            record_len: 255,
            array_len_suffix: "_len".to_owned(),
        };
        assert(config.array_separator@ =~= seq!['_']);
        assert(config.object_separator@ =~= seq!['.']);
        assert(config.array_len_suffix@ =~= seq!['_', 'l', 'e', 'n']);
        config
    }
}

impl Clone for TxtRecordConfig {
    fn clone(&self) -> (copy: Self)
        ensures
            copy@ == self@,
    {
        TxtRecordConfig {
            array_separator: self.array_separator.clone(),
            object_separator: self.object_separator.clone(),
            record_len: self.record_len,
            array_len_suffix: self.array_len_suffix.clone(),
        }
    }
}

} // verus!
