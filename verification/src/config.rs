//! Process configuration: a closed set of options with their defaults.

use vstd::prelude::*;

use crate::parser::{ascii_bytes, lit_bytes};

verus! {

/// The recognized configuration options.
#[derive(PartialEq, Eq, Structural, Clone, Copy, Debug)]
pub enum ConfigKey {
    Dir,
    DbFilename,
}

/// The default text of each option.
pub open spec fn def_value(key: ConfigKey) -> Seq<u8> {
    match key {
        ConfigKey::Dir => lit_bytes("DIR"@),
        ConfigKey::DbFilename => lit_bytes("DB_FILENAME"@),
    }
}

impl ConfigKey {
    /// The value an option has until it is set.
    pub fn get_def_value(self) -> (r: Vec<u8>)
        ensures
            r@ == def_value(self),
    {
        proof {
            reveal_strlit("DIR");
            reveal_strlit("DB_FILENAME");
            assert("DIR".is_ascii());
            assert("DB_FILENAME".is_ascii());
        }
        match self {
            ConfigKey::Dir => ascii_bytes("DIR"),
            ConfigKey::DbFilename => ascii_bytes("DB_FILENAME"),
        }
    }
}

/// Mathematical model of the configuration: what each option is set to, if
/// anything.
pub struct ConfigModel {
    pub dir: Option<Seq<u8>>,
    pub dbfilename: Option<Seq<u8>>,
}

/// The option `key` holds in `m`, if set.
pub open spec fn config_entry(m: ConfigModel, key: ConfigKey) -> Option<Seq<u8>> {
    match key {
        ConfigKey::Dir => m.dir,
        ConfigKey::DbFilename => m.dbfilename,
    }
}

/// The text `get` reports for `key` in `m`: what was set, or the default.
pub open spec fn config_value(m: ConfigModel, key: ConfigKey) -> Seq<u8> {
    match config_entry(m, key) {
        Some(v) => v,
        None => def_value(key),
    }
}

/// The settings in force: each recognized option, optionally set to a text.
pub struct Configuration {
    dir: Option<Vec<u8>>,
    dbfilename: Option<Vec<u8>>,
}

impl View for Configuration {
    type V = ConfigModel;

    closed spec fn view(&self) -> ConfigModel {
        ConfigModel {
            dir: match self.dir {
                Some(ref v) => Some(v@),
                None => None,
            },
            dbfilename: match self.dbfilename {
                Some(ref v) => Some(v@),
                None => None,
            },
        }
    }
}

impl Configuration {
    /// A configuration with nothing set: every option reads as its default.
    pub fn new() -> (r: Configuration)
        ensures
            r@ == (ConfigModel { dir: None, dbfilename: None }),
    {
        Configuration { dir: None, dbfilename: None }
    }

    /// Sets `key` to `value`.
    pub fn set(&mut self, key: ConfigKey, value: &Vec<u8>)
        ensures
            config_entry(final(self)@, key) == Some(value@),
            forall|k2: ConfigKey|
                k2 != key ==> #[trigger] config_entry(final(self)@, k2) == config_entry(
                    old(self)@,
                    k2,
                ),
    {
        let owned = crate::parser::copy_bytes(value);
        match key {
            ConfigKey::Dir => {
                self.dir = Some(owned);
            },
            ConfigKey::DbFilename => {
                self.dbfilename = Some(owned);
            },
        }
    }

    /// The text of `key`: what was set, or the option's default.
    pub fn get(&self, key: ConfigKey) -> (r: Vec<u8>)
        ensures
            r@ == config_value(self@, key),
    {
        let slot = match key {
            ConfigKey::Dir => &self.dir,
            ConfigKey::DbFilename => &self.dbfilename,
        };
        match slot {
            Some(v) => crate::parser::copy_bytes(v),
            None => key.get_def_value(),
        }
    }

    /// Clears `key` back to its default.
    pub fn delete(&mut self, key: ConfigKey)
        ensures
            config_entry(final(self)@, key) is None,
            forall|k2: ConfigKey|
                k2 != key ==> #[trigger] config_entry(final(self)@, k2) == config_entry(
                    old(self)@,
                    k2,
                ),
    {
        match key {
            ConfigKey::Dir => {
                self.dir = None;
            },
            ConfigKey::DbFilename => {
                self.dbfilename = None;
            },
        }
    }
}

} // verus!
