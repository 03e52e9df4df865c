//! Which key is used, and whether it has to be made first.

use vstd::prelude::*;

verus! {

/// What to do for a key.
#[derive(Clone, Copy, Debug, PartialEq, Eq, Structural)]
pub enum KeyStep {
    /// The key file is there: load it.
    Load,
    /// There is no key file: make a key and save it.
    Generate,
    /// There is no key file where one was named: that is an error.
    Missing,
    /// The key file is there: leave it as it is.
    Keep,
}

/// Finds keys.
pub struct EncryptionManager;

impl EncryptionManager {
    /// The names below the directory for configuration that lead to the key in use where none
    /// is named.
    pub fn default_key_location() -> (res: (&'static str, &'static str))
        ensures
            res.0@ == "r_delta"@,
            res.1@ == "secret.key"@,
    {
        ("r_delta", "secret.key")
    }

    /// What to do for the key in use where none is named: it is made when it is first needed.
    pub fn get_default_key(exists: bool) -> (res: KeyStep)
        ensures
            res == (if exists {
                KeyStep::Load
            } else {
                KeyStep::Generate
            }),
    {
        if exists {
            KeyStep::Load
        } else {
            KeyStep::Generate
        }
    }

    /// What to do for the key to work with: a key file that was named has to be there.
    pub fn load_or_generate(is_named: bool, exists: bool) -> (res: KeyStep)
        ensures
            res == (if exists {
                KeyStep::Load
            } else if is_named {
                KeyStep::Missing
            } else {
                KeyStep::Generate
            }),
    {
        if is_named {
            if exists {
                KeyStep::Load
            } else {
                KeyStep::Missing
            }
        } else {
            Self::get_default_key(exists)
        }
    }

    /// The text for a key file that was named and is not there.
    pub fn missing_key_text(path: &str) -> (res: String)
        ensures
            res@ == "Specified key file does not exist: "@ + path@,
    {
        let mut text: String = "Specified key file does not exist: ".to_owned();
        text.append(path);
        text
    }

    /// What to do so that there is a key file: one that is there is never overwritten.
    pub fn ensure_key_exists(exists: bool) -> (res: KeyStep)
        ensures
            res == (if exists {
                KeyStep::Keep
            } else {
                KeyStep::Generate
            }),
    {
        if exists {
            KeyStep::Keep
        } else {
            KeyStep::Generate
        }
    }
}

} // verus!
