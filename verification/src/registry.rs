//! Where the two `PATH` values live in the registry, and what a read of one
//! of them means.

use crate::codec::{decode_spec, decode_utf16_reg};
use crate::encoding::ValueEncoding;
use vstd::prelude::*;

verus! {

/// Which of the two `PATH` values is meant.
#[derive(Clone, Copy, Debug, PartialEq, Eq, Structural)]
pub enum Scope {
    /// The value of the current user.
    User,
    /// The value of the machine; writing it takes administrator rights.
    System,
}

/// A root of the registry.
#[derive(Clone, Copy, Debug, PartialEq, Eq, Structural)]
pub enum Hive {
    CurrentUser,
    LocalMachine,
}

/// A registry value as it was read: its bytes and the code of its type.
#[derive(Clone, Debug, PartialEq, Eq)]
pub struct RawValue {
    pub bytes: Vec<u8>,
    pub type_code: u32,
}

/// Why a registry write failed, with the status text of the system.
#[derive(Clone, Debug, PartialEq, Eq)]
pub enum RegistryError {
    /// The key could not be opened for writing.
    OpenFailed(String),
    /// The key was opened, and setting the value failed.
    WriteFailed(String),
}

impl Scope {
    /// The root under which the value of this scope lives.
    pub fn hive(self) -> (h: Hive)
        ensures
            h == match self {
                Scope::User => Hive::CurrentUser,
                Scope::System => Hive::LocalMachine,
            },
    {
        match self {
            Scope::User => Hive::CurrentUser,
            Scope::System => Hive::LocalMachine,
        }
    }

    /// The key, below the root, that holds the value of this scope.
    pub fn subkey(self) -> (key: &'static str)
        ensures
            self == Scope::User ==> key@ == "Environment"@,
            self == Scope::System ==> key@
                == "SYSTEM\\CurrentControlSet\\Control\\Session Manager\\Environment"@,
    {
        match self {
            Scope::User => "Environment",
            Scope::System => "SYSTEM\\CurrentControlSet\\Control\\Session Manager\\Environment",
        }
    }

    /// The name of the value, the same in both scopes.
    pub fn value_name(self) -> (name: &'static str)
        ensures
            name@ == "Path"@,
    {
        "Path"
    }

    /// Whether writing the value of this scope takes administrator rights.
    pub fn needs_elevation(self) -> (b: bool)
        ensures
            b == (self == Scope::System),
    {
        match self {
            Scope::User => false,
            Scope::System => true,
        }
    }

    /// The heading under which the list of this scope is shown.
    pub fn panel_title(self) -> (title: &'static str)
        ensures
            self == Scope::User ==> title@ == "User PATH (HKCU)"@,
            self == Scope::System ==> title@ == "System PATH (HKLM)"@,
    {
        match self {
            Scope::User => "User PATH (HKCU)",
            Scope::System => "System PATH (HKLM)",
        }
    }
}

/// What a read of a `PATH` value gives: the text and the encoding of the value
/// that was found, and the empty text as a plain string where none was found.
/// A value that is absent, or a key that cannot be opened, is no failure.
pub fn read_reg_value(found: Option<RawValue>) -> (r: (String, ValueEncoding))
    ensures
        found matches Some(raw) ==> r.0@ == decode_spec(raw.bytes@),
        found matches Some(raw) ==> r.1 == ValueEncoding::of_code(raw.type_code),
        found is None ==> r.0@.len() == 0 && r.1 == ValueEncoding::Plain,
{
    match found {
        Some(raw) => {
            let text = decode_utf16_reg(raw.bytes.as_slice());
            (text, ValueEncoding::from_code(raw.type_code))
        },
        None => (String::new(), ValueEncoding::Plain),
    }
}

} // verus!
