//! The registry string subtypes a `PATH` value can be stored as.

use crate::expand::{has_env_token, has_token};
use vstd::prelude::*;

verus! {

/// Registry type code of a plain string value.
pub const REG_SZ_CODE: u32 = 1;

/// Registry type code of an environment-expandable string value.
pub const REG_EXPAND_SZ_CODE: u32 = 2;

/// How a value was read from the registry, or has to be written to it.
///
/// `Other` stands for every registry value type that is not a string subtype;
/// it can be read, and is never written.
#[derive(Clone, Copy, Debug, PartialEq, Eq, Structural)]
pub enum ValueEncoding {
    Plain,
    Expandable,
    Other,
}

impl ValueEncoding {
    /// The encoding that a registry type code stands for.
    pub open spec fn of_code(code: u32) -> ValueEncoding {
        if code == REG_SZ_CODE {
            ValueEncoding::Plain
        } else if code == REG_EXPAND_SZ_CODE {
            ValueEncoding::Expandable
        } else {
            ValueEncoding::Other
        }
    }

    /// Classifies a registry type code.
    pub fn from_code(code: u32) -> (e: ValueEncoding)
        ensures
            e == Self::of_code(code),
    {
        if code == REG_SZ_CODE {
            ValueEncoding::Plain
        } else if code == REG_EXPAND_SZ_CODE {
            ValueEncoding::Expandable
        } else {
            ValueEncoding::Other
        }
    }

    /// The registry type code of a string subtype; `None` for `Other`.
    pub fn code(self) -> (c: Option<u32>)
        ensures
            self == ValueEncoding::Plain ==> c == Some(REG_SZ_CODE),
            self == ValueEncoding::Expandable ==> c == Some(REG_EXPAND_SZ_CODE),
            self == ValueEncoding::Other ==> c.is_none(),
            c matches Some(k) ==> Self::of_code(k) == self,
    {
        match self {
            ValueEncoding::Plain => Some(REG_SZ_CODE),
            ValueEncoding::Expandable => Some(REG_EXPAND_SZ_CODE),
            ValueEncoding::Other => None,
        }
    }
}

/// The encoding that a `PATH` text has to be written with: expandable if it
/// holds a token; otherwise the string subtype that it was read as, and plain
/// if it was read as no string subtype.
pub open spec fn encoding_for(text: Seq<char>, previous: ValueEncoding) -> ValueEncoding {
    if has_token(text) {
        ValueEncoding::Expandable
    } else if previous == ValueEncoding::Expandable {
        ValueEncoding::Expandable
    } else {
        ValueEncoding::Plain
    }
}

/// Chooses the registry string subtype for a serialized `PATH` text. A text
/// with a `%NAME%` token is expandable. Without one the previous encoding is
/// kept if it is a string subtype, so an expandable value stays expandable
/// after its tokens were removed; anything else becomes plain.
pub fn select_encoding(serialized_text: &str, previous_encoding: ValueEncoding) -> (e:
    ValueEncoding)
    ensures
        e == encoding_for(serialized_text@, previous_encoding),
        e != ValueEncoding::Other,
        has_token(serialized_text@) ==> e == ValueEncoding::Expandable,
        !has_token(serialized_text@) && previous_encoding != ValueEncoding::Other ==> e
            == previous_encoding,
{
    if has_env_token(serialized_text) {
        ValueEncoding::Expandable
    } else {
        match previous_encoding {
            ValueEncoding::Plain => ValueEncoding::Plain,
            ValueEncoding::Expandable => ValueEncoding::Expandable,
            ValueEncoding::Other => ValueEncoding::Plain,
        }
    }
}

} // verus!
