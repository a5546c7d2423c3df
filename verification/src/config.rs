//! The settings of a replica, read from what the environment holds.
//!
//! Each function takes the value of one variable, `None` where it is not
//! set, and returns the setting.

use vstd::prelude::*;
use crate::manager::ConfigError;
use crate::protocol::{bytes_equal, parse_u16, parse_u16_spec};

verus! {

/// The bytes of `true`.
pub open spec fn word_true() -> Seq<u8> {
    seq![116, 114, 117, 101]
}

/// The bytes of `1`.
pub open spec fn word_one() -> Seq<u8> {
    seq![49]
}

/// The byte in lower case, where it is an ASCII capital.
pub open spec fn lower(b: u8) -> u8 {
    if 65 <= b && b <= 90 {
        (b + 32) as u8
    } else {
        b
    }
}

/// The text with its ASCII capitals in lower case.
pub open spec fn lower_case(s: Seq<u8>) -> Seq<u8> {
    Seq::new(s.len(), |i: int| lower(s[i]))
}

/// The id of a replica: 0 where the variable is not set, the number that
/// it holds where that is an id, and an error where it holds anything else.
pub open spec fn proc_id_spec(value: Option<Seq<u8>>) -> Result<u16, ConfigError> {
    match value {
        Some(text) => match parse_u16_spec(text) {
            Some(id) => Ok(id),
            None => Err(ConfigError::UnreadableId),
        },
        None => Ok(0u16),
    }
}

/// Whether the replica starts as primary: the variable holds `true`.
pub open spec fn is_primary_spec(value: Option<Seq<u8>>) -> bool {
    value == Some(word_true())
}

/// Whether debug mode is on: the variable holds `1`, or `true` in any
/// mixture of capitals and small letters.
pub open spec fn is_debug_enabled_spec(value: Option<Seq<u8>>) -> bool {
    match value {
        Some(text) => text == word_one() || lower_case(text) == word_true(),
        None => false,
    }
}

/// The id of this replica, from the variable `ID`. A replica whose id is
/// set to something that is no id must not start.
pub fn proc_id(value: Option<&[u8]>) -> (id: Result<u16, ConfigError>)
    ensures
        id == proc_id_spec(
            match value {
                Some(text) => Some(text@),
                None => None,
            },
        ),
{
    match value {
        Some(text) => match parse_u16(text) {
            Some(id) => Ok(id),
            None => Err(ConfigError::UnreadableId),
        },
        None => Ok(0),
    }
}

/// Whether this replica starts as primary, from the variable `PRIMARY`.
pub fn is_primary(value: Option<&[u8]>) -> (primary: bool)
    ensures
        primary == is_primary_spec(
            match value {
                Some(text) => Some(text@),
                None => None,
            },
        ),
{
    match value {
        Some(text) => {
            let word: Vec<u8> = vec![116, 114, 117, 101];
            proof {
                assert(word@ =~= word_true());
            }
            bytes_equal(text, word.as_slice())
        },
        None => false,
    }
}

/// Whether debug mode is on, from the variable `DEBUG`.
pub fn is_debug_enabled(value: Option<&[u8]>) -> (debug: bool)
    ensures
        debug == is_debug_enabled_spec(
            match value {
                Some(text) => Some(text@),
                None => None,
            },
        ),
{
    match value {
        Some(text) => {
            let one: Vec<u8> = vec![49];
            let word: Vec<u8> = vec![116, 114, 117, 101];
            proof {
                assert(one@ =~= word_one());
                assert(word@ =~= word_true());
            }
            if bytes_equal(text, one.as_slice()) {
                return true;
            }
            let mut lowered: Vec<u8> = Vec::new();
            let mut i: usize = 0;
            while i < text.len()
                invariant
                    i <= text@.len(),
                    lowered@ == lower_case(text@.subrange(0, i as int)),
                decreases text@.len() - i,
            {
                let b = text[i];
                let small: u8 = if 65 <= b && b <= 90 {
                    b + 32
                } else {
                    b
                };
                lowered.push(small);
                proof {
                    assert(lowered@ =~= lower_case(text@.subrange(0, i + 1)));
                }
                i += 1;
            }
            proof {
                assert(text@.subrange(0, i as int) =~= text@);
            }
            bytes_equal(lowered.as_slice(), word.as_slice())
        },
        None => false,
    }
}

} // verus!
