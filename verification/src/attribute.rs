//! Attribute constants for file modes.
//!
//! Which file attributes extraction restores is a small bitmask over three
//! independent flags; restoring timestamps is the default.

use vstd::prelude::*;
use vstd::string::StrSliceExecFns;
use vstd::string::StringExecFns;

verus! {

/// No attribute is set.
pub const ATTRIBUTE_NONE: u8 = 0;
/// Permissions attribute like rw-r--r-- set.
pub const ATTRIBUTE_PERMISSIONS: u8 = 0b1;
/// Owner and group attribute set.
pub const ATTRIBUTE_OWNERS: u8 = 0b10;
/// Access and modified timestamp attributes set.
pub const ATTRIBUTE_TIMESTAMPS: u8 = 0b100;
/// The default attribute selection: timestamps only.
pub const ATTRIBUTE_DEFAULT: u8 = ATTRIBUTE_TIMESTAMPS;

/// The flag that one attribute letter selects, or `None` for any other
/// character.
pub open spec fn attribute_flag_of_char(c: char) -> Option<u8> {
    if c == 'n' {
        Some(ATTRIBUTE_NONE)
    } else if c == 'p' {
        Some(ATTRIBUTE_PERMISSIONS)
    } else if c == 'o' {
        Some(ATTRIBUTE_OWNERS)
    } else if c == 't' {
        Some(ATTRIBUTE_TIMESTAMPS)
    } else {
        None
    }
}

/// The bitmask that an attribute word selects: the union of the flags of its
/// letters, or `None` as soon as one letter is no attribute letter.
pub open spec fn attribute_flags_of(s: Seq<char>) -> Option<u8>
    decreases s.len(),
{
    if s.len() == 0 {
        Some(ATTRIBUTE_NONE)
    } else {
        match attribute_flags_of(s.drop_last()) {
            None => None,
            Some(acc) => match attribute_flag_of_char(s.last()) {
                None => None,
                Some(flag) => Some(acc | flag),
            },
        }
    }
}

/// Parse an attribute word as given on a command line: each letter adds one
/// flag (`n` none, `p` permissions, `o` owners, `t` timestamps), any other
/// letter rejects the whole word.
pub fn parse_attributes(value: &str) -> (r: Result<u8, String>)
    ensures
        match r {
            Ok(flags) => attribute_flags_of(value@) == Some(flags),
            Err(_) => attribute_flags_of(value@) is None,
        },
{
    let len = value.unicode_len();
    let mut acc: u8 = ATTRIBUTE_NONE;
    let mut i: usize = 0;
    while i < len
        invariant
            i <= len,
            len == value@.len(),
            attribute_flags_of(value@.take(i as int)) == Some(acc),
        decreases len - i,
    {
        let c = value.get_char(i);
        let flag: u8 = if c == 'n' {
            ATTRIBUTE_NONE
        } else if c == 'p' {
            ATTRIBUTE_PERMISSIONS
        } else if c == 'o' {
            ATTRIBUTE_OWNERS
        } else if c == 't' {
            ATTRIBUTE_TIMESTAMPS
        } else {
            proof {
                assert(value@.take(i + 1).drop_last() =~= value@.take(i as int));
                assert(value@.take(value@.len() as int) =~= value@);
                lemma_attribute_flags_prefix(value@, i + 1);
            }
            let mut message = String::from_str("Invalid attribute '");
            message.append(value.substring_char(i, i + 1));
            message.append("'.");
            return Err(message);
        };
        proof {
            assert(value@.take(i + 1).drop_last() =~= value@.take(i as int));
            assert(value@.take(i + 1).last() == value@[i as int]);
        }
        acc = acc | flag;
        i = i + 1;
    }
    proof {
        assert(value@.take(len as int) =~= value@);
    }
    Ok(acc)
}

/// Once one letter of the word is no attribute letter, the whole word selects
/// no bitmask.
proof fn lemma_attribute_flags_prefix(s: Seq<char>, i: int)
    requires
        0 < i <= s.len(),
        attribute_flags_of(s.take(i)) is None,
    ensures
        attribute_flags_of(s) is None,
    decreases s.len() - i,
{
    if i < s.len() {
        assert(s.take(i + 1).drop_last() =~= s.take(i));
        lemma_attribute_flags_prefix(s, i + 1);
    } else {
        assert(s.take(i) =~= s);
    }
}

/// Whether an attribute selection asks for timestamps to be restored.
pub fn timestamps_selected(attributes: u8) -> (r: bool)
    ensures
        r == (attributes & ATTRIBUTE_TIMESTAMPS > 0),
{
    attributes & ATTRIBUTE_TIMESTAMPS > 0
}

/// Whether an attribute selection asks for owner and group to be restored.
pub fn owners_selected(attributes: u8) -> (r: bool)
    ensures
        r == (attributes & ATTRIBUTE_OWNERS > 0),
{
    attributes & ATTRIBUTE_OWNERS > 0
}

/// Whether an attribute selection asks for permission bits to be restored.
pub fn permissions_selected(attributes: u8) -> (r: bool)
    ensures
        r == (attributes & ATTRIBUTE_PERMISSIONS > 0),
{
    attributes & ATTRIBUTE_PERMISSIONS > 0
}

} // verus!
