//! Which names may stand for a file in the wallet's directory.

use vstd::prelude::*;
use vstd::string::StringSliceAdditionalSpecFns;

verus! {

/// The byte `/`.
pub const SLASH: u8 = 0x2f;

/// The byte `\`.
pub const BACKSLASH: u8 = 0x5c;

/// The byte `.`.
pub const DOT: u8 = 0x2e;

/// The bytes are the name of one file in a directory: not empty, without
/// a separator, and neither `.` nor `..`. Joined to a directory, such a
/// name stays inside it.
pub open spec fn is_plain_name(bytes: Seq<u8>) -> bool {
    &&& bytes.len() > 0
    &&& forall|i: int| 0 <= i < bytes.len() ==> bytes[i] != SLASH && bytes[i] != BACKSLASH
    &&& !(bytes.len() == 1 && bytes[0] == DOT)
    &&& !(bytes.len() == 2 && bytes[0] == DOT && bytes[1] == DOT)
}

/// Whether the text is the name of one file in a directory.
pub fn is_file_name(name: &str) -> (plain: bool)
    ensures
        plain == is_plain_name(name.spec_bytes()),
{
    let bytes: &[u8] = name.as_bytes();
    if bytes.len() == 0 {
        return false;
    }
    if bytes.len() == 1 && bytes[0] == DOT {
        return false;
    }
    if bytes.len() == 2 && bytes[0] == DOT && bytes[1] == DOT {
        return false;
    }
    let mut i: usize = 0;
    while i < bytes.len()
        invariant
            i <= bytes@.len(),
            bytes@ == name.spec_bytes(),
            forall|k: int| 0 <= k < i ==> bytes@[k] != SLASH && bytes@[k] != BACKSLASH,
        decreases bytes@.len() - i,
    {
        if bytes[i] == SLASH || bytes[i] == BACKSLASH {
            assert(bytes@[i as int] == SLASH || bytes@[i as int] == BACKSLASH);
            return false;
        }
        i = i + 1;
    }
    true
}

} // verus!
