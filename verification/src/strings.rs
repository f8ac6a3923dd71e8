//! The bridge between the byte-level codecs and `String`/`&str` values.
//! Every format in this crate is ASCII; non-ASCII input is rejected before
//! any byte-level function runs.

use vstd::prelude::*;
use vstd::string::StrSliceExecFns;

verus! {

/// The characters denoted by a sequence of ASCII bytes.
pub open spec fn ascii_view(s: Seq<u8>) -> Seq<char> {
    s.map(|_i: int, b: u8| b as char)
}

/// The bytes of a sequence of ASCII characters.
pub open spec fn char_bytes(s: Seq<char>) -> Seq<u8> {
    s.map(|_i: int, c: char| c as u8)
}

pub open spec fn all_ascii(s: Seq<char>) -> bool {
    vstd::utf8::is_ascii_chars(s)
}

/// The bytes of `s` when it is ASCII.
pub fn str_to_bytes(s: &str) -> (r: Option<Vec<u8>>)
    ensures
        match r {
            Some(v) => all_ascii(s@) && v@ == char_bytes(s@),
            None => !all_ascii(s@),
        },
{
    if s.is_ascii() {
        let v = s.as_bytes_vec();
        proof {
            vstd::string::is_ascii_spec_bytes(s);
            assert(v@ =~= char_bytes(s@));
            assert(vstd::utf8::is_ascii_chars(s@));
        }
        Some(v)
    } else {
        None
    }
}

/// Relies on `String::from_utf8`: a sequence of bytes below 128 is valid
/// UTF-8 and decodes to the characters with the same code points.
#[verifier::external_body]
pub fn ascii_string(v: Vec<u8>) -> (r: String)
    requires
        forall|i: int| 0 <= i < v@.len() ==> (#[trigger] v@[i]) < 128,
    ensures
        r@ == ascii_view(v@),
{
    match String::from_utf8(v) {
        Ok(s) => s,
        Err(_) => String::new(),
    }
}

} // verus!
