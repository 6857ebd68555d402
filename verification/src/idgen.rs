//! Generation of fresh identifier strings.

use vstd::prelude::*;

verus! {

/// A character of a generated identifier: a lower-case hexadecimal digit
/// or a dash.
pub open spec fn is_ident_char(c: char) -> bool {
    ||| c == '-'
    ||| ('0' as u32 <= c as u32 && c as u32 <= '9' as u32)
    ||| ('a' as u32 <= c as u32 && c as u32 <= 'f' as u32)
}

/// The shape of a generated identifier: 36 characters, each a lower-case
/// hexadecimal digit or a dash.
pub open spec fn ident_shaped(s: Seq<char>) -> bool {
    s.len() == 36 && forall|i: int| 0 <= i < s.len() ==> is_ident_char(#[trigger] s[i])
}

/// Relies on `uuid::Uuid::new_v4` and its hyphenated `Display` form: a
/// random version-4 identifier rendered as 36 characters, each a
/// lower-case hexadecimal digit or a dash.  Nothing is promised of the
/// drawn value itself; two calls may differ.
#[verifier::external_body]
pub fn fresh_uuid_string() -> (r: String)
    ensures
        ident_shaped(r@),
{
    uuid::Uuid::new_v4().to_string()
}

} // verus!
