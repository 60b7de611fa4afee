//! Byte strings of ASCII text literals.

use vstd::prelude::*;

verus! {

/// Bytes of an ASCII text.
pub open spec fn ascii_bytes(s: Seq<char>) -> Seq<u8> {
    s.map_values(|c: char| c as u8)
}

/// The bytes of an ASCII text.
pub fn ascii_literal(s: &str) -> (v: Vec<u8>)
    requires
        s.is_ascii(),
    ensures
        v@ == ascii_bytes(s@),
{
    proof {
        broadcast use vstd::string::group_string_axioms;
    }
    let v = s.as_bytes_vec();
    assert(v@ =~= ascii_bytes(s@));
    v
}

} // verus!
