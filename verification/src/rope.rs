//! The boundary to the external persistent rope: an immutable, structurally
//! shared sequence of characters. Every operation of the rope that the
//! library relies on is declared here, with the contract it is trusted for;
//! the rest of the library is verified against these contracts alone.

use persistent_rope::Rope;
use vstd::prelude::*;

verus! {

#[verifier::external_type_specification]
#[verifier::external_body]
pub struct ExRope(Rope);

/// The sequence of characters a rope snapshot holds, in order.
pub uninterp spec fn rope_chars(r: Rope) -> Seq<char>;

/// The number of line-break characters in a character sequence.
pub open spec fn line_break_count(s: Seq<char>) -> nat
    decreases s.len(),
{
    if s.len() == 0 {
        0
    } else {
        (if s[0] == '\n' {
            1nat
        } else {
            0nat
        }) + line_break_count(s.drop_first())
    }
}

/// Relies on persistent_rope::Rope::new: an empty rope.
#[verifier::external_body]
pub fn rope_new() -> (r: Rope)
    ensures
        rope_chars(r) == Seq::<char>::empty(),
{
    Rope::new()
}

/// Relies on persistent_rope::Rope::concat: the characters of both ropes,
/// in order, leaving both arguments untouched.
#[verifier::external_body]
pub fn rope_concat(a: &Rope, b: &Rope) -> (r: Rope)
    ensures
        rope_chars(r) == rope_chars(*a) + rope_chars(*b),
{
    a.concat(b)
}

/// Relies on persistent_rope::Rope::chars_len: the number of characters.
#[verifier::external_body]
pub fn rope_len(r: &Rope) -> (n: usize)
    ensures
        n == rope_chars(*r).len(),
{
    r.chars_len()
}

/// Relies on persistent_rope::Rope::count_lines: the number of line-break
/// characters.
#[verifier::external_body]
pub fn rope_count_lines(r: &Rope) -> (n: usize)
    ensures
        n == line_break_count(rope_chars(*r)),
{
    r.count_lines()
}

/// Relies on From<String> for persistent_rope::Rope: a leaf holding exactly
/// the given characters.
#[verifier::external_body]
pub fn rope_from_chars(v: &Vec<char>) -> (r: Rope)
    ensures
        rope_chars(r) == v@,
{
    Rope::from(v.iter().collect::<String>())
}

/// Relies on persistent_rope::Rope::chars: yields the characters in order.
#[verifier::external_body]
pub fn rope_char_vec(r: &Rope) -> (v: Vec<char>)
    ensures
        v@ == rope_chars(*r),
{
    r.chars().collect()
}

} // verus!
