//! Trusted boundary to `ropey`, the text buffer that holds each open
//! document. A rope is modelled by the character sequence it holds,
//! `rope_text`; every method the library needs is wrapped with a contract
//! over that sequence.

use ropey::Rope;
use vstd::prelude::*;

verus! {

#[verifier::external_type_specification]
#[verifier::external_body]
pub struct ExRope(Rope);

/// The characters a rope holds, in order.
pub uninterp spec fn rope_text(r: Rope) -> Seq<char>;

/// Relies on `Rope::from_str`: the new rope holds exactly the given text.
#[verifier::external_body]
pub fn rope_from_str(s: &str) -> (r: Rope)
    ensures
        rope_text(r) == s@,
{
    Rope::from_str(s)
}

/// Relies on `Rope::chars`: the iterator yields the rope's characters in
/// order.
#[verifier::external_body]
pub fn rope_chars(r: &Rope) -> (v: Vec<char>)
    ensures
        v@ == rope_text(*r),
{
    r.chars().collect()
}

/// Relies on `Rope::insert`: splices `s` in at character index `at`. It
/// panics above `len_chars`, which the precondition rules out.
#[verifier::external_body]
pub fn rope_insert(r: &mut Rope, at: usize, s: &str)
    requires
        at <= rope_text(*old(r)).len(),
    ensures
        rope_text(*final(r)) == rope_text(*old(r)).take(at as int) + s@ + rope_text(
            *old(r),
        ).skip(at as int),
{
    r.insert(at, s)
}

/// Relies on `Rope::remove`: removes the characters of `start..end`. It
/// panics on a reversed or out-of-bounds range, which the precondition
/// rules out.
#[verifier::external_body]
pub fn rope_remove(r: &mut Rope, start: usize, end: usize)
    requires
        start <= end <= rope_text(*old(r)).len(),
    ensures
        rope_text(*final(r)) == rope_text(*old(r)).take(start as int) + rope_text(
            *old(r),
        ).skip(end as int),
{
    r.remove(start..end)
}

/// Relies on ropey's derived `Clone`: the copy holds the same text.
#[verifier::external_body]
pub fn rope_clone(r: &Rope) -> (c: Rope)
    ensures
        rope_text(c) == rope_text(*r),
{
    r.clone()
}

} // verus!
