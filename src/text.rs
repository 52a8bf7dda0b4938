use vstd::prelude::*;

use crate::sample_parser::float_len;

verus! {

/// The bit pattern of the binary64 number nearest to a float literal.
pub uninterp spec fn f64_bits_of(token: Seq<char>) -> u64;

/// Relies on `str::chars`: the characters of a string, in order.
#[verifier::external_body]
pub(crate) fn to_chars(s: &str) -> (r: Vec<char>)
    ensures
        r@ == s@,
{
    s.chars().collect()
}

/// Relies on `String`'s `FromIterator<&char>`: the string of the characters
/// `cs[from..to]`.
#[verifier::external_body]
pub(crate) fn to_string(cs: &Vec<char>, from: usize, to: usize) -> (r: String)
    requires
        from <= to <= cs.len(),
    ensures
        r@ == cs@.subrange(from as int, to as int),
{
    cs[from..to].iter().collect()
}

/// Relies on `nom::number::complete::double`, which takes the longest float
/// literal at the start of its input, the same one `float_len` takes, and
/// converts it with `str::parse`; std's float grammar accepts every such
/// literal, so the call succeeds on `cs[from..to]`.
#[verifier::external_body]
pub(crate) fn parse_double(cs: &Vec<char>, from: usize, to: usize) -> (r: Option<u64>)
    requires
        from <= to <= cs.len(),
        float_len(cs@.skip(from as int)) == Some((to - from) as nat),
    ensures
        r == Some(f64_bits_of(cs@.subrange(from as int, to as int))),
{
    let text: String = cs[from..to].iter().collect();
    nom::number::complete::double::<&str, nom::error::Error<&str>>(&text).ok().map(|(_, v)| v.to_bits())
}

} // verus!
