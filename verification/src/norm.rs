use vstd::prelude::*;

verus! {

/// The lower-cased form of a character sequence, as the standard
/// library's `str::to_lowercase` computes it. The result depends on
/// the characters alone.
pub uninterp spec fn lower_of(s: Seq<char>) -> Seq<char>;

/// A character sequence with its leading and trailing whitespace
/// removed, as the standard library's `str::trim` computes it. The
/// result depends on the characters alone.
pub uninterp spec fn trim_of(s: Seq<char>) -> Seq<char>;

/// Relies on `str::to_lowercase`: returns the lower-case equivalent of
/// the input, a function of the input characters alone.
#[verifier::external_body]
pub(crate) fn lowercase(s: &str) -> (r: String)
    ensures
        r@ == lower_of(s@),
{
    s.to_lowercase()
}

/// Relies on `str::trim`: returns the input without leading and
/// trailing whitespace, a function of the input characters alone.
#[verifier::external_body]
pub(crate) fn trim_ws(s: &str) -> (r: String)
    ensures
        r@ == trim_of(s@),
{
    s.trim().to_string()
}

/// The key an alias is stored under: whitespace trimmed, then lower-cased.
pub open spec fn normal_key(s: Seq<char>) -> Seq<char> {
    lower_of(trim_of(s))
}

/// Normalizes an alias to the form it is stored under.
pub fn normalize(s: &str) -> (r: String)
    ensures
        r@ == normal_key(s@),
{
    let t = trim_ws(s);
    lowercase(t.as_str())
}

} // verus!
