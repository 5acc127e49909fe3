//! Text that std's formatting produces, named so that contracts can speak of
//! it.
use vstd::prelude::*;

verus! {

/// The decimal text of an integer, as `i64::to_string` writes it.
pub uninterp spec fn decimal(n: i64) -> Seq<char>;

/// The quoted and escaped text of a string, as its `Debug` impl writes it.
pub uninterp spec fn debug_quoted(s: Seq<char>) -> Seq<char>;

/// Relies on `i64::to_string` (through `Display`): the decimal text of `n`,
/// which depends on `n` alone.
#[verifier::external_body]
pub(crate) fn decimal_text(n: i64) -> (r: String)
    ensures
        r@ == decimal(n),
{
    n.to_string()
}

/// Relies on `<str as Debug>::fmt`: `s` quoted and escaped, which depends on
/// `s` alone.
#[verifier::external_body]
pub(crate) fn debug_text(s: &str) -> (r: String)
    ensures
        r@ == debug_quoted(s@),
{
    format!("{:?}", s)
}

} // verus!
