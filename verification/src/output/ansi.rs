//! Removing terminal escape sequences from text.
use vstd::prelude::*;

verus! {

/// What `fast_strip_ansi::strip_ansi_string` leaves of a text.
pub uninterp spec fn ansi_stripped(text: Seq<char>) -> Seq<char>;

/// `fast_strip_ansi::strip_ansi_string` removes terminal escape sequences
/// from a text.
#[verifier::external_body]
pub(crate) fn strip_ansi(text: &str) -> (r: String)
    ensures
        r@ == ansi_stripped(text@),
{
    fast_strip_ansi::strip_ansi_string(text).into_owned()
}

} // verus!
