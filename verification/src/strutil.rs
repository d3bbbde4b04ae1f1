//! The one string-building primitive the library takes on trust.

use vstd::prelude::*;

verus! {

/// Relies on `String::push`: appends the given character to the end of the
/// string.
pub assume_specification[ String::push ](s: &mut String, c: char)
    ensures
        final(s)@ == old(s)@.push(c),
;

/// A one-symbol string holding the seed symbol.
pub(crate) fn push_mid() -> (r: String)
    ensures
        r@ == seq![crate::alphabet::MID_CHAR],
{
    let mut out = String::new();
    out.push(crate::alphabet::MID_CHAR);
    proof {
        assert(out@ =~= seq![crate::alphabet::MID_CHAR]);
    }
    out
}

} // verus!
