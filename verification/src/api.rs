//! The rank-level operations a caller works with: the seed rank, stepping
//! before or after a rank, placing a rank between two bounds, and the same
//! operations on plain strings with explicit validation.

use vstd::prelude::*;

use crate::alphabet::is_valid_base62;
use crate::alphabet::valid_seq;
use crate::alphabet::MID_CHAR;
use crate::operations::after_seq;
use crate::operations::all_start;
use crate::operations::before_seq;
use crate::operations::between_seq;
use crate::operations::generate_after;
use crate::operations::generate_before;
use crate::operations::generate_between;
use crate::operations::is_minimum_position;
use crate::order::lex_lt;
use crate::rank::LexoRank;
use crate::strutil::push_mid;

verus! {

/// Why a position operation failed.
#[derive(Clone, Copy, Debug, PartialEq, Eq, Structural)]
pub enum PositionError {
    /// A string held a character outside the alphabet.
    InvalidSymbol,
    /// The minimum position has no representable predecessor: callers must
    /// pick another strategy, such as rebalancing first.
    NoPredecessor,
}

/// The character sequence a bound stands for: an absent bound is the empty
/// sequence.
pub open spec fn bound_view(o: Option<LexoRank>) -> Seq<char> {
    match o {
        Some(p) => p@,
        None => Seq::empty(),
    }
}

/// The character sequence a text bound stands for.
pub open spec fn text_bound_view(o: Option<&str>) -> Seq<char> {
    match o {
        Some(s) => s@,
        None => Seq::empty(),
    }
}

/// The seed rank for a new ordered list. Deterministic: every call returns
/// the same rank.
pub fn first() -> (r: LexoRank)
    ensures
        r@ == seq![MID_CHAR],
{
    LexoRank::first()
}

/// The rank directly after the given one; always strictly greater.
pub fn after(current: LexoRank) -> (r: LexoRank)
    ensures
        r@ == after_seq(current@),
        lex_lt(current@, r@),
{
    let s = generate_after(current.as_str());
    LexoRank::new(s)
}

/// The rank directly before the given one; strictly smaller. The minimum
/// rank (non-empty, every symbol the smallest) has no predecessor and is
/// reported as such.
pub fn before(current: LexoRank) -> (r: Result<LexoRank, PositionError>)
    ensures
        r is Err <==> current@.len() > 0 && all_start(current@),
        r is Err ==> r == Err::<LexoRank, PositionError>(PositionError::NoPredecessor),
        r matches Ok(p) ==> p@ == before_seq(current@) && (current@.len() > 0 ==> lex_lt(
            p@,
            current@,
        )),
{
    let s = current.as_str();
    if is_minimum_position(s) {
        return Err(PositionError::NoPredecessor);
    }
    let stepped = generate_before(s);
    Ok(LexoRank::new(stepped))
}

/// A rank between the two bounds, either of which may be absent: no bounds
/// give the seed rank, one bound defers to the rank before or after it, and
/// bounds out of order fall back to the rank after the lower one. Fails
/// only when the upper bound is the minimum position and the lower bound is
/// absent or empty, so that no predecessor exists.
pub fn between(before_pos: Option<LexoRank>, after_pos: Option<LexoRank>) -> (r: Result<
    LexoRank,
    PositionError,
>)
    ensures
        ({
            let a = bound_view(before_pos);
            let b = bound_view(after_pos);
            &&& (r is Err <==> a.len() == 0 && b.len() > 0 && all_start(b))
            &&& (r is Err ==> r == Err::<LexoRank, PositionError>(PositionError::NoPredecessor))
            &&& (r matches Ok(p) ==> p@ == between_seq(a, b) && lex_lt(a, p@))
        }),
{
    let ghost a = bound_view(before_pos);
    let ghost b = bound_view(after_pos);
    let a_str = match &before_pos {
        Some(p) => p.as_str(),
        None => "",
    };
    let b_str = match &after_pos {
        Some(p) => p.as_str(),
        None => "",
    };
    proof {
        reveal_strlit("");
        assert(""@ =~= Seq::<char>::empty());
        assert(a_str@ == a);
        assert(b_str@ == b);
    }
    if a_str.is_empty() && is_minimum_position(b_str) {
        return Err(PositionError::NoPredecessor);
    }
    Ok(LexoRank::new(generate_between(a_str, b_str)))
}

/// The rank following the largest stored position, or the seed rank when no
/// position is stored yet: the deciding half of appending to a list whose
/// current maximum the caller has fetched. An invalid stored string is
/// reported, never stepped.
pub fn next(max_position: Option<String>) -> (r: Result<LexoRank, PositionError>)
    ensures
        ({
            match max_position {
                None => r matches Ok(p) && p@ == seq![MID_CHAR],
                Some(s) => {
                    &&& (valid_seq(s@) ==> (r matches Ok(p) && p@ == after_seq(s@) && lex_lt(
                        s@,
                        p@,
                    )))
                    &&& (!valid_seq(s@) ==> r == Err::<LexoRank, PositionError>(
                        PositionError::InvalidSymbol,
                    ))
                },
            }
        }),
{
    match max_position {
        None => Ok(LexoRank::first()),
        Some(s) => {
            if !is_valid_base62(s.as_str()) {
                return Err(PositionError::InvalidSymbol);
            }
            Ok(LexoRank::new(generate_after(s.as_str())))
        },
    }
}

/// The position string directly after the given one; rejects strings not
/// written in the alphabet.
pub fn after_text(current: &str) -> (r: Result<String, PositionError>)
    ensures
        !valid_seq(current@) ==> r == Err::<String, PositionError>(PositionError::InvalidSymbol),
        valid_seq(current@) ==> (r matches Ok(s) && s@ == after_seq(current@) && lex_lt(
            current@,
            s@,
        )),
{
    if !is_valid_base62(current) {
        return Err(PositionError::InvalidSymbol);
    }
    Ok(generate_after(current))
}

/// The position string directly before the given one; rejects strings not
/// written in the alphabet, and reports the minimum position as having no
/// predecessor.
pub fn before_text(current: &str) -> (r: Result<String, PositionError>)
    ensures
        !valid_seq(current@) ==> r == Err::<String, PositionError>(PositionError::InvalidSymbol),
        valid_seq(current@) && current@.len() > 0 && all_start(current@) ==> r == Err::<
            String,
            PositionError,
        >(PositionError::NoPredecessor),
        valid_seq(current@) && !(current@.len() > 0 && all_start(current@)) ==> (r matches Ok(s)
            && s@ == before_seq(current@) && (current@.len() > 0 ==> lex_lt(s@, current@))),
{
    if !is_valid_base62(current) {
        return Err(PositionError::InvalidSymbol);
    }
    if is_minimum_position(current) {
        return Err(PositionError::NoPredecessor);
    }
    Ok(generate_before(current))
}

/// The seed position string.
pub fn first_text() -> (r: String)
    ensures
        r@ == seq![MID_CHAR],
{
    push_mid()
}

/// The position string between two optional bounds, with the same meaning
/// as `between`; rejects bounds not written in the alphabet.
pub fn between_text(before_pos: Option<&str>, after_pos: Option<&str>) -> (r: Result<
    String,
    PositionError,
>)
    ensures
        ({
            let a = text_bound_view(before_pos);
            let b = text_bound_view(after_pos);
            &&& (!valid_seq(a) || !valid_seq(b) ==> r == Err::<String, PositionError>(
                PositionError::InvalidSymbol,
            ))
            &&& (valid_seq(a) && valid_seq(b) && a.len() == 0 && b.len() > 0 && all_start(b) ==> r
                == Err::<String, PositionError>(PositionError::NoPredecessor))
            &&& (valid_seq(a) && valid_seq(b) && !(a.len() == 0 && b.len() > 0 && all_start(b))
                ==> (r matches Ok(s) && s@ == between_seq(a, b) && lex_lt(a, s@)))
        }),
{
    let ghost a = text_bound_view(before_pos);
    let ghost b = text_bound_view(after_pos);
    let a_str = match before_pos {
        Some(s) => s,
        None => "",
    };
    let b_str = match after_pos {
        Some(s) => s,
        None => "",
    };
    proof {
        reveal_strlit("");
        assert(""@ =~= Seq::<char>::empty());
        assert(a_str@ == a);
        assert(b_str@ == b);
    }
    if !is_valid_base62(a_str) || !is_valid_base62(b_str) {
        return Err(PositionError::InvalidSymbol);
    }
    if a_str.is_empty() && is_minimum_position(b_str) {
        return Err(PositionError::NoPredecessor);
    }
    Ok(generate_between(a_str, b_str))
}

} // verus!
