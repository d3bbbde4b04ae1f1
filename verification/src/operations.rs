//! The position algebra: creating a position directly after or directly
//! before an existing one, with as little added length as possible.

use vstd::prelude::*;

use crate::alphabet::is_symbol;
use crate::alphabet::lemma_index_round_trip;
use crate::alphabet::lemma_symbol_order;
use crate::alphabet::lemma_symbol_round_trip;
use crate::alphabet::lemma_valid_seq_ascii;
use crate::alphabet::symbol_at;
use crate::alphabet::symbol_char;
use crate::alphabet::symbol_index;
use crate::alphabet::valid_seq;
use crate::alphabet::char_to_index;
use crate::alphabet::END_CHAR;
use crate::alphabet::MID_CHAR;
use crate::alphabet::START_CHAR;
use crate::order::lemma_lex_common_prefix;
use crate::order::lemma_lex_extension;
use crate::order::lemma_lex_push_front_eq;
use crate::order::lex_lt;
use crate::order::str_lt;
use vstd::string::StrSliceExecFns;
use vstd::string::StringExecFns;

verus! {

/// Every symbol of the sequence is the largest symbol.
pub open spec fn all_end(s: Seq<char>) -> bool {
    forall|i: int| 0 <= i < s.len() ==> s[i] == END_CHAR
}

/// Every symbol of the sequence is the smallest symbol. A position of this
/// shape is the minimum of its length and has no representable predecessor.
pub open spec fn all_start(s: Seq<char>) -> bool {
    forall|i: int| 0 <= i < s.len() ==> s[i] == START_CHAR
}

/// The last position of `s` holding a symbol below the largest one
/// (meaningful when such a position exists).
pub open spec fn last_below_end(s: Seq<char>) -> int
    decreases s.len(),
{
    if s.len() == 0 {
        -1
    } else if s[s.len() - 1] != END_CHAR {
        s.len() - 1
    } else {
        last_below_end(s.drop_last())
    }
}

/// The last position of `s` holding a symbol above the smallest one
/// (meaningful when such a position exists).
pub open spec fn last_above_start(s: Seq<char>) -> int
    decreases s.len(),
{
    if s.len() == 0 {
        -1
    } else if s[s.len() - 1] != START_CHAR {
        s.len() - 1
    } else {
        last_above_start(s.drop_last())
    }
}

/// The position directly after `s`: the first symbol from the right with
/// room to grow is stepped up by one and everything after it is cut off;
/// when every symbol is the largest, one smallest symbol is appended. The
/// empty sequence (no bound) yields the seed position.
pub open spec fn after_seq(s: Seq<char>) -> Seq<char> {
    if s.len() == 0 {
        seq![MID_CHAR]
    } else if all_end(s) {
        s.push(START_CHAR)
    } else {
        let m = last_below_end(s);
        s.take(m).push(symbol_at(symbol_index(s[m]) + 1))
    }
}

/// The position directly before `s`: the first symbol from the right with
/// room to shrink is stepped down by one and everything after it is cut off;
/// unless that symbol is the last one and still above the smallest symbol
/// after the step, one largest symbol is appended to keep room below the
/// result. Meaningful when some symbol is above the smallest one; the empty
/// sequence yields the seed position.
pub open spec fn before_seq(s: Seq<char>) -> Seq<char> {
    if s.len() == 0 {
        seq![MID_CHAR]
    } else {
        let m = last_above_start(s);
        let stepped = symbol_at(symbol_index(s[m]) - 1);
        if m == s.len() - 1 && symbol_index(s[m]) > 1 {
            s.take(m).push(stepped)
        } else {
            s.take(m).push(stepped).push(END_CHAR)
        }
    }
}

/// Where the scan from the right stops: the index found by the scan is the
/// last symbol below the largest one.
proof fn lemma_last_below_end_at(s: Seq<char>, m: int)
    requires
        0 <= m < s.len(),
        s[m] != END_CHAR,
        forall|j: int| m < j < s.len() ==> s[j] == END_CHAR,
    ensures
        last_below_end(s) == m,
        !all_end(s),
    decreases s.len(),
{
    if m < s.len() - 1 {
        lemma_last_below_end_at(s.drop_last(), m);
    }
}

/// The analogue for the smallest symbol.
proof fn lemma_last_above_start_at(s: Seq<char>, m: int)
    requires
        0 <= m < s.len(),
        s[m] != START_CHAR,
        forall|j: int| m < j < s.len() ==> s[j] == START_CHAR,
    ensures
        last_above_start(s) == m,
        !all_start(s),
    decreases s.len(),
{
    if m < s.len() - 1 {
        lemma_last_above_start_at(s.drop_last(), m);
    }
}

/// What the scan position tells about the sequence: the found index holds a
/// steppable symbol and only maximal symbols follow it.
proof fn lemma_last_below_end_props(s: Seq<char>)
    requires
        s.len() > 0,
        !all_end(s),
    ensures
        0 <= last_below_end(s) < s.len(),
        s[last_below_end(s)] != END_CHAR,
        forall|j: int| last_below_end(s) < j < s.len() ==> s[j] == END_CHAR,
    decreases s.len(),
{
    if s[s.len() - 1] == END_CHAR {
        assert(!all_end(s.drop_last())) by {
            if all_end(s.drop_last()) {
                assert forall|i: int| 0 <= i < s.len() implies s[i] == END_CHAR by {
                    if i < s.len() - 1 {
                        assert(s.drop_last()[i] == END_CHAR);
                    }
                }
            }
        }
        lemma_last_below_end_props(s.drop_last());
        let m = last_below_end(s);
        assert forall|j: int| m < j < s.len() implies s[j] == END_CHAR by {
            if j < s.len() - 1 {
                assert(s.drop_last()[j] == END_CHAR);
            }
        }
    }
}

/// The analogue for the smallest symbol.
proof fn lemma_last_above_start_props(s: Seq<char>)
    requires
        s.len() > 0,
        !all_start(s),
    ensures
        0 <= last_above_start(s) < s.len(),
        s[last_above_start(s)] != START_CHAR,
        forall|j: int| last_above_start(s) < j < s.len() ==> s[j] == START_CHAR,
    decreases s.len(),
{
    if s[s.len() - 1] == START_CHAR {
        assert(!all_start(s.drop_last())) by {
            if all_start(s.drop_last()) {
                assert forall|i: int| 0 <= i < s.len() implies s[i] == START_CHAR by {
                    if i < s.len() - 1 {
                        assert(s.drop_last()[i] == START_CHAR);
                    }
                }
            }
        }
        lemma_last_above_start_props(s.drop_last());
        let m = last_above_start(s);
        assert forall|j: int| m < j < s.len() implies s[j] == START_CHAR by {
            if j < s.len() - 1 {
                assert(s.drop_last()[j] == START_CHAR);
            }
        }
    }
}

/// The stepped-up symbol exists and is larger: what `after_seq` pivots on.
proof fn lemma_step_up(c: char)
    requires
        is_symbol(c),
        c != END_CHAR,
    ensures
        symbol_index(c) + 1 < 62,
        is_symbol(symbol_at(symbol_index(c) + 1)),
        symbol_index(symbol_at(symbol_index(c) + 1)) == symbol_index(c) + 1,
        c < symbol_at(symbol_index(c) + 1),
{
    if symbol_index(c) == 61 {
        lemma_symbol_round_trip(c);
    }
    lemma_index_round_trip(symbol_index(c) + 1);
    lemma_symbol_order(c, symbol_at(symbol_index(c) + 1));
}

/// The stepped-down symbol exists and is smaller: what `before_seq` pivots
/// on.
proof fn lemma_step_down(c: char)
    requires
        is_symbol(c),
        c != START_CHAR,
    ensures
        symbol_index(c) - 1 >= 0,
        is_symbol(symbol_at(symbol_index(c) - 1)),
        symbol_index(symbol_at(symbol_index(c) - 1)) == symbol_index(c) - 1,
        symbol_at(symbol_index(c) - 1) < c,
{
    if symbol_index(c) == 0 {
        lemma_symbol_round_trip(c);
    }
    lemma_index_round_trip(symbol_index(c) - 1);
    lemma_symbol_order(symbol_at(symbol_index(c) - 1), c);
}

/// The position after `s` is a valid position and sorts strictly after
/// `s`; it only grows by a symbol when every symbol of `s` is already the
/// largest one.
pub proof fn lemma_after_props(s: Seq<char>)
    requires
        valid_seq(s),
    ensures
        valid_seq(after_seq(s)),
        lex_lt(s, after_seq(s)),
        after_seq(s).len() >= 1,
        after_seq(s).len() <= s.len() + 1,
        s.len() > 0 && !all_end(s) ==> after_seq(s).len() <= s.len(),
{
    let r = after_seq(s);
    if s.len() == 0 {
        assert(is_symbol(MID_CHAR));
    } else if all_end(s) {
        assert(r =~= s + seq![START_CHAR]);
        lemma_lex_extension(s, seq![START_CHAR]);
        assert(is_symbol(START_CHAR));
    } else {
        lemma_last_below_end_props(s);
        let m = last_below_end(s);
        lemma_step_up(s[m]);
        lemma_lex_common_prefix(s, r, m);
        assert(s.skip(m)[0] == s[m]);
        assert(r.skip(m) =~= seq![symbol_at(symbol_index(s[m]) + 1)]);
    }
}

/// The position before `s` is a valid position and sorts strictly before
/// `s` (for non-empty `s` that has a predecessor); it grows by at most one
/// symbol.
pub proof fn lemma_before_props(s: Seq<char>)
    requires
        valid_seq(s),
        s.len() > 0,
        !all_start(s),
    ensures
        valid_seq(before_seq(s)),
        lex_lt(before_seq(s), s),
        before_seq(s).len() >= 1,
        before_seq(s).len() <= s.len() + 1,
{
    let r = before_seq(s);
    lemma_last_above_start_props(s);
    let m = last_above_start(s);
    lemma_step_down(s[m]);
    lemma_lex_common_prefix(r, s, m);
    assert(s.skip(m)[0] == s[m]);
    assert(r.skip(m)[0] == symbol_at(symbol_index(s[m]) - 1));
}

/// A position directly after the given one, adding length only when every
/// symbol is already maximal. The empty string (no bound) yields the seed
/// position. The result is always strictly greater.
pub fn generate_after(s: &str) -> (r: String)
    requires
        valid_seq(s@),
    ensures
        r@ == after_seq(s@),
        valid_seq(r@),
        lex_lt(s@, r@),
{
    proof {
        lemma_after_props(s@);
        lemma_valid_seq_ascii(s@);
    }
    let len = s.unicode_len();
    if len == 0 {
        let mut out = String::new();
        out.push(MID_CHAR);
        proof {
            assert(out@ =~= seq![MID_CHAR]);
        }
        return out;
    }
    let mut i = len;
    while i > 0
        invariant
            0 <= i <= len,
            len == s@.len(),
            valid_seq(s@),
            forall|j: int| i <= j < len ==> s@[j] == END_CHAR,
        decreases i,
    {
        let c = s.get_char(i - 1);
        if c != END_CHAR {
            let idx = char_to_index(c).unwrap();
            proof {
                lemma_last_below_end_at(s@, i - 1);
                lemma_step_up(c);
                lemma_after_props(s@);
                lemma_valid_seq_ascii(s@);
            }
            let mut out = s.substring_ascii(0, i - 1).to_owned();
            out.push(symbol_char(idx + 1));
            proof {
                assert(out@ =~= s@.take(i - 1).push(symbol_at(symbol_index(s@[i - 1]) + 1)));
            }
            return out;
        }
        i -= 1;
    }
    let mut out = s.to_owned();
    out.push(START_CHAR);
    proof {
        assert(all_end(s@));
        assert(out@ =~= s@.push(START_CHAR));
    }
    out
}

/// A position directly before the given one, stepping the rightmost symbol
/// that has room and keeping space below the result. The empty string (no
/// bound) yields the seed position. A position made only of the smallest
/// symbol has no representable predecessor and is left out by the
/// precondition; `crate::api::before` reports that case as an error instead.
pub fn generate_before(s: &str) -> (r: String)
    requires
        valid_seq(s@),
        s@.len() > 0 ==> !all_start(s@),
    ensures
        r@ == before_seq(s@),
        valid_seq(r@),
        s@.len() > 0 ==> lex_lt(r@, s@),
{
    proof {
        if s@.len() > 0 {
            lemma_before_props(s@);
        }
        lemma_valid_seq_ascii(s@);
    }
    let len = s.unicode_len();
    if len == 0 {
        let mut out = String::new();
        out.push(MID_CHAR);
        proof {
            assert(out@ =~= seq![MID_CHAR]);
        }
        return out;
    }
    let mut i = len;
    while s.get_char(i - 1) == START_CHAR
        invariant
            1 <= i <= len,
            len == s@.len(),
            valid_seq(s@),
            !all_start(s@),
            forall|j: int| i <= j < len ==> s@[j] == START_CHAR,
            exists|j: int| 0 <= j < i && s@[j] != START_CHAR,
        decreases i,
    {
        proof {
            let j = choose|j: int| 0 <= j < i && s@[j] != START_CHAR;
            assert(0 <= j < i - 1);
        }
        i -= 1;
    }
    let m = i - 1;
    let c = s.get_char(m);
    let idx = char_to_index(c).unwrap();
    proof {
        lemma_last_above_start_at(s@, m as int);
        lemma_step_down(c);
        lemma_valid_seq_ascii(s@);
    }
    let mut out = s.substring_ascii(0, m).to_owned();
    out.push(symbol_char(idx - 1));
    if m == len - 1 && idx > 1 {
        proof {
            assert(out@ =~= s@.take(m as int).push(symbol_at(symbol_index(s@[m as int]) - 1)));
        }
        out
    } else {
        out.push(END_CHAR);
        proof {
            assert(out@ =~= s@.take(m as int).push(
                symbol_at(symbol_index(s@[m as int]) - 1),
            ).push(END_CHAR));
        }
        out
    }
}

/// Whether the string is non-empty and made only of the smallest symbol:
/// the minimum position of its length, the one without a predecessor.
pub fn is_minimum_position(s: &str) -> (r: bool)
    ensures
        r == (s@.len() > 0 && all_start(s@)),
{
    let len = s.unicode_len();
    if len == 0 {
        return false;
    }
    let mut i: usize = 0;
    while i < len
        invariant
            0 <= i <= len,
            len == s@.len(),
            forall|j: int| 0 <= j < i ==> s@[j] == START_CHAR,
        decreases len - i,
    {
        if s.get_char(i) != START_CHAR {
            return false;
        }
        i += 1;
    }
    true
}

/// The suffix of `s` from position `i`, empty once `i` passes the end: the
/// state of the between scan, which pads the shorter bound.
pub open spec fn seq_from(s: Seq<char>, i: int) -> Seq<char> {
    if i < s.len() {
        s.skip(i)
    } else {
        Seq::empty()
    }
}

/// The scan of `between`: compare the bounds symbol by symbol, treating a
/// missing symbol of the lower bound as the smallest and a missing symbol of
/// the upper bound as the largest. Equal symbols are copied. At the first
/// gap, the midpoint symbol is emitted when the gap has room; between
/// adjacent symbols the lower one is kept and the rest of the lower bound is
/// stepped up (or the seed symbol appended when it has no rest). When the
/// scan runs out, the seed symbol is appended.
pub open spec fn between_core(a: Seq<char>, b: Seq<char>) -> Seq<char>
    decreases a.len() + b.len(),
{
    if a.len() == 0 && b.len() == 0 {
        seq![MID_CHAR]
    } else {
        let x = if a.len() > 0 {
            a[0]
        } else {
            START_CHAR
        };
        let xi = symbol_index(x);
        let yi = if b.len() > 0 {
            symbol_index(b[0])
        } else {
            61
        };
        if xi < yi {
            if yi - xi > 1 {
                seq![symbol_at((xi + yi) / 2)]
            } else {
                seq![x] + if a.len() >= 2 {
                    after_seq(a.skip(1))
                } else {
                    seq![MID_CHAR]
                }
            }
        } else {
            seq![x] + between_core(seq_from(a, 1), seq_from(b, 1))
        }
    }
}

/// A position between the two bounds, where the empty sequence stands for
/// "no bound": no bounds give the seed position, one bound defers to the
/// position before or after it, misordered bounds fall back to the position
/// after the lower one, and ordered bounds are scanned for a gap.
pub open spec fn between_seq(a: Seq<char>, b: Seq<char>) -> Seq<char> {
    if a.len() == 0 && b.len() == 0 {
        seq![MID_CHAR]
    } else if a.len() == 0 {
        before_seq(b)
    } else if b.len() == 0 {
        after_seq(a)
    } else if !lex_lt(a, b) {
        after_seq(a)
    } else {
        between_core(a, b)
    }
}

/// `b` is `a` extended by smallest symbols only. Between such bounds the
/// scheme places no position below `b`: every extension of `a` by anything
/// above the smallest symbol overshoots `b`.
pub open spec fn start_padded_extension(a: Seq<char>, b: Seq<char>) -> bool {
    a.len() <= b.len() && b.take(a.len() as int) == a && all_start(b.skip(a.len() as int))
}

/// A restricted sequence stays valid.
proof fn lemma_valid_skip(s: Seq<char>, i: int)
    requires
        valid_seq(s),
        0 <= i <= s.len(),
    ensures
        valid_seq(s.skip(i)),
{
    assert forall|j: int| 0 <= j < s.skip(i).len() implies is_symbol(#[trigger] s.skip(i)[j]) by {
        assert(s.skip(i)[j] == s[i + j]);
    }
}

/// The scan of `between` stays above the lower bound, and below the upper
/// bound whenever the upper bound is not the lower one padded by smallest
/// symbols.
pub proof fn lemma_between_core_props(a: Seq<char>, b: Seq<char>)
    requires
        valid_seq(a),
        valid_seq(b),
        a.len() > 0 ==> b.len() > 0,
        a.len() > 0 && b.len() > 0 ==> lex_lt(a, b),
    ensures
        valid_seq(between_core(a, b)),
        between_core(a, b).len() >= 1,
        lex_lt(a, between_core(a, b)),
        !start_padded_extension(a, b) ==> lex_lt(between_core(a, b), b),
    decreases a.len() + b.len(),
{
    let r = between_core(a, b);
    if a.len() == 0 && b.len() == 0 {
        assert(is_symbol(MID_CHAR));
        assert(b.take(0) =~= a);
        assert(start_padded_extension(a, b));
    } else {
        let x = if a.len() > 0 {
            a[0]
        } else {
            START_CHAR
        };
        let xi = symbol_index(x);
        let yi = if b.len() > 0 {
            symbol_index(b[0])
        } else {
            61
        };
        assert(is_symbol(x));
        if b.len() > 0 {
            lemma_symbol_order(x, b[0]);
        }
        if xi < yi {
            assert(b.len() > 0);
            if yi - xi > 1 {
                let mid = (xi + yi) / 2;
                assert(xi < mid < yi);
                lemma_index_round_trip(mid);
                lemma_symbol_order(x, symbol_at(mid));
                lemma_symbol_order(symbol_at(mid), b[0]);
                if a.len() > 0 {
                    assert(lex_lt(a, r));
                }
            } else {
                // Adjacent symbols: the emitted head x sorts below b's head.
                if a.len() >= 2 {
                    lemma_valid_skip(a, 1);
                    lemma_after_props(a.skip(1));
                    lemma_lex_push_front_eq(x, a.skip(1), after_seq(a.skip(1)));
                    assert(a =~= seq![x] + a.skip(1));
                } else {
                    assert(is_symbol(MID_CHAR));
                    if a.len() == 1 {
                        lemma_lex_push_front_eq(x, a.skip(1), seq![MID_CHAR]);
                        assert(a =~= seq![x] + a.skip(1));
                        assert(a.skip(1) =~= Seq::<char>::empty());
                    }
                }
                assert(r[0] == x);
                assert(x < b[0]);
                assert(lex_lt(r, b));
            }
        } else {
            // Equal symbols under padding (the scan never meets a larger
            // lower symbol first): copy the symbol and carry on.
            let ta = seq_from(a, 1);
            let tb = seq_from(b, 1);
            let rr = between_core(ta, tb);
            assert(b.len() > 0);
            if a.len() > 0 {
                lemma_symbol_round_trip(x);
            } else {
                lemma_symbol_round_trip(START_CHAR);
            }
            lemma_symbol_round_trip(b[0]);
            assert(x == b[0]);
            assert(tb =~= b.skip(1));
            lemma_valid_skip(b, 1);
            if a.len() > 0 {
                assert(ta =~= a.skip(1));
                lemma_valid_skip(a, 1);
                assert(a =~= seq![x] + ta);
                if ta.len() > 0 && tb.len() == 0 {
                    assert(!lex_lt(ta, tb));
                    assert(lex_lt(a.skip(1), b.skip(1)) == lex_lt(ta, tb));
                    assert(!lex_lt(a, b));
                }
            } else {
                assert(ta =~= Seq::<char>::empty());
            }
            lemma_between_core_props(ta, tb);
            assert(r == seq![x] + rr);
            lemma_lex_push_front_eq(x, ta, rr);
            assert(lex_lt(a, r));
            if !start_padded_extension(a, b) {
                assert(!start_padded_extension(ta, tb)) by {
                    if start_padded_extension(ta, tb) {
                        assert(b.take(a.len() as int) =~= a) by {
                            assert forall|j: int| 0 <= j < a.len() implies b.take(a.len() as int)[j]
                                == a[j] by {
                                if j >= 1 {
                                    assert(tb.take(ta.len() as int)[j - 1] == ta[j - 1]);
                                }
                            }
                        }
                        assert(all_start(b.skip(a.len() as int))) by {
                            assert forall|j: int| 0 <= j < b.skip(a.len() as int).len() implies b.skip(
                                a.len() as int,
                            )[j] == START_CHAR by {
                                let k = j + a.len();
                                assert(b.skip(a.len() as int)[j] == b[k]);
                                if k == 0 {
                                    assert(a.len() == 0);
                                    assert(b[0] == START_CHAR);
                                } else {
                                    assert(b[k] == tb[k - 1]);
                                    assert(tb.skip(ta.len() as int)[k - 1 - ta.len()] == tb[k - 1]);
                                }
                            }
                        }
                    }
                }
                lemma_lex_push_front_eq(x, rr, tb);
                assert(b =~= seq![x] + tb);
            }
        }
    }
}

/// Law: a position generated between two ordered, valid bounds lies
/// strictly between them, for every pair where the upper bound is not just
/// the lower bound padded with smallest symbols (between such bounds the
/// scheme cannot place a position below the upper one).
pub proof fn lemma_between_strictly_between(a: Seq<char>, b: Seq<char>)
    requires
        valid_seq(a),
        valid_seq(b),
        a.len() > 0,
        b.len() > 0,
        lex_lt(a, b),
        !start_padded_extension(a, b),
    ensures
        lex_lt(a, between_seq(a, b)),
        lex_lt(between_seq(a, b), b),
        valid_seq(between_seq(a, b)),
{
    lemma_between_core_props(a, b);
}

/// A position between the two given ones, where the empty string means "no
/// bound". Bounds out of order fall back to the position after the lower
/// one. The result always sorts strictly after the lower bound; it sorts
/// strictly before the upper bound whenever the bounds are ordered and the
/// upper one is not the lower one padded by smallest symbols.
pub fn generate_between(before: &str, after: &str) -> (r: String)
    requires
        valid_seq(before@),
        valid_seq(after@),
        before@.len() == 0 && after@.len() > 0 ==> !all_start(after@),
    ensures
        r@ == between_seq(before@, after@),
        valid_seq(r@),
        lex_lt(before@, r@),
        after@.len() > 0 && lex_lt(before@, after@) && !start_padded_extension(before@, after@)
            ==> lex_lt(r@, after@),
{
    let blen = before.unicode_len();
    let alen = after.unicode_len();
    if blen == 0 && alen == 0 {
        let mut out = String::new();
        out.push(MID_CHAR);
        proof {
            assert(out@ =~= seq![MID_CHAR]);
        }
        return out;
    }
    if blen == 0 {
        let out = generate_before(after);
        proof {
            lemma_before_props(after@);
        }
        return out;
    }
    if alen == 0 {
        return generate_after(before);
    }
    if !str_lt(before, after) {
        return generate_after(before);
    }
    proof {
        assert(seq_from(before@, 0) =~= before@);
        assert(seq_from(after@, 0) =~= after@);
        assert(Seq::<char>::empty() + between_core(before@, after@) =~= between_core(
            before@,
            after@,
        ));
    }
    let max_len = if blen < alen {
        alen
    } else {
        blen
    };
    let mut out = String::new();
    let mut i: usize = 0;
    while i < max_len
        invariant
            0 <= i <= max_len,
            blen == before@.len(),
            alen == after@.len(),
            max_len == if blen < alen {
                alen
            } else {
                blen
            },
            blen > 0,
            alen > 0,
            valid_seq(before@),
            valid_seq(after@),
            lex_lt(before@, after@),
            between_core(before@, after@) == out@ + between_core(
                seq_from(before@, i as int),
                seq_from(after@, i as int),
            ),
        decreases max_len - i,
    {
        let ghost sa = seq_from(before@, i as int);
        let ghost sb = seq_from(after@, i as int);
        let x = if i < blen {
            before.get_char(i)
        } else {
            START_CHAR
        };
        let y = if i < alen {
            after.get_char(i)
        } else {
            END_CHAR
        };
        proof {
            assert(sa.len() > 0 ==> sa[0] == before@[i as int]);
            assert(sb.len() > 0 ==> sb[0] == after@[i as int]);
            assert(sa.len() > 0 || sb.len() > 0);
        }
        let xi = char_to_index(x).unwrap();
        let yi = char_to_index(y).unwrap();
        let ghost prev = out@;
        if xi < yi {
            if yi - xi > 1 {
                out.push(symbol_char((xi + yi) / 2));
                proof {
                    assert(between_core(sa, sb) =~= seq![
                        symbol_at((symbol_index(x) + (yi as int)) / 2),
                    ]);
                    assert(out@ =~= prev + between_core(sa, sb));
                    lemma_between_core_props(before@, after@);
                }
                return out;
            } else {
                out.push(x);
                if i + 1 < blen {
                    proof {
                        lemma_valid_seq_ascii(before@);
                        lemma_valid_skip(before@, i + 1);
                    }
                    let rest = before.substring_ascii(i + 1, blen);
                    let suffix = generate_after(rest);
                    out.append(suffix.as_str());
                    proof {
                        assert(sa.skip(1) =~= before@.skip(i + 1));
                        assert(between_core(sa, sb) =~= seq![x] + after_seq(before@.skip(i + 1)));
                        assert(out@ =~= prev + between_core(sa, sb));
                        lemma_between_core_props(before@, after@);
                    }
                } else {
                    out.push(MID_CHAR);
                    proof {
                        assert(sa.len() < 2);
                        assert(between_core(sa, sb) =~= seq![x] + seq![MID_CHAR]);
                        assert(out@ =~= prev + between_core(sa, sb));
                        lemma_between_core_props(before@, after@);
                    }
                }
                return out;
            }
        }
        out.push(x);
        proof {
            assert(seq_from(sa, 1) =~= seq_from(before@, i + 1));
            assert(seq_from(sb, 1) =~= seq_from(after@, i + 1));
            assert(between_core(sa, sb) == seq![x] + between_core(
                seq_from(before@, i + 1),
                seq_from(after@, i + 1),
            ));
            assert(out@ + between_core(seq_from(before@, i + 1), seq_from(after@, i + 1)) =~= prev
                + between_core(sa, sb));
        }
        i += 1;
    }
    let ghost prev = out@;
    out.push(MID_CHAR);
    proof {
        assert(seq_from(before@, max_len as int) =~= Seq::<char>::empty());
        assert(seq_from(after@, max_len as int) =~= Seq::<char>::empty());
        assert(between_core(seq_from(before@, max_len as int), seq_from(after@, max_len as int))
            =~= seq![MID_CHAR]);
        assert(out@ =~= prev + between_core(
            seq_from(before@, max_len as int),
            seq_from(after@, max_len as int),
        ));
        lemma_between_core_props(before@, after@);
    }
    out
}

} // verus!
