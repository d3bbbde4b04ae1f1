//! Rebalancing: regenerating a whole ordered sequence of positions, evenly
//! spread over the ordering space, so that ranks grown long by repeated
//! adjacent insertion can be replaced by short ones in the same order.

use vstd::prelude::*;

use crate::alphabet::is_symbol;
use crate::alphabet::lemma_index_round_trip;
use crate::alphabet::lemma_symbol_order;
use crate::alphabet::symbol_at;
use crate::alphabet::symbol_char;
use crate::alphabet::valid_seq;
use crate::alphabet::END_CHAR;
use crate::alphabet::MID_CHAR;
use crate::alphabet::START_CHAR;
use crate::order::lemma_lex_push_front_eq;
use crate::order::lex_lt;
use vstd::arithmetic::div_mod::lemma_div_is_ordered;
use vstd::arithmetic::div_mod::lemma_fundamental_div_mod;

verus! {

/// The largest denominator the expansion accepts: big enough for any count
/// of rows, small enough that the working arithmetic cannot overflow.
pub const MAX_FRACTION_DENOMINATOR: u128 = u128::MAX / 10000;

/// Counts up to this bound are guaranteed a strictly increasing rebalanced
/// sequence; the fixed precision cutoff can merge neighbouring positions
/// beyond it.
pub const DISTINCT_POSITIONS_BOUND: usize = 620000;

/// 62 raised to the given power.
pub open spec fn pow62(n: nat) -> int
    decreases n,
{
    if n == 0 {
        1
    } else {
        62 * pow62((n - 1) as nat)
    }
}

/// The base-62 expansion of the fraction `num/den` (for 0 < num < den): each
/// step scales the remaining fraction by the base and emits the integer part
/// as a symbol, stopping after `fuel` symbols or as soon as the remaining
/// error drops below 1/10000.
pub open spec fn frac_digits(num: int, den: int, fuel: nat) -> Seq<char>
    decreases fuel,
{
    if fuel == 0 {
        Seq::empty()
    } else {
        let d = (num * 62) / den;
        let r = (num * 62) % den;
        seq![symbol_at(d)] + if r * 10000 < den {
            Seq::<char>::empty()
        } else {
            frac_digits(r, den, (fuel - 1) as nat)
        }
    }
}

/// One expansion step stays in range: the emitted digit is a symbol index
/// and the remainder is again a fraction of `den`.
proof fn lemma_frac_step(num: int, den: int)
    requires
        0 <= num < den,
        den >= 1,
    ensures
        0 <= (num * 62) / den < 62,
        0 <= (num * 62) % den < den,
        num * 62 == den * ((num * 62) / den) + (num * 62) % den,
{
    lemma_fundamental_div_mod(num * 62, den);
    assert(0 <= (num * 62) % den < den) by (nonlinear_arith)
        requires
            den >= 1,
    ;
    assert(num * 62 <= (den - 1) * 62) by (nonlinear_arith)
        requires
            num <= den - 1,
    ;
    assert((num * 62) / den >= 0) by (nonlinear_arith)
        requires
            num >= 0,
            den >= 1,
    ;
    assert((num * 62) / den < 62) by (nonlinear_arith)
        requires
            num * 62 <= (den - 1) * 62,
            den >= 1,
    ;
}

/// The expansion yields at least one and only valid symbols.
proof fn lemma_frac_digits_valid(num: int, den: int, fuel: nat)
    requires
        0 <= num < den,
        den >= 1,
    ensures
        valid_seq(frac_digits(num, den, fuel)),
        fuel >= 1 ==> frac_digits(num, den, fuel).len() >= 1,
    decreases fuel,
{
    if fuel >= 1 {
        let d = (num * 62) / den;
        let r = (num * 62) % den;
        lemma_frac_step(num, den);
        lemma_index_round_trip(d);
        let tail = if r * 10000 < den {
            Seq::<char>::empty()
        } else {
            frac_digits(r, den, (fuel - 1) as nat)
        };
        if r * 10000 >= den {
            lemma_frac_digits_valid(r, den, (fuel - 1) as nat);
        }
        let s = frac_digits(num, den, fuel);
        assert(s == seq![symbol_at(d)] + tail);
        assert forall|i: int| 0 <= i < s.len() implies is_symbol(#[trigger] s[i]) by {
            if i >= 1 {
                assert(s[i] == tail[i - 1]);
            }
        }
    }
}

/// Laddered powers of 62, spelled out for the gap argument below.
proof fn lemma_pow62_values()
    ensures
        pow62(0) == 1,
        pow62(1) == 62,
        pow62(2) == 3844,
        pow62(3) == 238328,
        pow62(4) == 14776336,
        pow62(5) == 916132832,
{
    assert(pow62(0) == 1);
    assert(pow62(1) == 62);
    assert(pow62(2) == 3844);
    assert(pow62(3) == 238328);
    assert(pow62(4) == 14776336);
    assert(pow62(5) == 916132832);
}

/// Law behind rebalancing: two fractions of the same denominator that are
/// far enough apart expand to strictly ordered symbol strings. "Far enough"
/// scales with how much of the expansion budget is left; at the full budget
/// a gap of at least `den`/620000 suffices.
proof fn lemma_frac_digits_lt(n1: int, n2: int, den: int, fuel: nat)
    requires
        0 <= n1 < n2 < den,
        1 <= fuel <= 6,
        (n2 - n1) * 620000 >= den * pow62((6 - fuel) as nat),
    ensures
        lex_lt(frac_digits(n1, den, fuel), frac_digits(n2, den, fuel)),
    decreases fuel,
{
    let d1 = (n1 * 62) / den;
    let r1 = (n1 * 62) % den;
    let d2 = (n2 * 62) / den;
    let r2 = (n2 * 62) % den;
    lemma_frac_step(n1, den);
    lemma_frac_step(n2, den);
    lemma_pow62_values();
    assert(n1 * 62 < n2 * 62) by (nonlinear_arith)
        requires
            n1 < n2,
    ;
    lemma_div_is_ordered(n1 * 62, n2 * 62, den);
    let s1 = frac_digits(n1, den, fuel);
    let s2 = frac_digits(n2, den, fuel);
    if d1 < d2 {
        lemma_index_round_trip(d1);
        lemma_index_round_trip(d2);
        lemma_symbol_order(symbol_at(d1), symbol_at(d2));
        assert(s1[0] == symbol_at(d1));
        assert(s2[0] == symbol_at(d2));
        assert(lex_lt(s1, s2));
    } else {
        // Same digit: the remainders keep the gap, scaled by the base.
        assert(r2 - r1 == 62 * (n2 - n1)) by (nonlinear_arith)
            requires
                n1 * 62 == den * d1 + r1,
                n2 * 62 == den * d2 + r2,
                d1 == d2,
        ;
        assert((r2 - r1) * 10000 == (n2 - n1) * 620000) by (nonlinear_arith)
            requires
                r2 - r1 == 62 * (n2 - n1),
        ;
        assert(pow62((6 - fuel) as nat) >= 1) by {
            if fuel == 6 {
            } else if fuel == 5 {
            } else if fuel == 4 {
            } else if fuel == 3 {
            } else if fuel == 2 {
            }
        }
        assert((r2 - r1) * 10000 >= den) by (nonlinear_arith)
            requires
                (r2 - r1) * 10000 >= den * pow62((6 - fuel) as nat),
                pow62((6 - fuel) as nat) >= 1,
                den >= 1,
        ;
        if fuel == 1 {
            // At the last step the strings would have to be equal, yet the
            // remainders would have to differ by more than a whole unit.
            assert((r2 - r1) * 10000 >= den * 916132832);
            assert(false) by (nonlinear_arith)
                requires
                    (r2 - r1) * 10000 >= den * 916132832,
                    r2 < den,
                    r1 >= 0,
                    den >= 1,
            ;
        } else {
            let tail1 = frac_digits(r1, den, (fuel - 1) as nat);
            let tail2 = frac_digits(r2, den, (fuel - 1) as nat);
            if r1 * 10000 < den {
                if r2 * 10000 < den {
                    // Both would stop at once: impossible, the gap between
                    // the remainders is at least a whole unit.
                    assert(false);
                } else {
                    // The first expansion stops, the second carries on: a
                    // proper prefix sorts first.
                    lemma_frac_digits_valid(r2, den, (fuel - 1) as nat);
                    assert(s1 == seq![symbol_at(d1)] + Seq::<char>::empty());
                    assert(s2 == seq![symbol_at(d2)] + tail2);
                    lemma_lex_push_front_eq(symbol_at(d1), Seq::<char>::empty(), tail2);
                }
            } else {
                if r2 * 10000 < den {
                    assert(false);
                } else {
                    assert((r2 - r1) * 620000 >= den * pow62((6 - (fuel - 1)) as nat)) by {
                        assert((r2 - r1) * 620000 == 62 * ((n2 - n1) * 620000)) by (nonlinear_arith)
                            requires
                                r2 - r1 == 62 * (n2 - n1),
                        ;
                        assert(62 * ((n2 - n1) * 620000) >= 62 * (den * pow62((6 - fuel) as nat)))
                            by (nonlinear_arith)
                            requires
                                (n2 - n1) * 620000 >= den * pow62((6 - fuel) as nat),
                        ;
                        assert(pow62((6 - (fuel - 1)) as nat) == 62 * pow62((6 - fuel) as nat));
                        assert(62 * (den * pow62((6 - fuel) as nat)) == den * pow62(
                            (6 - (fuel - 1)) as nat,
                        )) by (nonlinear_arith)
                            requires
                                pow62((6 - (fuel - 1)) as nat) == 62 * pow62((6 - fuel) as nat),
                        ;
                    }
                    lemma_frac_digits_lt(r1, r2, den, (fuel - 1) as nat);
                    assert(s1 == seq![symbol_at(d1)] + tail1);
                    assert(s2 == seq![symbol_at(d2)] + tail2);
                    lemma_lex_push_front_eq(symbol_at(d1), tail1, tail2);
                }
            }
        }
    }
}

/// The position string of the fraction `num/den`, at most six symbols long.
/// Fractions at or below zero give the smallest symbol, fractions at or
/// above one the largest; anything in between is expanded in base 62.
pub fn fraction_to_position(num: u128, den: u128) -> (r: String)
    requires
        1 <= den <= MAX_FRACTION_DENOMINATOR,
    ensures
        num == 0 ==> r@ == seq![START_CHAR],
        num >= den ==> r@ == seq![END_CHAR],
        0 < num < den ==> r@ == frac_digits(num as int, den as int, 6),
        valid_seq(r@),
        r@.len() >= 1,
{
    let mut out = String::new();
    if num == 0 {
        out.push(START_CHAR);
        proof {
            assert(out@ =~= seq![START_CHAR]);
        }
        return out;
    }
    if num >= den {
        out.push(END_CHAR);
        proof {
            assert(out@ =~= seq![END_CHAR]);
        }
        return out;
    }
    proof {
        lemma_frac_digits_valid(num as int, den as int, 6);
    }
    let mut rem = num;
    let mut k: usize = 0;
    while k < 6
        invariant
            0 <= k <= 6,
            0 <= rem < den,
            0 < num < den,
            1 <= den <= MAX_FRACTION_DENOMINATOR,
            k < 6 ==> frac_digits(num as int, den as int, 6) == out@ + frac_digits(
                rem as int,
                den as int,
                (6 - k) as nat,
            ),
            k == 6 ==> frac_digits(num as int, den as int, 6) == out@,
        decreases 6 - k,
    {
        let cur = rem * 62;
        let d = cur / den;
        let rem2 = cur % den;
        proof {
            lemma_frac_step(rem as int, den as int);
        }
        let ghost prev = out@;
        out.push(symbol_char(d as usize));
        proof {
            assert(out@ =~= prev + seq![symbol_at(d as int)]);
        }
        if rem2 * 10000 < den {
            proof {
                assert(frac_digits(rem as int, den as int, (6 - k) as nat) == seq![
                    symbol_at(d as int),
                ] + Seq::<char>::empty());
                assert(prev + (seq![symbol_at(d as int)] + Seq::<char>::empty()) =~= out@);
                lemma_frac_digits_valid(num as int, den as int, 6);
            }
            return out;
        }
        proof {
            assert(frac_digits(rem as int, den as int, (6 - k) as nat) == seq![symbol_at(d as int)]
                + frac_digits(rem2 as int, den as int, (6 - k - 1) as nat));
            assert(prev + (seq![symbol_at(d as int)] + frac_digits(
                rem2 as int,
                den as int,
                (6 - k - 1) as nat,
            )) =~= out@ + frac_digits(rem2 as int, den as int, (6 - k - 1) as nat));
        }
        rem = rem2;
        k += 1;
    }
    out
}

/// Evenly spread position strings for `count` rows, in increasing order:
/// row `i` receives the expansion of the fraction `(2 i + 1) / (2 count)`.
/// The sequence is strictly increasing for every count up to
/// `DISTINCT_POSITIONS_BOUND`.
pub fn generate_balanced_positions(count: usize) -> (r: Vec<String>)
    ensures
        r@.len() == count,
        count == 1 ==> r@[0]@ == seq![MID_CHAR],
        count >= 2 ==> forall|i: int|
            0 <= i < count ==> #[trigger] r@[i]@ == frac_digits(2 * i + 1, 2 * (count as int), 6),
        forall|i: int| 0 <= i < count ==> valid_seq(#[trigger] r@[i]@) && r@[i]@.len() >= 1,
        count <= DISTINCT_POSITIONS_BOUND ==> forall|i: int, j: int|
            0 <= i < j < count ==> lex_lt(#[trigger] r@[i]@, #[trigger] r@[j]@),
{
    let mut positions: Vec<String> = Vec::new();
    if count == 0 {
        return positions;
    }
    if count == 1 {
        let mut seed = String::new();
        seed.push(MID_CHAR);
        proof {
            assert(seed@ =~= seq![MID_CHAR]);
            assert(is_symbol(MID_CHAR));
        }
        positions.push(seed);
        return positions;
    }
    let den: u128 = 2 * (count as u128);
    let mut i: usize = 0;
    while i < count
        invariant
            0 <= i <= count,
            count >= 2,
            den == 2 * (count as u128),
            den <= MAX_FRACTION_DENOMINATOR,
            positions@.len() == i,
            forall|k: int|
                0 <= k < i ==> #[trigger] positions@[k]@ == frac_digits(
                    2 * k + 1,
                    2 * (count as int),
                    6,
                ),
            forall|k: int| 0 <= k < i ==> valid_seq(#[trigger] positions@[k]@)
                && positions@[k]@.len() >= 1,
        decreases count - i,
    {
        let num: u128 = 2 * (i as u128) + 1;
        positions.push(fraction_to_position(num, den));
        i += 1;
    }
    proof {
        if count <= DISTINCT_POSITIONS_BOUND {
            assert forall|i: int, j: int| 0 <= i < j < count implies lex_lt(
                #[trigger] positions@[i]@,
                #[trigger] positions@[j]@,
            ) by {
                lemma_pow62_values();
                assert((2 * j + 1 - (2 * i + 1)) * 620000 >= 2 * (count as int) * pow62(0)) by {
                    assert(j - i >= 1);
                    assert((2 * j + 1 - (2 * i + 1)) * 620000 == (j - i) * 1240000);
                    assert((j - i) * 1240000 >= 1240000) by (nonlinear_arith)
                        requires
                            j - i >= 1,
                    ;
                }
                lemma_frac_digits_lt(2 * i + 1, 2 * j + 1, 2 * (count as int), 6);
            }
        }
    }
    positions
}

} // verus!
