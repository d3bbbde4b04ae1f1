//! Lexicographic order on position strings: raw character-sequence
//! comparison, the total order that the host storage sorts ranks by.

use vstd::prelude::*;

verus! {

/// Strict lexicographic order on character sequences: `a` sorts before `b`.
pub open spec fn lex_lt(a: Seq<char>, b: Seq<char>) -> bool
    decreases a.len(),
{
    if b.len() == 0 {
        false
    } else if a.len() == 0 {
        true
    } else if a[0] < b[0] {
        true
    } else if a[0] == b[0] {
        lex_lt(a.skip(1), b.skip(1))
    } else {
        false
    }
}

/// No sequence sorts before itself.
pub proof fn lemma_lex_irreflexive(a: Seq<char>)
    ensures
        !lex_lt(a, a),
    decreases a.len(),
{
    if a.len() > 0 {
        lemma_lex_irreflexive(a.skip(1));
    }
}

/// Any two sequences are ordered or equal.
pub proof fn lemma_lex_trichotomy(a: Seq<char>, b: Seq<char>)
    ensures
        lex_lt(a, b) || lex_lt(b, a) || a == b,
    decreases a.len(),
{
    if a.len() == 0 && b.len() == 0 {
        assert(a =~= b);
    } else if a.len() > 0 && b.len() > 0 && a[0] == b[0] {
        lemma_lex_trichotomy(a.skip(1), b.skip(1));
        if a.skip(1) == b.skip(1) {
            assert(a =~= seq![a[0]] + a.skip(1));
            assert(b =~= seq![b[0]] + b.skip(1));
        }
    }
}

/// At most one direction of the order holds.
pub proof fn lemma_lex_asymmetric(a: Seq<char>, b: Seq<char>)
    requires
        lex_lt(a, b),
    ensures
        !lex_lt(b, a),
        a != b,
    decreases a.len(),
{
    lemma_lex_irreflexive(a);
    if a.len() > 0 && b.len() > 0 && a[0] == b[0] {
        lemma_lex_asymmetric(a.skip(1), b.skip(1));
        if a == b {
            assert(a.skip(1) =~= b.skip(1));
        }
    }
}

/// The order is transitive.
pub proof fn lemma_lex_transitive(a: Seq<char>, b: Seq<char>, c: Seq<char>)
    requires
        lex_lt(a, b),
        lex_lt(b, c),
    ensures
        lex_lt(a, c),
    decreases a.len(),
{
    if a.len() > 0 && b.len() > 0 && c.len() > 0 && a[0] == b[0] && b[0] == c[0] {
        lemma_lex_transitive(a.skip(1), b.skip(1), c.skip(1));
    }
}

/// A proper extension sorts after the sequence it extends.
pub proof fn lemma_lex_extension(a: Seq<char>, e: Seq<char>)
    requires
        e.len() > 0,
    ensures
        lex_lt(a, a + e),
    decreases a.len(),
{
    if a.len() == 0 {
        assert(a + e =~= e);
    } else {
        assert((a + e).skip(1) =~= a.skip(1) + e);
        lemma_lex_extension(a.skip(1), e);
    }
}

/// Prepending one equal character to both sides keeps the order.
pub proof fn lemma_lex_push_front_eq(c: char, a: Seq<char>, b: Seq<char>)
    ensures
        lex_lt(seq![c] + a, seq![c] + b) <==> lex_lt(a, b),
{
    assert((seq![c] + a).skip(1) =~= a);
    assert((seq![c] + b).skip(1) =~= b);
}

/// Comparison is decided after any shared prefix.
pub proof fn lemma_lex_common_prefix(a: Seq<char>, b: Seq<char>, i: int)
    requires
        0 <= i <= a.len(),
        i <= b.len(),
        forall|j: int| 0 <= j < i ==> a[j] == b[j],
    ensures
        lex_lt(a, b) <==> lex_lt(a.skip(i), b.skip(i)),
    decreases i,
{
    if i > 0 {
        lemma_lex_common_prefix(a.skip(1), b.skip(1), i - 1);
        assert(a.skip(1).skip(i - 1) =~= a.skip(i));
        assert(b.skip(1).skip(i - 1) =~= b.skip(i));
    } else {
        assert(a.skip(0) =~= a);
        assert(b.skip(0) =~= b);
    }
}

/// Equal sequences of known prefix: if every character matches and the
/// lengths agree, the sequences are the same; with `a` shorter, `a` sorts
/// first.
pub proof fn lemma_lex_prefix_total(a: Seq<char>, b: Seq<char>)
    requires
        a.len() <= b.len(),
        forall|j: int| 0 <= j < a.len() ==> a[j] == b[j],
    ensures
        a.len() == b.len() ==> a == b,
        a.len() < b.len() ==> lex_lt(a, b),
{
    if a.len() == b.len() {
        assert(a =~= b);
    } else {
        assert(b =~= a + b.skip(a.len() as int));
        lemma_lex_extension(a, b.skip(a.len() as int));
    }
}

/// Three-way comparison of two strings by raw character order.
pub fn str_compare(a: &str, b: &str) -> (r: core::cmp::Ordering)
    ensures
        r is Less <==> lex_lt(a@, b@),
        r is Equal <==> a@ == b@,
        r is Greater <==> lex_lt(b@, a@),
{
    let alen = a.unicode_len();
    let blen = b.unicode_len();
    let mut i: usize = 0;
    let end = if alen < blen {
        alen
    } else {
        blen
    };
    while i < end
        invariant
            0 <= i <= end,
            alen == a@.len(),
            blen == b@.len(),
            end == if alen < blen {
                alen
            } else {
                blen
            },
            forall|j: int| 0 <= j < i ==> a@[j] == b@[j],
        decreases end - i,
    {
        let ca = a.get_char(i);
        let cb = b.get_char(i);
        if ca < cb {
            proof {
                lemma_lex_common_prefix(a@, b@, i as int);
                lemma_lex_common_prefix(b@, a@, i as int);
                lemma_lex_asymmetric(a@.skip(i as int), b@.skip(i as int));
                if a@ == b@ {
                    assert(a@[i as int] == b@[i as int]);
                }
            }
            return core::cmp::Ordering::Less;
        }
        if cb < ca {
            proof {
                lemma_lex_common_prefix(a@, b@, i as int);
                lemma_lex_common_prefix(b@, a@, i as int);
                lemma_lex_asymmetric(b@.skip(i as int), a@.skip(i as int));
                if a@ == b@ {
                    assert(a@[i as int] == b@[i as int]);
                }
            }
            return core::cmp::Ordering::Greater;
        }
        i += 1;
    }
    proof {
        if alen <= blen {
            lemma_lex_prefix_total(a@, b@);
        } else {
            assert forall|j: int| 0 <= j < b@.len() implies b@[j] == a@[j] by {
                assert(a@[j] == b@[j]);
            }
            lemma_lex_prefix_total(b@, a@);
        }
        if lex_lt(a@, b@) {
            lemma_lex_asymmetric(a@, b@);
        }
        if lex_lt(b@, a@) {
            lemma_lex_asymmetric(b@, a@);
        }
        lemma_lex_irreflexive(a@);
    }
    if alen < blen {
        core::cmp::Ordering::Less
    } else if blen < alen {
        core::cmp::Ordering::Greater
    } else {
        core::cmp::Ordering::Equal
    }
}

/// Whether `a` sorts strictly before `b`.
pub fn str_lt(a: &str, b: &str) -> (r: bool)
    ensures
        r == lex_lt(a@, b@),
{
    matches!(str_compare(a, b), core::cmp::Ordering::Less)
}

} // verus!
