//! The validated rank value type: an immutable position string, carrying
//! the invariant that every character belongs to the alphabet, compared by
//! raw character order.

use vstd::prelude::*;

use crate::alphabet::is_symbol;
use crate::alphabet::is_valid_base62;
use crate::alphabet::valid_seq;
use crate::alphabet::MID_CHAR;
use crate::order::lemma_lex_trichotomy;
use crate::order::lex_lt;
use crate::order::str_compare;

verus! {

/// A validated position string. The empty rank is allowed and stands for
/// "no bound"; every non-empty rank is a real position. Ranks are immutable:
/// moving an item means creating a new rank, never changing one.
#[derive(Debug, Eq, Ord, Hash)]
pub struct LexoRank {
    value: String,
}

impl View for LexoRank {
    type V = Seq<char>;

    closed spec fn view(&self) -> Seq<char> {
        self.value@
    }
}

impl LexoRank {
    /// Every character of a rank belongs to the alphabet.
    #[verifier::type_invariant]
    closed spec fn well_formed(&self) -> bool {
        valid_seq(self.value@)
    }

    /// A rank from an owned string, which must be written in the alphabet
    /// (or empty). `from_str` is the checked counterpart for unvalidated
    /// input.
    pub fn new(value: String) -> (r: Self)
        requires
            valid_seq(value@),
        ensures
            r@ == value@,
    {
        Self { value }
    }

    /// A rank from a borrowed string, which must be written in the alphabet
    /// (or empty).
    pub fn from_str_ref(value: &str) -> (r: Self)
        requires
            valid_seq(value@),
        ensures
            r@ == value@,
    {
        Self::new(value.to_owned())
    }

    /// The seed rank: the position handed out first.
    pub fn first() -> (r: Self)
        ensures
            r@ == seq![MID_CHAR],
    {
        let mut value = String::new();
        value.push(MID_CHAR);
        proof {
            assert(value@ =~= seq![MID_CHAR]);
            assert(is_symbol(MID_CHAR));
        }
        Self { value }
    }

    /// The rank's position string, borrowed. Every rank's string is written
    /// in the alphabet: the invariant travels with the borrow.
    pub fn as_str(&self) -> (r: &str)
        ensures
            r@ == self@,
            valid_seq(self@),
    {
        proof {
            use_type_invariant(self);
        }
        self.value.as_str()
    }

    /// The rank's position string, owned; consumes the rank.
    pub fn into_inner(self) -> (r: String)
        ensures
            r@ == self@,
    {
        self.value
    }

    /// Whether this is the empty rank.
    pub fn is_empty(&self) -> (r: bool)
        ensures
            r == (self@.len() == 0),
    {
        self.value.as_str().is_empty()
    }

    /// The rank's position string, copied out.
    pub fn to_string(&self) -> (r: String)
        ensures
            r@ == self@,
    {
        self.value.clone()
    }
}

impl Clone for LexoRank {
    /// The copy carries the same position string.
    fn clone(&self) -> (r: Self)
        ensures
            r@ == self@,
    {
        proof {
            use_type_invariant(self);
        }
        Self { value: self.value.clone() }
    }
}

impl Default for LexoRank {
    /// The default rank is the seed position.
    fn default() -> (r: Self)
        ensures
            r@ == seq![MID_CHAR],
    {
        Self::first()
    }
}

impl core::str::FromStr for LexoRank {
    type Err = &'static str;

    /// The checked constructor: rejects strings holding characters outside
    /// the alphabet, accepts the empty string.
    fn from_str(s: &str) -> Result<Self, Self::Err> {
        if !s.is_empty() && !is_valid_base62(s) {
            return Err("Invalid LexoRank: must contain only Base62 characters (0-9, A-Z, a-z)");
        }
        Ok(Self { value: s.to_owned() })
    }
}

impl PartialEq for LexoRank {
    /// Ranks are equal exactly when their position strings are.
    fn eq(&self, other: &Self) -> bool {
        self.value == other.value
    }
}

impl vstd::std_specs::cmp::PartialEqSpecImpl for LexoRank {
    open spec fn obeys_eq_spec() -> bool {
        true
    }

    open spec fn eq_spec(&self, other: &Self) -> bool {
        self@ == other@
    }
}

impl PartialOrd for LexoRank {
    /// Ranks are ordered by raw character order of their position strings.
    fn partial_cmp(&self, other: &Self) -> Option<core::cmp::Ordering> {
        proof {
            lemma_lex_trichotomy(self@, other@);
        }
        Some(str_compare(self.value.as_str(), other.value.as_str()))
    }
}

impl vstd::std_specs::cmp::PartialOrdSpecImpl for LexoRank {
    open spec fn obeys_partial_cmp_spec() -> bool {
        true
    }

    open spec fn partial_cmp_spec(&self, other: &Self) -> Option<core::cmp::Ordering> {
        if lex_lt(self@, other@) {
            Some(core::cmp::Ordering::Less)
        } else if self@ == other@ {
            Some(core::cmp::Ordering::Equal)
        } else {
            Some(core::cmp::Ordering::Greater)
        }
    }
}

} // verus!
