//! Post attributes that permission predicates look at.
use vstd::prelude::*;

use crate::text::range_eq;
use crate::text::chars_of;

verus! {

/// How explicit a post is, from least to most.
#[derive(Clone, Copy, Debug, Eq, Ord)]
pub enum Rating {
    Safe,
    Risky,
    Unsafe,
}

/// The error of `Rating::from_str`: the text names no rating.
#[derive(Clone, Copy, Debug, PartialEq, Eq, Structural)]
pub struct UnknownRating;

/// The text `"safe"`.
pub open spec fn safe_text() -> Seq<char> {
    seq!['s', 'a', 'f', 'e']
}

/// The text `"risky"`.
pub open spec fn risky_text() -> Seq<char> {
    seq!['r', 'i', 's', 'k', 'y']
}

/// The text `"unsafe"`.
pub open spec fn unsafe_text() -> Seq<char> {
    seq!['u', 'n', 's', 'a', 'f', 'e']
}

/// The rating that `s` names, if any; names are matched exactly.
pub open spec fn parse_rating(s: Seq<char>) -> Option<Rating> {
    if s == safe_text() {
        Some(Rating::Safe)
    } else if s == risky_text() {
        Some(Rating::Risky)
    } else if s == unsafe_text() {
        Some(Rating::Unsafe)
    } else {
        None
    }
}

impl Rating {
    /// The position of a rating in the order `Safe < Risky < Unsafe`.
    pub open spec fn spec_rank(self) -> i64 {
        match self {
            Rating::Safe => 0,
            Rating::Risky => 1,
            Rating::Unsafe => 2,
        }
    }

    /// The position of a rating in the order `Safe < Risky < Unsafe`: the
    /// order of the declaration, which `<` on ratings follows. Predicates
    /// compare ratings by their positions.
    #[verifier::when_used_as_spec(spec_rank)]
    pub fn rank(self) -> (r: i64)
        ensures
            r == self.spec_rank(),
    {
        match self {
            Rating::Safe => 0,
            Rating::Risky => 1,
            Rating::Unsafe => 2,
        }
    }

    /// Parse one of `safe`, `risky` or `unsafe`.
    pub fn from_str(s: &str) -> (r: Result<Self, UnknownRating>)
        ensures
            r == (match parse_rating(s@) {
                Some(rating) => Ok(rating),
                None => Err(UnknownRating),
            }),
    {
        let v = chars_of(s);
        assert(v@.subrange(0, v@.len() as int) =~= s@);
        match Self::from_chars(v.as_slice(), 0, v.len()) {
            Some(rating) => Ok(rating),
            None => Err(UnknownRating),
        }
    }

    /// The rating that `s[lo..hi]` names, if any.
    pub fn from_chars(s: &[char], lo: usize, hi: usize) -> (r: Option<Self>)
        requires
            lo <= hi <= s@.len(),
        ensures
            r == parse_rating(s@.subrange(lo as int, hi as int)),
    {
        let safe = vec!['s', 'a', 'f', 'e'];
        let risky = vec!['r', 'i', 's', 'k', 'y'];
        let unsafe_ = vec!['u', 'n', 's', 'a', 'f', 'e'];
        assert(safe@ =~= safe_text());
        assert(risky@ =~= risky_text());
        assert(unsafe_@ =~= unsafe_text());
        if range_eq(s, lo, hi, safe.as_slice()) {
            Some(Rating::Safe)
        } else if range_eq(s, lo, hi, risky.as_slice()) {
            Some(Rating::Risky)
        } else if range_eq(s, lo, hi, unsafe_.as_slice()) {
            Some(Rating::Unsafe)
        } else {
            None
        }
    }
}

/// A collection a post belongs to; a transient number, not a database key.
#[derive(Clone, Copy, Debug, PartialEq, PartialOrd, Eq, Ord, Hash, Structural)]
pub struct Collection(pub u32);

} // verus!
