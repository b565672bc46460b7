//! Conditions on a resource that a rule can carry, such as `owned` or
//! `score>=10`, and their parser. Rating predicates compare ratings with
//! `==` and `<`, which are defined here: ratings are ordered as declared,
//! `Safe < Risky < Unsafe`.
use std::cmp::Ordering;

use vstd::prelude::*;

use crate::perms::context::ContextData;
use crate::perms::permission::PermissionScope;
use crate::post::{parse_rating, risky_text, safe_text, unsafe_text, Collection, Rating};
use crate::text::{all_digits, digits_value, find_in, is_digit, is_whitespace, unsigned_part, parse_i64, parse_i64_range, range_eq, range_of, trim, trim_range, find_from, chars_of};
use crate::util::{operators_agree, Comparator};

verus! {

/// How `a` compares to `b` in the order `Safe < Risky < Unsafe`.
pub open spec fn rating_order(a: Rating, b: Rating) -> Ordering {
    if a.spec_rank() < b.spec_rank() {
        Ordering::Less
    } else if a.spec_rank() == b.spec_rank() {
        Ordering::Equal
    } else {
        Ordering::Greater
    }
}

/// On ratings the operators agree with each other as on any total order.
pub proof fn lemma_operators_agree_rating(x: Rating, y: Rating)
    ensures
        operators_agree(x, y),
{
}

/// Whether rating `a` is less explicit than rating `b`: `Safe` is below
/// `Risky` and `Unsafe`, and `Risky` is below `Unsafe`.
pub open spec fn less_explicit(a: Rating, b: Rating) -> bool {
    ||| a == Rating::Safe && b != Rating::Safe
    ||| a == Rating::Risky && b == Rating::Unsafe
}

/// What each predicate says of a post, the post's value on the left of the
/// comparison: `score>=n` holds of a post whose score is at least `n`,
/// `rating<=r` of a post rated `r` or less explicitly, `owned` of a post the
/// user owns (`!owned` of one they do not), and a collection condition of a
/// post in that collection. No predicate holds of a user or a tag.
pub proof fn lemma_predicate_meaning(pred: Predicate, ctx: ContextData)
    ensures
        pred.spec_matches(ctx) == match (pred, ctx) {
            (Predicate::PostScore { cmp, score }, ContextData::Post(p)) => match cmp {
                Comparator::Lt => p.score < score,
                Comparator::Lte => p.score <= score,
                Comparator::Eq => p.score == score,
                Comparator::Neq => p.score != score,
                Comparator::Gte => p.score >= score,
                Comparator::Gt => p.score > score,
            },
            (Predicate::PostRating { cmp, rating }, ContextData::Post(p)) => match cmp {
                Comparator::Lt => less_explicit(p.rating, rating),
                Comparator::Lte => less_explicit(p.rating, rating) || p.rating == rating,
                Comparator::Eq => p.rating == rating,
                Comparator::Neq => p.rating != rating,
                Comparator::Gte => less_explicit(rating, p.rating) || p.rating == rating,
                Comparator::Gt => less_explicit(rating, p.rating),
            },
            (Predicate::PostOwned(owned), ContextData::Post(p)) => p.owned == owned,
            (Predicate::PostCollection(c), ContextData::Post(p)) => p.collection == c,
            _ => false,
        },
{
}

/// Whether `c` can be part of a comparison operator.
pub open spec fn is_operator_char(c: char) -> bool {
    c == '<' || c == '>' || c == '=' || c == '!'
}

proof fn lemma_find_from_none(t: Seq<char>, pat: Seq<char>, i: nat)
    requires
        pat.len() > 0,
        forall|m: int| i <= m && m + pat.len() <= t.len() ==> #[trigger] t.subrange(m, m + pat.len()) != pat,
    ensures
        find_from(t, pat, i) is None,
    decreases t.len() - i,
{
    if i + pat.len() <= t.len() {
        assert(t.subrange(i as int, (i + pat.len()) as int) != pat);
        lemma_find_from_none(t, pat, i + 1);
    }
}

proof fn lemma_find_from_at(t: Seq<char>, pat: Seq<char>, i: nat, p: nat)
    requires
        pat.len() > 0,
        i <= p,
        p + pat.len() <= t.len(),
        t.subrange(p as int, (p + pat.len()) as int) == pat,
        forall|m: int| i <= m < p ==> #[trigger] t.subrange(m, m + pat.len()) != pat,
    ensures
        find_from(t, pat, i) == Some(p as int),
    decreases p - i,
{
    if i < p {
        assert(t.subrange(i as int, (i + pat.len()) as int) != pat);
        lemma_find_from_at(t, pat, i + 1, p);
    }
}

/// In `key + operator_text(k) + v`, where neither `key` nor `v` holds an
/// operator character and `v` does not start with `=`, the first operator
/// found is `operator_text(k)`, right after `key`.
proof fn lemma_first_operator_of(key: Seq<char>, k: nat, v: Seq<char>)
    requires
        k < 6,
        forall|i: int| 0 <= i < key.len() ==> !is_operator_char(#[trigger] key[i]),
        forall|i: int| 0 <= i < v.len() ==> !is_operator_char(#[trigger] v[i]),
    ensures
        first_operator(key + operator_text(k) + v, 0) == Some((key.len() as int, k)),
{
    let op = operator_text(k);
    let t = key + op + v;
    let kl = key.len() as int;
    let ol = op.len() as int;
    assert forall|m: int| 0 <= m < t.len() implies (#[trigger] t[m] == if m < kl {
        key[m]
    } else if m < kl + ol {
        op[m - kl]
    } else {
        v[m - kl - ol]
    }) by {}
    assert forall|j: nat| j < k implies find_from(t, #[trigger] operator_text(j), 0) is None by {
        let pat = operator_text(j);
        assert forall|m: int| 0 <= m && m + pat.len() <= t.len() implies #[trigger] t.subrange(m, m + pat.len()) != pat by {
            let w = t.subrange(m, m + pat.len());
            assert(w[0] == t[m]);
            if m + 1 < m + pat.len() {
                assert(w[1] == t[m + 1]);
            }
            if m < kl {
                assert(!is_operator_char(key[m]));
                assert(w[0] != pat[0]);
            } else if m >= kl + ol {
                assert(!is_operator_char(v[m - kl - ol]));
                assert(w[0] != pat[0]);
            } else {
                if m + 1 < t.len() && m + 1 >= kl + ol {
                    assert(!is_operator_char(v[m + 1 - kl - ol]));
                }
            }
        }
        lemma_find_from_none(t, pat, 0);
    }
    assert forall|m: int| 0 <= m < kl implies #[trigger] t.subrange(m, m + op.len()) != op by {
        assert(t.subrange(m, m + op.len())[0] == t[m]);
        assert(!is_operator_char(key[m]));
    }
    assert(t.subrange(kl, kl + ol) =~= op);
    lemma_find_from_at(t, op, 0, kl as nat);
    lemma_first_operator_skips(t, k);
}

proof fn lemma_first_operator_skips(t: Seq<char>, k: nat)
    requires
        k < 6,
        forall|j: nat| j < k ==> find_from(t, #[trigger] operator_text(j), 0) is None,
    ensures
        first_operator(t, 0) == first_operator(t, k),
    decreases k,
{
    if k > 0 {
        lemma_first_operator_skips(t, (k - 1) as nat);
        assert(find_from(t, operator_text((k - 1) as nat), 0) is None);
    }
}

/// Whether every character of `s` is a lowercase ASCII letter.
pub open spec fn lowercase_word(s: Seq<char>) -> bool {
    forall|i: int| 0 <= i < s.len() ==> 'a' <= #[trigger] s[i] && s[i] <= 'z'
}

proof fn lemma_trim_unchanged(s: Seq<char>)
    requires
        s.len() > 0,
        !is_whitespace(s[0]),
        !is_whitespace(s.last()),
    ensures
        trim(s) == s,
{
}

/// How `key` followed by the operator `operator_text(k)` and then `v` is
/// parsed, when `key` is a word and `v` holds no operator character and
/// starts and ends with other than white space.
proof fn lemma_parse_comparison(key: Seq<char>, k: nat, v: Seq<char>)
    requires
        k < 6,
        key.len() > 0,
        lowercase_word(key),
        v.len() > 0,
        forall|i: int| 0 <= i < v.len() ==> !is_operator_char(#[trigger] v[i]),
        !is_whitespace(v[0]),
        !is_whitespace(v.last()),
    ensures
        parse_predicate(key + operator_text(k) + v) == (if key == rating_key() {
            match parse_rating(v) {
                Some(r) => Ok(Predicate::rating_condition(operator_comparator(k), r)),
                None => Err(PredicateError::InvalidRating),
            }
        } else if key == score_key() {
            match parse_i64(v) {
                Some(n) => Ok(Predicate::score_condition(operator_comparator(k), n)),
                None => Err(PredicateError::InvalidInteger),
            }
        } else {
            Err(PredicateError::UnknownComparison)
        }),
{
    let op = operator_text(k);
    let t = key + op + v;
    let kl = key.len() as int;
    assert forall|i: int| 0 <= i < key.len() implies !is_operator_char(#[trigger] key[i]) by {
        assert('a' <= key[i] && key[i] <= 'z');
    }
    lemma_first_operator_of(key, k, v);
    assert(t[0] == key[0]);
    assert('a' <= key[0] && key[0] <= 'z');
    assert(t.last() == v.last());
    lemma_trim_unchanged(t);
    assert(t.subrange(0, kl) =~= key);
    assert('a' <= key.last() && key.last() <= 'z');
    lemma_trim_unchanged(key);
    assert(t.skip(kl + op.len()) =~= v);
    lemma_trim_unchanged(v);
}

proof fn lemma_digits_value_nonneg(d: Seq<char>)
    requires
        all_digits(d),
    ensures
        digits_value(d) >= 0,
    decreases d.len(),
{
    if d.len() > 0 {
        assert forall|i: int| 0 <= i < d.drop_last().len() implies is_digit(#[trigger] d.drop_last()[i]) by {
            assert(d.drop_last()[i] == d[i]);
        }
        lemma_digits_value_nonneg(d.drop_last());
        assert(is_digit(d[d.len() - 1]));
    }
}

/// A score comparison keeps the comparator its operator denotes and the
/// number written after it: for every decimal numeral `d` of an `i64`
/// value `n`, `score<d` is the predicate `score < n`, `score<=d` is
/// `score <= n`, and likewise for `=`, `!=`, `>=` and `>`.
pub proof fn lemma_parse_score_comparison(d: Seq<char>, n: i64)
    requires
        d.len() > 0,
        all_digits(d),
        digits_value(d) == n,
    ensures
        parse_predicate(seq!['s', 'c', 'o', 'r', 'e', '<'] + d) == Ok::<Predicate, PredicateError>(
            Predicate::PostScore { cmp: Comparator::Lt, score: n },
        ),
        parse_predicate(seq!['s', 'c', 'o', 'r', 'e', '<', '='] + d) == Ok::<Predicate, PredicateError>(
            Predicate::PostScore { cmp: Comparator::Lte, score: n },
        ),
        parse_predicate(seq!['s', 'c', 'o', 'r', 'e', '='] + d) == Ok::<Predicate, PredicateError>(
            Predicate::PostScore { cmp: Comparator::Eq, score: n },
        ),
        parse_predicate(seq!['s', 'c', 'o', 'r', 'e', '!', '='] + d) == Ok::<Predicate, PredicateError>(
            Predicate::PostScore { cmp: Comparator::Neq, score: n },
        ),
        parse_predicate(seq!['s', 'c', 'o', 'r', 'e', '>', '='] + d) == Ok::<Predicate, PredicateError>(
            Predicate::PostScore { cmp: Comparator::Gte, score: n },
        ),
        parse_predicate(seq!['s', 'c', 'o', 'r', 'e', '>'] + d) == Ok::<Predicate, PredicateError>(
            Predicate::PostScore { cmp: Comparator::Gt, score: n },
        ),
{
    assert forall|i: int| 0 <= i < d.len() implies !is_operator_char(#[trigger] d[i]) by {
        assert(is_digit(d[i]));
    }
    assert(is_digit(d[0]));
    assert(is_digit(d[d.len() - 1]));
    lemma_digits_value_nonneg(d);
    assert(unsigned_part(d) == d);
    assert(seq!['s', 'c', 'o', 'r', 'e', '<'] =~= score_key() + operator_text(3));
    lemma_parse_comparison(score_key(), 3, d);
    assert(seq!['s', 'c', 'o', 'r', 'e', '<', '='] =~= score_key() + operator_text(0));
    lemma_parse_comparison(score_key(), 0, d);
    assert(seq!['s', 'c', 'o', 'r', 'e', '='] =~= score_key() + operator_text(4));
    lemma_parse_comparison(score_key(), 4, d);
    assert(seq!['s', 'c', 'o', 'r', 'e', '!', '='] =~= score_key() + operator_text(1));
    lemma_parse_comparison(score_key(), 1, d);
    assert(seq!['s', 'c', 'o', 'r', 'e', '>', '='] =~= score_key() + operator_text(2));
    lemma_parse_comparison(score_key(), 2, d);
    assert(seq!['s', 'c', 'o', 'r', 'e', '>'] =~= score_key() + operator_text(5));
    lemma_parse_comparison(score_key(), 5, d);
}

/// A rating comparison keeps the comparator its operator denotes and the
/// rating named after it: `rating<=risky` is the predicate
/// `rating <= Risky`, `rating>safe` is `rating > Safe`, and so on for every
/// operator and every rating.
pub proof fn lemma_parse_rating_comparison(r: Rating)
    ensures
        ({
            let w = match r {
                Rating::Safe => seq!['s', 'a', 'f', 'e'],
                Rating::Risky => seq!['r', 'i', 's', 'k', 'y'],
                Rating::Unsafe => seq!['u', 'n', 's', 'a', 'f', 'e'],
            };
            &&& parse_predicate(seq!['r', 'a', 't', 'i', 'n', 'g', '<'] + w) == Ok::<Predicate, PredicateError>(
                Predicate::PostRating { cmp: Comparator::Lt, rating: r },
            )
            &&& parse_predicate(seq!['r', 'a', 't', 'i', 'n', 'g', '<', '='] + w) == Ok::<Predicate, PredicateError>(
                Predicate::PostRating { cmp: Comparator::Lte, rating: r },
            )
            &&& parse_predicate(seq!['r', 'a', 't', 'i', 'n', 'g', '='] + w) == Ok::<Predicate, PredicateError>(
                Predicate::PostRating { cmp: Comparator::Eq, rating: r },
            )
            &&& parse_predicate(seq!['r', 'a', 't', 'i', 'n', 'g', '!', '='] + w) == Ok::<Predicate, PredicateError>(
                Predicate::PostRating { cmp: Comparator::Neq, rating: r },
            )
            &&& parse_predicate(seq!['r', 'a', 't', 'i', 'n', 'g', '>', '='] + w) == Ok::<Predicate, PredicateError>(
                Predicate::PostRating { cmp: Comparator::Gte, rating: r },
            )
            &&& parse_predicate(seq!['r', 'a', 't', 'i', 'n', 'g', '>'] + w) == Ok::<Predicate, PredicateError>(
                Predicate::PostRating { cmp: Comparator::Gt, rating: r },
            )
        }),
{
    let w = match r {
        Rating::Safe => seq!['s', 'a', 'f', 'e'],
        Rating::Risky => seq!['r', 'i', 's', 'k', 'y'],
        Rating::Unsafe => seq!['u', 'n', 's', 'a', 'f', 'e'],
    };
    assert(parse_rating(w) == Some(r)) by {
        assert(seq!['s', 'a', 'f', 'e'] =~= safe_text());
        assert(seq!['r', 'i', 's', 'k', 'y'] =~= risky_text());
        assert(seq!['u', 'n', 's', 'a', 'f', 'e'] =~= unsafe_text());
    }
    assert forall|i: int| 0 <= i < w.len() implies !is_operator_char(#[trigger] w[i]) by {}
    assert(seq!['r', 'a', 't', 'i', 'n', 'g', '<'] =~= rating_key() + operator_text(3));
    lemma_parse_comparison(rating_key(), 3, w);
    assert(seq!['r', 'a', 't', 'i', 'n', 'g', '<', '='] =~= rating_key() + operator_text(0));
    lemma_parse_comparison(rating_key(), 0, w);
    assert(seq!['r', 'a', 't', 'i', 'n', 'g', '='] =~= rating_key() + operator_text(4));
    lemma_parse_comparison(rating_key(), 4, w);
    assert(seq!['r', 'a', 't', 'i', 'n', 'g', '!', '='] =~= rating_key() + operator_text(1));
    lemma_parse_comparison(rating_key(), 1, w);
    assert(seq!['r', 'a', 't', 'i', 'n', 'g', '>', '='] =~= rating_key() + operator_text(2));
    lemma_parse_comparison(rating_key(), 2, w);
    assert(seq!['r', 'a', 't', 'i', 'n', 'g', '>'] =~= rating_key() + operator_text(5));
    lemma_parse_comparison(rating_key(), 5, w);
}

impl Rating {
    /// How this rating compares to `other`, in declaration order.
    pub fn compare(&self, other: &Rating) -> (o: Ordering)
        ensures
            o == rating_order(*self, *other),
    {
        let a = self.rank();
        let b = other.rank();
        if a < b {
            Ordering::Less
        } else if a == b {
            Ordering::Equal
        } else {
            Ordering::Greater
        }
    }
}

impl PartialEq for Rating {
    fn eq(&self, other: &Rating) -> (r: bool) {
        match self.compare(other) {
            Ordering::Equal => true,
            _ => false,
        }
    }
}

impl vstd::std_specs::cmp::PartialEqSpecImpl for Rating {
    open spec fn obeys_eq_spec() -> bool {
        true
    }

    open spec fn eq_spec(&self, other: &Rating) -> bool {
        rating_order(*self, *other) == Ordering::Equal
    }
}

impl PartialOrd for Rating {
    fn partial_cmp(&self, other: &Rating) -> (r: Option<Ordering>) {
        Some(self.compare(other))
    }
}

impl vstd::std_specs::cmp::PartialOrdSpecImpl for Rating {
    open spec fn obeys_partial_cmp_spec() -> bool {
        true
    }

    open spec fn partial_cmp_spec(&self, other: &Rating) -> Option<Ordering> {
        Some(rating_order(*self, *other))
    }
}


/// A condition on the resource of a check.
#[derive(Clone, Copy, Debug, PartialEq, Eq)]
pub enum Predicate {
    /// The post's rating compares to `rating` as `cmp` says.
    PostRating { cmp: Comparator, rating: Rating },
    /// The post's score compares to `score` as `cmp` says.
    PostScore { cmp: Comparator, score: i64 },
    /// Whether the user owns the post.
    PostOwned(bool),
    /// The post is in the given collection; only built internally, never
    /// parsed from text.
    PostCollection(Collection),
}

/// The reasons a predicate expression is rejected.
#[derive(Clone, Copy, Debug, PartialEq, Eq, Structural)]
pub enum PredicateError {
    /// A comparison whose left-hand side is not `rating` or `score`.
    UnknownComparison,
    /// A `rating` comparison whose right-hand side names no rating.
    InvalidRating,
    /// A `score` comparison whose right-hand side is not an `i64`.
    InvalidInteger,
    /// A flag (no comparison operator) other than `owned` or `!owned`.
    UnknownFlag,
}

/// The text `"rating"`.
pub open spec fn rating_key() -> Seq<char> {
    seq!['r', 'a', 't', 'i', 'n', 'g']
}

/// The text `"score"`.
pub open spec fn score_key() -> Seq<char> {
    seq!['s', 'c', 'o', 'r', 'e']
}

/// The text `"owned"`.
pub open spec fn owned_key() -> Seq<char> {
    seq!['o', 'w', 'n', 'e', 'd']
}

/// The comparison operators in the order they are searched for: longer
/// operators come before their one-character prefixes.
pub open spec fn operator_text(k: nat) -> Seq<char> {
    if k == 0 {
        seq!['<', '=']
    } else if k == 1 {
        seq!['!', '=']
    } else if k == 2 {
        seq!['>', '=']
    } else if k == 3 {
        seq!['<']
    } else if k == 4 {
        seq!['=']
    } else {
        seq!['>']
    }
}

/// The comparator that `operator_text(k)` denotes.
pub open spec fn operator_comparator(k: nat) -> Comparator {
    if k == 0 {
        Comparator::Lte
    } else if k == 1 {
        Comparator::Neq
    } else if k == 2 {
        Comparator::Gte
    } else if k == 3 {
        Comparator::Lt
    } else if k == 4 {
        Comparator::Eq
    } else {
        Comparator::Gt
    }
}

/// The first operator, trying them in order from `k`, that occurs anywhere
/// in `t`, with the position of its first occurrence.
pub open spec fn first_operator(t: Seq<char>, k: nat) -> Option<(int, nat)>
    decreases 6 - k,
{
    if k >= 6 {
        None
    } else {
        match find_from(t, operator_text(k), 0) {
            Some(i) => Some((i, k)),
            None => first_operator(t, k + 1),
        }
    }
}

/// The predicate that the expression `s` denotes. Surrounding white space
/// is ignored; an expression with a comparison operator is a comparison
/// with `rating` or `score` on its left, and one without is the flag
/// `owned`, possibly negated with `!`.
pub open spec fn parse_predicate(s: Seq<char>) -> Result<Predicate, PredicateError> {
    let t = trim(s);
    match first_operator(t, 0) {
        Some((i, k)) => {
            let key = trim(t.subrange(0, i));
            let val = trim(t.skip(i + operator_text(k).len()));
            if key == rating_key() {
                match parse_rating(val) {
                    Some(r) => Ok(Predicate::rating_condition(operator_comparator(k), r)),
                    None => Err(PredicateError::InvalidRating),
                }
            } else if key == score_key() {
                match parse_i64(val) {
                    Some(n) => Ok(Predicate::score_condition(operator_comparator(k), n)),
                    None => Err(PredicateError::InvalidInteger),
                }
            } else {
                Err(PredicateError::UnknownComparison)
            }
        },
        None => {
            let negated = t.len() > 0 && t[0] == '!';
            let key = if negated {
                trim(t.drop_first())
            } else {
                t
            };
            if key == owned_key() {
                Ok(Predicate::PostOwned(!negated))
            } else {
                Err(PredicateError::UnknownFlag)
            }
        },
    }
}

/// The operator `operator_text(k)` as characters, with its comparator.
fn operator(k: usize) -> (r: (Vec<char>, Comparator))
    requires
        k < 6,
    ensures
        r.0@ == operator_text(k as nat),
        r.1 == operator_comparator(k as nat),
        r.0@.len() > 0,
{
    let r = if k == 0 {
        (vec!['<', '='], Comparator::Lte)
    } else if k == 1 {
        (vec!['!', '='], Comparator::Neq)
    } else if k == 2 {
        (vec!['>', '='], Comparator::Gte)
    } else if k == 3 {
        (vec!['<'], Comparator::Lt)
    } else if k == 4 {
        (vec!['='], Comparator::Eq)
    } else {
        (vec!['>'], Comparator::Gt)
    };
    assert(r.0@ =~= operator_text(k as nat));
    r
}

impl Predicate {
    /// The comparison of a post's rating with `r` by `c`.
    pub open spec fn rating_condition(c: Comparator, r: Rating) -> Predicate {
        Predicate::PostRating { cmp: c, rating: r }
    }

    /// The comparison of a post's score with `n` by `c`.
    pub open spec fn score_condition(c: Comparator, n: i64) -> Predicate {
        Predicate::PostScore { cmp: c, score: n }
    }

    fn new_rating_condition(c: Comparator, r: Rating) -> (p: Predicate)
        ensures
            p == Self::rating_condition(c, r),
    {
        Predicate::PostRating { cmp: c, rating: r }
    }

    fn new_score_condition(c: Comparator, n: i64) -> (p: Predicate)
        ensures
            p == Self::score_condition(c, n),
    {
        Predicate::PostScore { cmp: c, score: n }
    }

    /// Whether the predicate holds of the resource described by `ctx`.
    pub open spec fn spec_matches(self, ctx: ContextData) -> bool {
        match (self, ctx) {
            (Predicate::PostRating { cmp, rating }, ContextData::Post(p)) => cmp.holds(p.rating, rating),
            (Predicate::PostScore { cmp, score }, ContextData::Post(p)) => cmp.holds(p.score, score),
            (Predicate::PostOwned(owned), ContextData::Post(p)) => p.owned == owned,
            (Predicate::PostCollection(collection), ContextData::Post(p)) => p.collection
                == collection,
            _ => false,
        }
    }

    /// The scopes the predicate can be used in: every predicate so far is
    /// about posts.
    pub open spec fn spec_is_valid_in(self, scope: PermissionScope) -> bool {
        scope == PermissionScope::Post
    }

    /// The name of the predicate's key, as written in expressions.
    pub open spec fn key_text(self) -> Seq<char> {
        match self {
            Predicate::PostRating { .. } => "rating"@,
            Predicate::PostScore { .. } => "score"@,
            Predicate::PostOwned(_) => "owned"@,
            Predicate::PostCollection(_) => "collection"@,
        }
    }

    /// Whether the predicate holds of the resource described by `ctx`. The
    /// predicate must be usable in the scope of `ctx`.
    pub fn matches(&self, ctx: &ContextData) -> (r: bool)
        requires
            self.spec_is_valid_in(ctx.scope()),
        ensures
            r == self.spec_matches(*ctx),
    {
        match ctx {
            ContextData::Post(p) => match self {
                Predicate::PostRating { cmp, rating } => cmp.cmp(p.rating, *rating),
                Predicate::PostScore { cmp, score } => cmp.cmp(p.score, *score),
                Predicate::PostOwned(owned) => p.owned == *owned,
                Predicate::PostCollection(collection) => p.collection.0 == collection.0,
            },
            _ => false,
        }
    }

    /// Whether the predicate can be used with permissions of `scope`.
    #[verifier::when_used_as_spec(spec_is_valid_in)]
    pub fn is_valid_in(self, scope: PermissionScope) -> (r: bool)
        ensures
            r == self.spec_is_valid_in(scope),
    {
        match scope {
            PermissionScope::Post => true,
            _ => false,
        }
    }

    /// The name of the predicate's key, as written in expressions.
    pub fn key(&self) -> (r: &'static str)
        ensures
            r@ == self.key_text(),
    {
        match self {
            Predicate::PostRating { .. } => "rating",
            Predicate::PostScore { .. } => "score",
            Predicate::PostOwned(_) => "owned",
            Predicate::PostCollection(_) => "collection",
        }
    }

    /// Parse an expression such as `owned`, `!owned`, `rating=safe` or
    /// `score >= 10`.
    pub fn from_str(s: &str) -> (r: Result<Self, PredicateError>)
        ensures
            r == parse_predicate(s@),
    {
        let v = chars_of(s);
        assert(v@.subrange(0, v@.len() as int) =~= s@);
        Self::from_chars(v.as_slice(), 0, v.len())
    }

    /// `from_str` on the expression `s[lo..hi]`.
    pub fn from_chars(s: &[char], lo: usize, hi: usize) -> (r: Result<Self, PredicateError>)
        requires
            lo <= hi <= s@.len(),
        ensures
            r == parse_predicate(range_of(s@, lo, hi)),
    {
        let (a, b) = trim_range(s, lo, hi);
        let ghost t = range_of(s@, a, b);
        assert(t == trim(range_of(s@, lo, hi)));
        let mut k: usize = 0;
        let mut found: Option<(usize, usize)> = None;
        while found.is_none() && k < 6
            invariant
                lo <= a <= b <= hi <= s@.len(),
                t == range_of(s@, a, b),
                k <= 6,
                found is None ==> first_operator(t, 0) == first_operator(t, k as nat),
                found matches Some(f) ==> f.1 < 6 && first_operator(t, 0) == Some(
                    (f.0 as int, f.1 as nat),
                ) && a + f.0 + operator_text(f.1 as nat).len() <= b,
            decreases 6 - k,
        {
            let (op, _) = operator(k);
            match find_in(s, a, b, op.as_slice()) {
                Some(i) => {
                    found = Some((i, k));
                },
                None => {},
            }
            k = k + 1;
        }
        match found {
            Some((i, kk)) => {
                let (op, c) = operator(kk);
                let key_end = a + i;
                let val_start = a + i + op.len();
                let (ka, kb) = trim_range(s, a, key_end);
                let (va, vb) = trim_range(s, val_start, b);
                proof {
                    assert(range_of(s@, a, key_end) =~= t.subrange(0, i as int));
                    assert(range_of(s@, val_start, b) =~= t.skip(i + op@.len()));
                }
                let rating = vec!['r', 'a', 't', 'i', 'n', 'g'];
                let score = vec!['s', 'c', 'o', 'r', 'e'];
                assert(rating@ =~= rating_key());
                assert(score@ =~= score_key());
                if range_eq(s, ka, kb, rating.as_slice()) {
                    match Rating::from_chars(s, va, vb) {
                        Some(r) => Ok(Predicate::new_rating_condition(c, r)),
                        None => Err(PredicateError::InvalidRating),
                    }
                } else if range_eq(s, ka, kb, score.as_slice()) {
                    match parse_i64_range(s, va, vb) {
                        Some(n) => Ok(Predicate::new_score_condition(c, n)),
                        None => Err(PredicateError::InvalidInteger),
                    }
                } else {
                    Err(PredicateError::UnknownComparison)
                }
            },
            None => {
                let negated = a < b && s[a] == '!';
                let (ka, kb) = if negated {
                    let after = a + 1;
                    proof {
                        assert(range_of(s@, after, b) =~= t.drop_first());
                    }
                    trim_range(s, after, b)
                } else {
                    (a, b)
                };
                let owned = vec!['o', 'w', 'n', 'e', 'd'];
                assert(owned@ =~= owned_key());
                if range_eq(s, ka, kb, owned.as_slice()) {
                    Ok(Predicate::PostOwned(!negated))
                } else {
                    Err(PredicateError::UnknownFlag)
                }
            },
        }
    }
}

} // verus!
