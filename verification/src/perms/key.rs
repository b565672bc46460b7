//! Rule keys as they are written in the configuration: a permission key,
//! possibly a wildcard, followed by an optional parenthesised list of
//! predicates, such as `post.edit.*(owned, rating<=risky)`.
use vstd::prelude::*;

use crate::perms::group::{group_from_vec, group_items, PredicateGroup};
use crate::perms::permission::PermissionScope;
use crate::perms::predicate::{parse_predicate, Predicate, PredicateError};
use crate::post::Collection;
use crate::text::{find_from, find_in, range_of, split_on, split_ranges};

verus! {

/// Whether `c` may appear in a permission path: `[a-z.]`.
pub open spec fn is_path_char(c: char) -> bool {
    ('a' <= c && c <= 'z') || c == '.'
}

/// Whether every character of `s` may appear in a permission path.
pub open spec fn all_path_chars(s: Seq<char>) -> bool {
    forall|i: int| 0 <= i < s.len() ==> is_path_char(#[trigger] s[i])
}

/// Whether `k` is a permission pattern, i.e. matches the regular expression
/// `[a-z.]+(\.\*)?|\*`.
pub open spec fn is_permission_pattern(k: Seq<char>) -> bool {
    ||| k.len() == 1 && k[0] == '*'
    ||| k.len() > 0 && all_path_chars(k)
    ||| k.len() >= 3 && k.last() == '*' && k[k.len() - 2] == '.' && all_path_chars(
        k.subrange(0, k.len() - 2),
    )
}

/// Whether `p` is a predicate list, i.e. matches `\([^)]+\)`.
pub open spec fn is_predicate_list(p: Seq<char>) -> bool {
    &&& p.len() >= 3
    &&& p[0] == '('
    &&& p.last() == ')'
    &&& forall|i: int| 1 <= i < p.len() - 1 ==> #[trigger] p[i] != ')'
}

/// The parts of a rule key: the permission pattern, and the text between
/// the parentheses of the predicate list if there is one. `None` when the
/// key does not match `^([a-z.]+(?:\.\*)?|\*)(\([^)]+\))?$`. A permission
/// pattern holds no `(`, so the predicate list, if any, starts at the first
/// `(` of the key.
pub open spec fn split_rule_key(s: Seq<char>) -> Option<(Seq<char>, Option<Seq<char>>)> {
    match find_from(s, seq!['('], 0) {
        Some(i) => if is_permission_pattern(s.subrange(0, i)) && is_predicate_list(s.skip(i)) {
            Some((s.subrange(0, i), Some(s.subrange(i + 1, s.len() - 1))))
        } else {
            None
        },
        None => if is_permission_pattern(s) {
            Some((s, None))
        } else {
            None
        },
    }
}

/// The predicates that the expressions `pieces` denote, in order, or the
/// error of the first one that is rejected.
pub open spec fn parse_conditions(pieces: Seq<Seq<char>>) -> Result<Seq<Predicate>, PredicateError>
    decreases pieces.len(),
{
    if pieces.len() == 0 {
        Ok(Seq::empty())
    } else {
        match parse_conditions(pieces.drop_last()) {
            Ok(ps) => match parse_predicate(pieces.last()) {
                Ok(p) => Ok(ps.push(p)),
                Err(e) => Err(e),
            },
            Err(e) => Err(e),
        }
    }
}

/// The predicates of a rule: those of its comma-separated predicate list,
/// followed by a condition on `collection` when the rule is registered for
/// one.
pub open spec fn rule_conditions(preds: Option<Seq<char>>, collection: Option<Collection>) -> Result<
    Seq<Predicate>,
    PredicateError,
> {
    let parsed = match preds {
        Some(p) => parse_conditions(split_on(p, ',')),
        None => Ok(Seq::empty()),
    };
    match parsed {
        Ok(ps) => Ok(
            match collection {
                Some(c) => ps.push(Predicate::PostCollection(c)),
                None => ps,
            },
        ),
        Err(e) => Err(e),
    }
}

/// A predicate list is read piece by piece: it is accepted exactly when
/// every piece parses, and then it yields one predicate per piece, in order,
/// each the one its piece denotes; otherwise the error is that of the first
/// piece that does not parse.
pub proof fn lemma_parse_conditions_pieces(pieces: Seq<Seq<char>>)
    ensures
        parse_conditions(pieces) is Ok <==> forall|k: int| 0 <= k < pieces.len() ==> parse_predicate(
            #[trigger] pieces[k],
        ) is Ok,
        parse_conditions(pieces) matches Ok(ps) ==> ps.len() == pieces.len() && forall|k: int|
            0 <= k < pieces.len() ==> parse_predicate(#[trigger] pieces[k]) == Ok::<Predicate, PredicateError>(
                ps[k],
            ),
        parse_conditions(pieces) matches Err(e) ==> exists|j: int|
            0 <= j < pieces.len() && parse_predicate(#[trigger] pieces[j]) == Err::<Predicate, PredicateError>(e)
                && forall|k: int| 0 <= k < j ==> parse_predicate(#[trigger] pieces[k]) is Ok,
    decreases pieces.len(),
{
    if pieces.len() > 0 {
        let front = pieces.drop_last();
        lemma_parse_conditions_pieces(front);
        assert forall|k: int| 0 <= k < front.len() implies #[trigger] front[k] == pieces[k] by {}
        assert(pieces[pieces.len() - 1] == pieces.last());
        match parse_conditions(front) {
            Ok(ps) => {
                match parse_predicate(pieces.last()) {
                    Ok(p) => {
                        let qs = ps.push(p);
                        assert forall|k: int| 0 <= k < pieces.len() implies parse_predicate(#[trigger] pieces[k])
                            == Ok::<Predicate, PredicateError>(qs[k]) by {
                            if k < front.len() {
                                assert(front[k] == pieces[k]);
                            }
                        }
                    },
                    Err(e) => {
                        let j = pieces.len() - 1;
                        assert forall|k: int| 0 <= k < j implies parse_predicate(#[trigger] pieces[k]) is Ok by {
                            assert(front[k] == pieces[k]);
                        }
                    },
                }
            },
            Err(e) => {
                let j = choose|j: int|
                    0 <= j < front.len() && parse_predicate(#[trigger] front[j]) == Err::<Predicate, PredicateError>(e)
                        && forall|k: int| 0 <= k < j ==> parse_predicate(#[trigger] front[k]) is Ok;
                assert(front[j] == pieces[j]);
                assert forall|k: int| 0 <= k < j implies parse_predicate(#[trigger] pieces[k]) is Ok by {
                    assert(front[k] == pieces[k]);
                }
            },
        }
    }
}

/// The conditions of a rule are the predicates of its list, one per
/// comma-separated piece and in order, followed by the condition that the
/// post is in `collection` when the rule is registered for one.
pub proof fn lemma_rule_conditions_pieces(list: Seq<char>, collection: Option<Collection>)
    ensures
        rule_conditions(Some(list), collection) matches Ok(cs) ==> {
            let pieces = split_on(list, ',');
            &&& cs.len() == pieces.len() + (if collection is Some { 1int } else { 0int })
            &&& forall|k: int|
                0 <= k < pieces.len() ==> parse_predicate(#[trigger] pieces[k]) == Ok::<
                    Predicate,
                    PredicateError,
                >(cs[k])
            &&& collection matches Some(c) ==> cs[pieces.len() as int] == Predicate::PostCollection(c)
        },
        rule_conditions(None, collection) == Ok::<Seq<Predicate>, PredicateError>(
            match collection {
                Some(c) => seq![Predicate::PostCollection(c)],
                None => Seq::empty(),
            },
        ),
{
    let pieces = split_on(list, ',');
    lemma_parse_conditions_pieces(pieces);
    match parse_conditions(pieces) {
        Ok(ps) => {
            match collection {
                Some(c) => {
                    assert forall|k: int| 0 <= k < pieces.len() implies parse_predicate(#[trigger] pieces[k]) == Ok::<
                        Predicate,
                        PredicateError,
                    >(ps.push(Predicate::PostCollection(c))[k]) by {
                        assert(ps.push(Predicate::PostCollection(c))[k] == ps[k]);
                    }
                },
                None => {},
            }
        },
        Err(_) => {},
    }
    match collection {
        Some(c) => {
            assert(Seq::<Predicate>::empty().push(Predicate::PostCollection(c)) =~= seq![Predicate::PostCollection(c)]);
        },
        None => {},
    }
}

/// The first of `conds` that cannot be used with permissions of `scope`.
pub open spec fn first_invalid(conds: Seq<Predicate>, scope: PermissionScope) -> Option<Predicate>
    decreases conds.len(),
{
    if conds.len() == 0 {
        None
    } else {
        match first_invalid(conds.drop_last(), scope) {
            Some(c) => Some(c),
            None => if conds.last().spec_is_valid_in(scope) {
                None
            } else {
                Some(conds.last())
            },
        }
    }
}

/// Whether `s[lo..hi]` holds only characters of permission paths.
fn path_chars_range(s: &[char], lo: usize, hi: usize) -> (r: bool)
    requires
        lo <= hi <= s@.len(),
    ensures
        r == all_path_chars(range_of(s@, lo, hi)),
{
    let ghost t = range_of(s@, lo, hi);
    let mut i = lo;
    while i < hi
        invariant
            lo <= i <= hi <= s@.len(),
            t == range_of(s@, lo, hi),
            forall|j: int| 0 <= j < i - lo ==> is_path_char(#[trigger] t[j]),
        decreases hi - i,
    {
        let c = s[i];
        if !(('a' <= c && c <= 'z') || c == '.') {
            assert(t[i - lo] == c);
            return false;
        }
        i = i + 1;
    }
    true
}

/// Whether `s[lo..hi]` is a permission pattern.
pub fn is_permission_pattern_range(s: &[char], lo: usize, hi: usize) -> (r: bool)
    requires
        lo <= hi <= s@.len(),
    ensures
        r == is_permission_pattern(range_of(s@, lo, hi)),
{
    let ghost t = range_of(s@, lo, hi);
    let n = hi - lo;
    if n == 1 && s[lo] == '*' {
        return true;
    }
    if n > 0 && path_chars_range(s, lo, hi) {
        return true;
    }
    if n >= 3 && s[hi - 1] == '*' && s[hi - 2] == '.' {
        let end = hi - 2;
        assert(range_of(s@, lo, end) =~= t.subrange(0, t.len() - 2));
        return path_chars_range(s, lo, end);
    }
    false
}

/// Whether `s[lo..hi]` is a predicate list.
pub fn is_predicate_list_range(s: &[char], lo: usize, hi: usize) -> (r: bool)
    requires
        lo <= hi <= s@.len(),
    ensures
        r == is_predicate_list(range_of(s@, lo, hi)),
{
    let ghost t = range_of(s@, lo, hi);
    if hi - lo < 3 || s[lo] != '(' || s[hi - 1] != ')' {
        return false;
    }
    let mut i = lo + 1;
    while i < hi - 1
        invariant
            lo + 1 <= i <= hi - 1,
            hi - lo >= 3,
            hi <= s@.len(),
            t == range_of(s@, lo, hi),
            forall|j: int| 1 <= j < i - lo ==> #[trigger] t[j] != ')',
        decreases hi - 1 - i,
    {
        if s[i] == ')' {
            assert(t[i - lo] == ')');
            return false;
        }
        i = i + 1;
    }
    true
}

/// The parts of the rule key `s`, as positions: the end of the permission
/// pattern (which starts at 0), and the bounds of the text inside the
/// predicate list if there is one.
pub fn split_rule_key_chars(s: &[char]) -> (r: Option<(usize, Option<(usize, usize)>)>)
    ensures
        match r {
            None => split_rule_key(s@) is None,
            Some((k, None)) => k <= s@.len() && split_rule_key(s@) == Some(
                (range_of(s@, 0, k), None::<Seq<char>>),
            ),
            Some((k, Some((a, b)))) => k <= a <= b <= s@.len() && split_rule_key(s@) == Some(
                (range_of(s@, 0, k), Some(range_of(s@, a, b))),
            ),
        },
{
    let n = s.len();
    let open = vec!['('];
    assert(open@ =~= seq!['(']);
    assert(s@.subrange(0, n as int) =~= s@);
    match find_in(s, 0, n, open.as_slice()) {
        Some(i) => {
            assert(range_of(s@, i, n) =~= s@.skip(i as int));
            if is_permission_pattern_range(s, 0, i) && is_predicate_list_range(s, i, n) {
                Some((i, Some((i + 1, n - 1))))
            } else {
                None
            }
        },
        None => {
            if is_permission_pattern_range(s, 0, n) {
                Some((n, None))
            } else {
                None
            }
        },
    }
}

/// Once a prefix of the pieces is rejected, so is every longer prefix, with
/// the same error.
proof fn lemma_parse_conditions_err(pieces: Seq<Seq<char>>, k: int)
    requires
        0 <= k <= pieces.len(),
        parse_conditions(pieces.take(k)) is Err,
    ensures
        parse_conditions(pieces) == parse_conditions(pieces.take(k)),
    decreases pieces.len() - k,
{
    if k < pieces.len() {
        assert(pieces.take(k + 1).drop_last() =~= pieces.take(k));
        lemma_parse_conditions_err(pieces, k + 1);
    } else {
        assert(pieces.take(k) =~= pieces);
    }
}

/// The text `s[a..b]` of a predicate list given by its bounds, if any.
pub open spec fn preds_text(s: Seq<char>, preds: Option<(usize, usize)>) -> Option<Seq<char>> {
    match preds {
        Some((a, b)) => Some(range_of(s, a, b)),
        None => None,
    }
}

/// The predicates of a rule whose predicate list (if any) is the text
/// `s[a..b]`, registered for `collection`.
pub fn parse_conditions_range(s: &[char], preds: Option<(usize, usize)>, collection: Option<Collection>) -> (r: Result<PredicateGroup, PredicateError>)
    requires
        preds matches Some((a, b)) ==> a <= b <= s@.len(),
    ensures
        r matches Ok(g) ==> rule_conditions(preds_text(s@, preds), collection) == Ok::<
            Seq<Predicate>,
            PredicateError,
        >(group_items(g)),
        r matches Err(e) ==> rule_conditions(preds_text(s@, preds), collection) == Err::<
            Seq<Predicate>,
            PredicateError,
        >(e),
{
    let mut g: Vec<Predicate> = Vec::new();
    match preds {
        Some((a, b)) => {
            let ghost pieces = split_on(range_of(s@, a, b), ',');
            let ranges = split_ranges(s, a, b, ',');
            let mut k: usize = 0;
            while k < ranges.len()
                invariant
                    preds == Some((a, b)),
                    a <= b <= s@.len(),
                    pieces == split_on(range_of(s@, a, b), ','),
                    ranges@.len() == pieces.len(),
                    forall|j: int|
                        0 <= j < ranges@.len() ==> {
                            &&& a <= (#[trigger] ranges@[j]).0 <= ranges@[j].1 <= b
                            &&& range_of(s@, ranges@[j].0, ranges@[j].1) == pieces[j]
                        },
                    k <= ranges@.len(),
                    parse_conditions(pieces.take(k as int)) == Ok::<Seq<Predicate>, PredicateError>(g@),
                decreases ranges@.len() - k,
            {
                let (lo, hi) = ranges[k];
                let ghost prev = pieces.take(k as int);
                assert(pieces.take(k + 1).drop_last() =~= prev);
                assert(pieces.take(k + 1).last() == pieces[k as int]);
                match Predicate::from_chars(s, lo, hi) {
                    Ok(p) => {
                        g.push(p);
                    },
                    Err(e) => {
                        proof {
                            assert(parse_conditions(pieces.take(k + 1)) == Err::<Seq<Predicate>, PredicateError>(e));
                            lemma_parse_conditions_err(pieces, k + 1);
                            assert(pieces.take(pieces.len() as int) =~= pieces);
                        }
                        return Err(e);
                    },
                }
                k = k + 1;
            }
            assert(pieces.take(ranges@.len() as int) =~= pieces);
        },
        None => {},
    }
    match collection {
        Some(c) => {
            g.push(Predicate::PostCollection(c));
        },
        None => {},
    }
    Ok(group_from_vec(g))
}

} // verus!
