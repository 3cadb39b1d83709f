//! The library's laws: properties of the scorer proved once and for all, and
//! the supporting theory of the greedy match search.

use vstd::prelude::*;

use crate::chars::lower;
use crate::chars::lower_char;
use crate::chars::upper;
use crate::matching::end_of_match;
use crate::matching::first_occurrence;
use crate::matching::lemma_end_of_match_bounds;
use crate::matching::lemma_first_occurrence_props;
use crate::matching::lemma_occurrences_props;
use crate::matching::match_length;
use crate::matching::min_span_over;
use crate::matching::occurrences_from;
use crate::matching::span_at;
use crate::scoring::score_spec;
use crate::scoring::Score;

verus! {

/// The characters of `ns` occur, in order, inside `h`, wholly at positions
/// `from` or later.
pub open spec fn matches_from(ns: Seq<char>, h: Seq<char>, from: int) -> bool
    decreases ns.len(),
{
    ns.len() == 0 || exists|i: int|
        from <= i < h.len() && h[i] == ns[0] && matches_from(ns.drop_first(), h, i + 1)
}

/// The characters of `ns` occur, in order, somewhere inside `h`.
pub open spec fn is_subsequence(ns: Seq<char>, h: Seq<char>) -> bool {
    matches_from(ns, h, 0)
}

/// `l` is no larger than the length `o` holds, if it holds one.
pub open spec fn le_opt(l: int, o: Option<int>) -> bool {
    match o {
        Some(m) => l <= m,
        None => true,
    }
}

/// Loosening the position bound keeps an in-order occurrence.
pub proof fn lemma_matches_monotone(ns: Seq<char>, h: Seq<char>, a: int, b: int)
    requires
        b <= a,
        matches_from(ns, h, a),
    ensures
        matches_from(ns, h, b),
{
    if ns.len() > 0 {
        let i = choose|i: int|
            a <= i < h.len() && h[i] == ns[0] && matches_from(ns.drop_first(), h, i + 1);
        assert(b <= i < h.len() && h[i] == ns[0] && matches_from(ns.drop_first(), h, i + 1));
    }
}

/// The greedy sequential match strictly after `last` succeeds exactly when
/// the needles occur in order at positions strictly after `last`.
pub proof fn lemma_end_iff_matches(h: Seq<char>, ns: Seq<char>, last: int)
    requires
        -1 <= last,
    ensures
        end_of_match(h, ns, last) is Some <==> matches_from(ns, h, last + 1),
    decreases ns.len(),
{
    if ns.len() > 0 {
        lemma_first_occurrence_props(h, ns[0], last + 1);
        match first_occurrence(h, ns[0], last + 1) {
            Some(j) => {
                lemma_end_iff_matches(h, ns.drop_first(), j);
                if matches_from(ns, h, last + 1) {
                    let i = choose|i: int|
                        last + 1 <= i < h.len() && h[i] == ns[0] && matches_from(
                            ns.drop_first(),
                            h,
                            i + 1,
                        );
                    assert(j <= i);
                    lemma_matches_monotone(ns.drop_first(), h, i + 1, j + 1);
                }
                if end_of_match(h, ns, last) is Some {
                    assert(matches_from(ns.drop_first(), h, j + 1));
                    assert(last + 1 <= j < h.len() && h[j] == ns[0] && matches_from(
                        ns.drop_first(),
                        h,
                        j + 1,
                    ));
                }
            },
            None => {
                if matches_from(ns, h, last + 1) {
                    let i = choose|i: int|
                        last + 1 <= i < h.len() && h[i] == ns[0] && matches_from(
                            ns.drop_first(),
                            h,
                            i + 1,
                        );
                    assert(h[i] != ns[0]);
                }
            },
        }
    }
}

/// The characters of `ns` occur, in order, inside `h`, wholly at positions
/// between `from` and `end`, both inclusive.
pub open spec fn matches_within(ns: Seq<char>, h: Seq<char>, from: int, end: int) -> bool
    decreases ns.len(),
{
    ns.len() == 0 || exists|i: int|
        from <= i <= end && i < h.len() && h[i] == ns[0] && matches_within(
            ns.drop_first(),
            h,
            i + 1,
            end,
        )
}

/// Loosening the position bounds keeps a bounded in-order occurrence.
pub proof fn lemma_matches_within_monotone(ns: Seq<char>, h: Seq<char>, a: int, b: int, end: int)
    requires
        b <= a,
        matches_within(ns, h, a, end),
    ensures
        matches_within(ns, h, b, end),
{
    if ns.len() > 0 {
        let i = choose|i: int|
            a <= i <= end && i < h.len() && h[i] == ns[0] && matches_within(
                ns.drop_first(),
                h,
                i + 1,
                end,
            );
        assert(b <= i <= end && i < h.len() && h[i] == ns[0] && matches_within(
            ns.drop_first(),
            h,
            i + 1,
            end,
        ));
    }
}

/// The greedy sequential match is an in-order occurrence bounded by its own
/// end.
pub proof fn lemma_end_within(h: Seq<char>, ns: Seq<char>, last: int)
    ensures
        end_of_match(h, ns, last) matches Some(e) ==> matches_within(ns, h, last + 1, e),
    decreases ns.len(),
{
    if ns.len() > 0 {
        match first_occurrence(h, ns[0], last + 1) {
            Some(i) => {
                lemma_first_occurrence_props(h, ns[0], last + 1);
                lemma_end_within(h, ns.drop_first(), i);
                lemma_end_of_match_bounds(h, ns.drop_first(), i);
                match end_of_match(h, ns.drop_first(), i) {
                    Some(e) => {
                        assert(last + 1 <= i <= e && i < h.len() && h[i] == ns[0]
                            && matches_within(ns.drop_first(), h, i + 1, e));
                    },
                    None => {},
                }
            },
            None => {},
        }
    }
}

/// Greedy dominance: where any in-order occurrence ends by `bound`, the
/// greedy leftmost match succeeds and ends no later.
pub proof fn lemma_greedy_dominates(h: Seq<char>, ns: Seq<char>, last: int, bound: int)
    requires
        -1 <= last,
        matches_within(ns, h, last + 1, bound),
    ensures
        end_of_match(h, ns, last) matches Some(e) && e <= if ns.len() == 0 {
            last
        } else {
            bound
        },
    decreases ns.len(),
{
    if ns.len() > 0 {
        let i = choose|i: int|
            last + 1 <= i <= bound && i < h.len() && h[i] == ns[0] && matches_within(
                ns.drop_first(),
                h,
                i + 1,
                bound,
            );
        lemma_first_occurrence_props(h, ns[0], last + 1);
        match first_occurrence(h, ns[0], last + 1) {
            Some(j) => {
                assert(j <= i);
                lemma_matches_within_monotone(ns.drop_first(), h, i + 1, j + 1, bound);
                lemma_greedy_dominates(h, ns.drop_first(), j, bound);
                assert(j <= bound);
            },
            None => {
                assert(h[i] != ns[0]);
            },
        }
    }
}

/// The minimum over a list of starts is achieved by one of them and bounds
/// all of them; it is absent exactly when every start fails.
pub proof fn lemma_min_span_over_props(h: Seq<char>, rest: Seq<char>, starts: Seq<int>)
    ensures
        min_span_over(h, rest, starts) matches Some(l) ==> {
            &&& exists|k: int|
                0 <= k < starts.len() && span_at(h, rest, #[trigger] starts[k]) == Some(l)
            &&& forall|k: int|
                0 <= k < starts.len() ==> le_opt(l, span_at(h, rest, #[trigger] starts[k]))
        },
        min_span_over(h, rest, starts) is None ==> forall|k: int|
            0 <= k < starts.len() ==> span_at(h, rest, #[trigger] starts[k]) is None,
    decreases starts.len(),
{
    if starts.len() > 0 {
        let tail = starts.drop_first();
        lemma_min_span_over_props(h, rest, tail);
        assert(forall|k: int| 1 <= k < starts.len() ==> tail[k - 1] == #[trigger] starts[k]);
        match min_span_over(h, rest, starts) {
            Some(l) => {
                match span_at(h, rest, starts[0]) {
                    Some(x) => {
                        if le_opt(x, min_span_over(h, rest, tail)) {
                            assert(l == x);
                            assert(span_at(h, rest, starts[0]) == Some(l));
                        } else {
                            let kt = choose|k: int|
                                0 <= k < tail.len() && span_at(h, rest, tail[k]) == Some(l);
                            assert(span_at(h, rest, starts[kt + 1]) == Some(l));
                        }
                    },
                    None => {
                        let kt = choose|k: int|
                            0 <= k < tail.len() && span_at(h, rest, tail[k]) == Some(l);
                        assert(span_at(h, rest, starts[kt + 1]) == Some(l));
                    },
                }
            },
            None => {},
        }
    }
}

/// `s` with `x` inserted at position `p`.
pub open spec fn insert_at(s: Seq<char>, p: int, x: char) -> Seq<char>
    recommends
        0 <= p <= s.len(),
{
    s.subrange(0, p) + seq![x] + s.subrange(p, s.len() as int)
}

/// How the inserted sequence reads: unchanged up to `p`, the new character
/// at `p`, and the old characters shifted one place after it.
pub proof fn lemma_insert_at_index(s: Seq<char>, p: int, x: char)
    requires
        0 <= p <= s.len(),
    ensures
        insert_at(s, p, x).len() == s.len() + 1,
        forall|i: int| 0 <= i < p ==> insert_at(s, p, x)[i] == s[i],
        insert_at(s, p, x)[p] == x,
        forall|i: int| p < i <= s.len() ==> insert_at(s, p, x)[i] == s[i - 1],
{
}

/// Removing an inserted character that no needle equals maps a bounded
/// in-order occurrence back to the original sequence, with the bounds
/// tightened to the original's positions.
proof fn lemma_embedding_without_insertion(
    ns: Seq<char>,
    h: Seq<char>,
    p: int,
    x: char,
    from: int,
    end: int,
)
    requires
        0 <= p <= h.len(),
        0 <= from,
        forall|k: int| 0 <= k < ns.len() ==> ns[k] != x,
        matches_within(ns, insert_at(h, p, x), from, end),
    ensures
        matches_within(
            ns,
            h,
            if from <= p {
                from
            } else {
                from - 1
            },
            if end < p {
                end
            } else {
                end - 1
            },
        ),
    decreases ns.len(),
{
    lemma_insert_at_index(h, p, x);
    if ns.len() > 0 {
        let hp = insert_at(h, p, x);
        let i = choose|i: int|
            from <= i <= end && i < hp.len() && hp[i] == ns[0] && matches_within(
                ns.drop_first(),
                hp,
                i + 1,
                end,
            );
        assert(i != p);
        let m = if i < p {
            i
        } else {
            i - 1
        };
        assert(h[m] == hp[i]);
        assert(forall|k: int| 0 <= k < ns.drop_first().len() ==> ns.drop_first()[k] != x);
        lemma_embedding_without_insertion(ns.drop_first(), h, p, x, i + 1, end);
        let nf = if from <= p {
            from
        } else {
            from - 1
        };
        let ne = if end < p {
            end
        } else {
            end - 1
        };
        assert(nf <= m <= ne && m < h.len() && h[m] == ns[0] && matches_within(
            ns.drop_first(),
            h,
            m + 1,
            ne,
        ));
    }
}

/// Inserting a character that no needle equals never shortens the match:
/// where the padded haystack matches, the original matches too, and never
/// with a longer length.
pub proof fn lemma_match_length_padding(h: Seq<char>, ns: Seq<char>, p: int, x: char)
    requires
        ns.len() > 0,
        0 <= p <= h.len(),
        forall|k: int| 0 <= k < ns.len() ==> ns[k] != x,
    ensures
        match_length(insert_at(h, p, x), ns) matches Some(lp) ==> match_length(h, ns)
            matches Some(l) && l <= lp,
{
    let hp = insert_at(h, p, x);
    lemma_insert_at_index(h, p, x);
    let rest = ns.drop_first();
    let starts_p = occurrences_from(hp, ns[0], 0);
    let starts = occurrences_from(h, ns[0], 0);
    lemma_min_span_over_props(hp, rest, starts_p);
    lemma_min_span_over_props(h, rest, starts);
    lemma_occurrences_props(hp, ns[0], 0);
    lemma_occurrences_props(h, ns[0], 0);
    match match_length(hp, ns) {
        Some(lp) => {
            let k = choose|k: int|
                0 <= k < starts_p.len() && span_at(hp, rest, starts_p[k]) == Some(lp);
            let sp = starts_p[k];
            assert(sp != p);
            let s = if sp < p {
                sp
            } else {
                sp - 1
            };
            assert(h[s] == hp[sp]);
            match end_of_match(hp, rest, sp) {
                Some(ep) => {
                    lemma_end_within(hp, rest, sp);
                    lemma_end_of_match_bounds(hp, rest, sp);
                    assert(forall|kk: int| 0 <= kk < rest.len() ==> rest[kk] != x);
                    let bound = if ep < p {
                        ep
                    } else {
                        ep - 1
                    };
                    if rest.len() > 0 {
                        lemma_embedding_without_insertion(rest, h, p, x, sp + 1, ep);
                        assert(matches_within(rest, h, s + 1, bound));
                        lemma_greedy_dominates(h, rest, s, bound);
                    }
                    match end_of_match(h, rest, s) {
                        Some(e) => {
                            assert(e - s + 1 <= ep - sp + 1);
                            assert(starts.contains(s));
                            let ks = choose|ks: int| 0 <= ks < starts.len() && starts[ks] == s;
                            assert(span_at(h, rest, starts[ks]) is Some);
                            match match_length(h, ns) {
                                Some(l) => {
                                    assert(le_opt(l, span_at(h, rest, starts[ks])));
                                },
                                None => {
                                    assert(false);
                                },
                            }
                        },
                        None => {
                            assert(false);
                        },
                    }
                },
                None => {
                    assert(false);
                },
            }
        },
        None => {},
    }
}

/// Any match length found lies between the needle count and the haystack
/// length.
pub proof fn lemma_match_length_bounds(h: Seq<char>, ns: Seq<char>)
    requires
        ns.len() > 0,
    ensures
        match_length(h, ns) matches Some(l) ==> ns.len() <= l <= h.len(),
{
    let rest = ns.drop_first();
    let starts = occurrences_from(h, ns[0], 0);
    lemma_min_span_over_props(h, rest, starts);
    lemma_occurrences_props(h, ns[0], 0);
    match match_length(h, ns) {
        Some(l) => {
            let k = choose|k: int|
                0 <= k < starts.len() && span_at(h, rest, starts[k]) == Some(l);
            lemma_end_of_match_bounds(h, rest, starts[k]);
        },
        None => {},
    }
}

/// An empty query scores as a full match on any choice.
pub proof fn lemma_empty_query_scores_one(choice: Seq<char>)
    ensures
        score_spec(choice, Seq::<char>::empty()) == Score::EmptyQuery,
{
}

/// A non-empty query never matches an empty choice.
pub proof fn lemma_empty_choice_scores_zero(query: Seq<char>)
    requires
        query.len() > 0,
    ensures
        score_spec(Seq::<char>::empty(), query) == Score::NoMatch,
{
}

/// A query longer than the choice never matches.
pub proof fn lemma_query_longer_scores_zero(choice: Seq<char>, query: Seq<char>)
    requires
        query.len() > choice.len(),
    ensures
        score_spec(choice, query) == Score::NoMatch,
{
    if choice.len() > 0 {
        let h = lower(choice);
        let q = lower(query);
        lemma_match_length_bounds(h, q);
        match match_length(h, q) {
            Some(l) => {
                assert(false);
            },
            None => {},
        }
    }
}

/// The match search succeeds exactly when the needles occur, in order,
/// somewhere inside the haystack.
pub proof fn lemma_match_iff_subsequence(h: Seq<char>, ns: Seq<char>)
    requires
        ns.len() > 0,
    ensures
        match_length(h, ns) is Some <==> is_subsequence(ns, h),
{
    let rest = ns.drop_first();
    let starts = occurrences_from(h, ns[0], 0);
    lemma_min_span_over_props(h, rest, starts);
    lemma_occurrences_props(h, ns[0], 0);
    match match_length(h, ns) {
        Some(l) => {
            let k = choose|k: int|
                0 <= k < starts.len() && span_at(h, rest, starts[k]) == Some(l);
            lemma_end_iff_matches(h, rest, starts[k]);
            assert(0 <= starts[k] < h.len() && h[starts[k]] == ns[0] && matches_from(
                rest,
                h,
                starts[k] + 1,
            ));
        },
        None => {
            if is_subsequence(ns, h) {
                let i = choose|i: int|
                    0 <= i < h.len() && h[i] == ns[0] && matches_from(rest, h, i + 1);
                assert(starts.contains(i));
                let k = choose|k: int| 0 <= k < starts.len() && starts[k] == i;
                lemma_end_iff_matches(h, rest, i);
                assert(span_at(h, rest, starts[k]) is Some);
                assert(false);
            }
        },
    }
}

/// A non-empty query scores zero exactly when its lowercased characters do
/// not occur, in order, inside the lowercased choice.
pub proof fn lemma_score_zero_iff_no_subsequence(choice: Seq<char>, query: Seq<char>)
    requires
        query.len() > 0,
    ensures
        score_spec(choice, query) == Score::NoMatch <==> !is_subsequence(
            lower(query),
            lower(choice),
        ),
{
    let h = lower(choice);
    let q = lower(query);
    if choice.len() == 0 {
        assert(!matches_from(q, h, 0));
    } else {
        lemma_match_iff_subsequence(h, q);
    }
}

/// Scoring is ASCII case-insensitive: lowercasing or uppercasing both inputs
/// beforehand does not change the score.
pub proof fn lemma_case_insensitive(choice: Seq<char>, query: Seq<char>)
    ensures
        score_spec(choice, query) == score_spec(lower(choice), lower(query)),
        score_spec(choice, query) == score_spec(upper(choice), upper(query)),
{
    crate::chars::lemma_lower_idempotent(choice);
    crate::chars::lemma_lower_idempotent(query);
    crate::chars::lemma_lower_of_upper(choice);
    crate::chars::lemma_lower_of_upper(query);
}

/// Every suffix of `h` occurs, in order, inside `h` starting at its own
/// position.
proof fn lemma_identity_matches(h: Seq<char>, j: int)
    requires
        0 <= j <= h.len(),
    ensures
        matches_from(h.skip(j), h, j),
    decreases h.len() - j,
{
    if j < h.len() {
        lemma_identity_matches(h, j + 1);
        assert(h.skip(j).drop_first() =~= h.skip(j + 1));
        assert(j <= j < h.len() && h[j] == h.skip(j)[0] && matches_from(
            h.skip(j).drop_first(),
            h,
            j + 1,
        ));
    }
}

/// A non-empty string scores against itself as one exact match: the matched
/// span is the whole string.
pub proof fn lemma_exact_match(s: Seq<char>)
    requires
        0 < s.len() <= usize::MAX,
    ensures
        score_spec(s, s) == (Score::Matched {
            query_len: s.len() as usize,
            match_length: s.len() as usize,
            choice_len: s.len() as usize,
        }),
{
    let h = lower(s);
    let rest = h.drop_first();
    let starts = occurrences_from(h, h[0], 0);
    lemma_occurrences_props(h, h[0], 0);
    lemma_min_span_over_props(h, rest, starts);
    lemma_identity_matches(h, 1);
    assert(h.skip(1) =~= rest);
    lemma_end_iff_matches(h, rest, 0);
    lemma_end_of_match_bounds(h, rest, 0);
    match end_of_match(h, rest, 0) {
        Some(e) => {
            assert(e == h.len() - 1);
            assert(span_at(h, rest, 0) == Some(h.len() as int));
        },
        None => {
            assert(false);
        },
    }
    assert(starts.contains(0));
    let k0 = choose|k: int| 0 <= k < starts.len() && starts[k] == 0;
    match match_length(h, h) {
        Some(l) => {
            let k = choose|k: int|
                0 <= k < starts.len() && span_at(h, rest, starts[k]) == Some(l);
            lemma_end_of_match_bounds(h, rest, starts[k]);
            assert(le_opt(l, span_at(h, rest, starts[k0])));
            assert(l == h.len());
        },
        None => {
            assert(span_at(h, rest, starts[k0]) is None);
            assert(false);
        },
    }
}

/// A match's components are ordered: the span covers at least the query and
/// lies inside the choice.
pub proof fn lemma_matched_bounds(choice: Seq<char>, query: Seq<char>)
    requires
        choice.len() <= usize::MAX,
    ensures
        score_spec(choice, query) matches Score::Matched { query_len, match_length, choice_len }
            ==> 0 < query_len <= match_length <= choice_len,
{
    if choice.len() > 0 && query.len() > 0 {
        lemma_match_length_bounds(lower(choice), lower(query));
    }
}

/// Lowercasing distributes over insertion.
proof fn lemma_lower_insert_at(s: Seq<char>, p: int, x: char)
    requires
        0 <= p <= s.len(),
    ensures
        lower(insert_at(s, p, x)) == insert_at(lower(s), p, lower_char(x)),
{
    lemma_insert_at_index(s, p, x);
    lemma_insert_at_index(lower(s), p, lower_char(x));
    assert forall|i: int| 0 <= i < s.len() + 1 implies lower(insert_at(s, p, x))[i] == insert_at(
        lower(s),
        p,
        lower_char(x),
    )[i] by {
        assert(lower(insert_at(s, p, x))[i] == lower_char(insert_at(s, p, x)[i]));
    }
    assert(lower(insert_at(s, p, x)) =~= insert_at(lower(s), p, lower_char(x)));
}

/// Padding never helps: inserting, anywhere into the choice, a character
/// whose lowercased form occurs nowhere in the lowercased query gives a
/// score no higher than the unpadded choice's. The two scores are compared
/// as exact rationals, `(query_len / match_length) / choice_len`, by
/// cross-multiplication.
pub proof fn lemma_padding_never_increases_score(
    choice: Seq<char>,
    query: Seq<char>,
    p: int,
    x: char,
)
    requires
        query.len() > 0,
        0 <= p <= choice.len(),
        choice.len() + 1 <= usize::MAX,
        forall|k: int| 0 <= k < query.len() ==> lower_char(#[trigger] query[k]) != lower_char(x),
    ensures
        ({
            let padded = insert_at(choice, p, x);
            match (score_spec(choice, query), score_spec(padded, query)) {
                (
                    Score::Matched { query_len: q1, match_length: l1, choice_len: c1 },
                    Score::Matched { query_len: q2, match_length: l2, choice_len: c2 },
                ) => q2 * (l1 * c1) <= q1 * (l2 * c2),
                (_, Score::Matched { .. }) => false,
                _ => true,
            }
        }),
{
    let padded = insert_at(choice, p, x);
    let h = lower(choice);
    let q = lower(query);
    let lx = lower_char(x);
    lemma_insert_at_index(choice, p, x);
    lemma_lower_insert_at(choice, p, x);
    let hp = lower(padded);
    assert(hp == insert_at(h, p, lx));
    assert(forall|k: int| 0 <= k < q.len() ==> #[trigger] q[k] != lx);
    match score_spec(padded, query) {
        Score::Matched { .. } => {
            lemma_insert_at_index(h, p, lx);
            lemma_match_length_padding(h, q, p, lx);
            lemma_match_length_bounds(h, q);
            lemma_match_length_bounds(hp, q);
            match (match_length(h, q), match_length(hp, q)) {
                (Some(l), Some(lp)) => {
                    assert(q.len() <= l <= h.len());
                    assert(choice.len() > 0);
                    lemma_diluted_match_scores_no_higher(
                        query.len() as int,
                        l,
                        choice.len() as int,
                        lp,
                        choice.len() as int + 1,
                    );
                },
                (None, Some(_)) => {
                    assert(false);
                },
                (_, None) => {
                    assert(false);
                },
            }
        },
        _ => {},
    }
}

/// The arithmetic face of padding: with the same query length, a longer
/// match span inside a no-shorter choice scores no higher. The scores
/// `(q / l1) / c1` and `(q / l2) / c2` are compared as exact rationals, by
/// cross-multiplication.
pub proof fn lemma_diluted_match_scores_no_higher(q: int, l1: int, c1: int, l2: int, c2: int)
    requires
        0 < q,
        0 < l1 <= l2,
        0 < c1 <= c2,
    ensures
        q * (l1 * c1) <= q * (l2 * c2),
{
    assert(q * (l1 * c1) <= q * (l2 * c2)) by (nonlinear_arith)
        requires
            0 < q,
            0 < l1 <= l2,
            0 < c1 <= c2,
    ;
}

/// The score sees the starting positions only through the minimum: the
/// recorded match length is achieved at some occurrence of the first query
/// character, and no occurrence achieves a shorter greedy span.
pub proof fn lemma_score_through_minimum(choice: Seq<char>, query: Seq<char>)
    requires
        choice.len() <= usize::MAX,
    ensures
        score_spec(choice, query) matches Score::Matched { query_len, match_length, choice_len }
            ==> {
            let h = lower(choice);
            let q = lower(query);
            &&& exists|i: int|
                0 <= i < h.len() && h[i] == q[0] && #[trigger] span_at(h, q.drop_first(), i)
                    == Some(match_length as int)
            &&& forall|i: int|
                0 <= i < h.len() && h[i] == q[0] ==> le_opt(
                    match_length as int,
                    #[trigger] span_at(h, q.drop_first(), i),
                )
        },
{
    match score_spec(choice, query) {
        Score::Matched { query_len: _, match_length: ml, choice_len: _ } => {
            let h = lower(choice);
            let q = lower(query);
            let rest = q.drop_first();
            let starts = occurrences_from(h, q[0], 0);
            lemma_min_span_over_props(h, rest, starts);
            lemma_occurrences_props(h, q[0], 0);
            lemma_match_length_bounds(h, q);
            match match_length(h, q) {
                Some(l) => {
                    let k = choose|k: int|
                        0 <= k < starts.len() && span_at(h, rest, starts[k]) == Some(l);
                    assert(0 <= starts[k] < h.len() && h[starts[k]] == q[0] && span_at(
                        h,
                        rest,
                        starts[k],
                    ) == Some(ml as int));
                    assert forall|i: int| 0 <= i < h.len() && h[i] == q[0] implies le_opt(
                        ml as int,
                        span_at(h, rest, i),
                    ) by {
                        assert(starts.contains(i));
                        let ki = choose|ki: int| 0 <= ki < starts.len() && starts[ki] == i;
                        assert(le_opt(l, span_at(h, rest, starts[ki])));
                    }
                },
                None => {},
            }
        },
        _ => {},
    }
}

} // verus!
