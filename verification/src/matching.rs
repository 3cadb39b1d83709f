//! The match-length search: locating characters and finding, per starting
//! occurrence of the first needle, the greedy leftmost in-order match of the
//! remaining needles, then minimising the spanned length over all starts.

use vstd::prelude::*;

verus! {

/// Index of the first occurrence of `c` in `h` at position `from` or later,
/// if any.
pub open spec fn first_occurrence(h: Seq<char>, c: char, from: int) -> Option<int>
    decreases h.len() - from,
{
    if from < 0 || from >= h.len() {
        None
    } else if h[from] == c {
        Some(from)
    } else {
        first_occurrence(h, c, from + 1)
    }
}

/// All indices `i >= from` with `h[i] == c`, in ascending order.
pub open spec fn occurrences_from(h: Seq<char>, c: char, from: int) -> Seq<int>
    decreases h.len() - from,
{
    if from < 0 || from >= h.len() {
        Seq::empty()
    } else if h[from] == c {
        seq![from] + occurrences_from(h, c, from + 1)
    } else {
        occurrences_from(h, c, from + 1)
    }
}

/// Lift an optional mathematical index to an optional machine index.
pub open spec fn as_usize_opt(o: Option<int>) -> Option<usize> {
    match o {
        Some(i) => Some(i as usize),
        None => None,
    }
}

/// What `first_occurrence` returns: the least occurrence at or after `from`,
/// or nothing when no occurrence remains.
pub proof fn lemma_first_occurrence_props(h: Seq<char>, c: char, from: int)
    requires
        0 <= from,
    ensures
        first_occurrence(h, c, from) matches Some(i) ==> {
            &&& from <= i < h.len()
            &&& h[i] == c
            &&& forall|j: int| from <= j < i ==> h[j] != c
        },
        first_occurrence(h, c, from) is None ==> forall|j: int|
            from <= j < h.len() ==> h[j] != c,
    decreases h.len() - from,
{
    if from < 0 || from >= h.len() {
    } else if h[from] == c {
    } else {
        lemma_first_occurrence_props(h, c, from + 1);
    }
}

/// Unfolding `occurrences_from` by one found occurrence: the list starts with
/// the first occurrence and continues past it; with no occurrence it is empty.
pub proof fn lemma_occurrences_step(h: Seq<char>, c: char, from: int)
    requires
        0 <= from,
    ensures
        first_occurrence(h, c, from) matches Some(i) ==> occurrences_from(h, c, from)
            =~= seq![i] + occurrences_from(h, c, i + 1),
        first_occurrence(h, c, from) is None ==> occurrences_from(h, c, from)
            =~= Seq::<int>::empty(),
    decreases h.len() - from,
{
    if from < 0 || from >= h.len() {
    } else if h[from] == c {
    } else {
        lemma_occurrences_step(h, c, from + 1);
    }
}

/// The occurrence list holds exactly the occurrences at or after `from`,
/// in strictly ascending order.
pub proof fn lemma_occurrences_props(h: Seq<char>, c: char, from: int)
    requires
        0 <= from,
    ensures
        forall|k: int| 0 <= k < occurrences_from(h, c, from).len() ==> {
            &&& from <= #[trigger] occurrences_from(h, c, from)[k] < h.len()
            &&& h[occurrences_from(h, c, from)[k]] == c
        },
        forall|j: int| from <= j < h.len() && h[j] == c ==> occurrences_from(
            h,
            c,
            from,
        ).contains(j),
        forall|k1: int, k2: int|
            0 <= k1 < k2 < occurrences_from(h, c, from).len() ==> occurrences_from(h, c, from)[k1]
                < occurrences_from(h, c, from)[k2],
    decreases h.len() - from,
{
    if from < 0 || from >= h.len() {
    } else {
        lemma_occurrences_props(h, c, from + 1);
        let tail = occurrences_from(h, c, from + 1);
        if h[from] == c {
            let whole = occurrences_from(h, c, from);
            assert(whole =~= seq![from] + tail);
            assert forall|j: int| from <= j < h.len() && h[j] == c implies whole.contains(
                j,
            ) by {
                if j == from {
                    assert(whole[0] == j);
                } else {
                    let k = choose|k: int| 0 <= k < tail.len() && tail[k] == j;
                    assert(whole[k + 1] == j);
                }
            }
        } else {
            assert forall|j: int|
                from <= j < h.len() && h[j] == c implies occurrences_from(h, c, from).contains(
                j,
            ) by {
                let k = choose|k: int| 0 <= k < tail.len() && tail[k] == j;
                assert(occurrences_from(h, c, from)[k] == j);
            }
        }
    }
}

/// Greedy sequential matching: starting strictly after index `last`, find the
/// leftmost occurrence of each needle in turn, each strictly after the
/// previous one. The result is the index of the last needle matched, or
/// nothing if some needle has no occurrence left.
pub open spec fn end_of_match(h: Seq<char>, ns: Seq<char>, last: int) -> Option<int>
    decreases ns.len(),
{
    if ns.len() == 0 {
        Some(last)
    } else {
        match first_occurrence(h, ns[0], last + 1) {
            Some(i) => end_of_match(h, ns.drop_first(), i),
            None => None,
        }
    }
}

/// The length of the span of the greedy match that begins at `start` (an
/// occurrence of the first needle) and continues through the remaining
/// needles `rest`: the end index minus the start, counting both ends.
pub open spec fn span_at(h: Seq<char>, rest: Seq<char>, start: int) -> Option<int> {
    match end_of_match(h, rest, start) {
        Some(e) => Some(e - start + 1),
        None => None,
    }
}

/// The smaller of two optional lengths, where absence loses to any length.
pub open spec fn opt_min(a: Option<int>, b: Option<int>) -> Option<int> {
    match (a, b) {
        (Some(x), Some(y)) => if x <= y {
            Some(x)
        } else {
            Some(y)
        },
        (Some(x), None) => Some(x),
        (None, _) => b,
    }
}

/// The minimum greedy span length over the given starting indices.
pub open spec fn min_span_over(h: Seq<char>, rest: Seq<char>, starts: Seq<int>) -> Option<int>
    decreases starts.len(),
{
    if starts.len() == 0 {
        None
    } else {
        opt_min(span_at(h, rest, starts[0]), min_span_over(h, rest, starts.drop_first()))
    }
}

/// The minimal greedy match length of the needles inside the haystack: for
/// every occurrence of the first needle, the greedy leftmost continuation
/// through the remaining needles, reduced to the shortest spanned length.
pub open spec fn match_length(h: Seq<char>, ns: Seq<char>) -> Option<int>
    recommends
        ns.len() > 0,
{
    min_span_over(h, ns.drop_first(), occurrences_from(h, ns[0], 0))
}

/// A successful greedy match ends within the haystack and advances at least
/// one position per needle.
pub proof fn lemma_end_of_match_bounds(h: Seq<char>, ns: Seq<char>, last: int)
    ensures
        end_of_match(h, ns, last) matches Some(e) ==> {
            &&& last + ns.len() <= e
            &&& ns.len() > 0 ==> e < h.len()
            &&& ns.len() == 0 ==> e == last
        },
    decreases ns.len(),
{
    if ns.len() == 0 {
    } else {
        match first_occurrence(h, ns[0], last + 1) {
            Some(i) => {
                lemma_first_occurrence_props(h, ns[0], last + 1);
                lemma_end_of_match_bounds(h, ns.drop_first(), i);
            },
            None => {},
        }
    }
}

/// Find the first occurrence of `needle` in `haystack` at index `offset` or
/// later.
pub fn find_from_offset(haystack: &[char], needle: char, offset: usize) -> (r: Option<usize>)
    ensures
        r == as_usize_opt(first_occurrence(haystack@, needle, offset as int)),
{
    let n = haystack.len();
    let mut i = offset;
    while i < n
        invariant
            n == haystack@.len(),
            offset <= i,
            first_occurrence(haystack@, needle, offset as int) == first_occurrence(
                haystack@,
                needle,
                i as int,
            ),
        decreases n - i,
    {
        if haystack[i] == needle {
            return Some(i);
        }
        i += 1;
    }
    None
}

/// Lift an optional machine index to an optional mathematical index.
pub open spec fn as_int_opt(o: Option<usize>) -> Option<int> {
    match o {
        Some(i) => Some(i as int),
        None => None,
    }
}

/// Taking the minimum of optional lengths is associative.
pub proof fn lemma_opt_min_assoc(a: Option<int>, b: Option<int>, c: Option<int>)
    ensures
        opt_min(opt_min(a, b), c) == opt_min(a, opt_min(b, c)),
{
}

/// Starting strictly after `first_index`, find the leftmost occurrence of
/// each needle in turn, each strictly after the previous one, and return the
/// index of the last needle matched.
pub fn find_end_of_match(haystack: &[char], needles: &[char], first_index: usize) -> (r: Option<
    usize,
>)
    requires
        first_index < haystack@.len(),
    ensures
        r == as_usize_opt(end_of_match(haystack@, needles@, first_index as int)),
{
    let hn = haystack.len();
    let mut last: usize = first_index;
    let mut k: usize = 0;
    proof {
        assert(needles@.skip(0) =~= needles@);
    }
    while k < needles.len()
        invariant
            hn == haystack@.len(),
            k <= needles@.len(),
            last < hn,
            end_of_match(haystack@, needles@, first_index as int) == end_of_match(
                haystack@,
                needles@.skip(k as int),
                last as int,
            ),
        decreases needles@.len() - k,
    {
        proof {
            assert(needles@.skip(k as int)[0] == needles@[k as int]);
            assert(needles@.skip(k as int).drop_first() =~= needles@.skip(k as int + 1));
        }
        match find_from_offset(haystack, needles[k], last + 1) {
            Some(i) => {
                proof {
                    lemma_first_occurrence_props(haystack@, needles@[k as int], last as int + 1);
                }
                last = i;
            },
            None => {
                return None;
            },
        }
        k += 1;
    }
    proof {
        assert(needles@.skip(needles@.len() as int) =~= Seq::<char>::empty());
    }
    Some(last)
}

/// Find the length of the shortest greedy match of the needles inside the
/// haystack, trying every occurrence of the first needle as a start.
pub fn compute_match_length(haystack: &[char], needles: &[char]) -> (r: Option<usize>)
    requires
        needles@.len() > 0,
    ensures
        r == as_usize_opt(match_length(haystack@, needles@)),
{
    let first_char = needles[0];
    let rest = vstd::slice::slice_subrange(needles, 1, needles.len());
    proof {
        assert(rest@ =~= needles@.drop_first());
    }
    let first_indexes = find_char_in_string(haystack, first_char);
    let hn = haystack.len();
    let ghost starts = occurrences_from(haystack@, first_char, 0);
    let mut best: Option<usize> = None;
    let mut k: usize = 0;
    proof {
        assert(starts.skip(0) =~= starts);
    }
    while k < first_indexes.len()
        invariant
            hn == haystack@.len(),
            k <= first_indexes@.len(),
            needles@.len() > 0,
            first_char == needles@[0],
            rest@ == needles@.drop_first(),
            first_indexes@.map_values(|x: usize| x as int) == starts,
            starts == occurrences_from(haystack@, first_char, 0),
            forall|j: int| 0 <= j < first_indexes@.len() ==> #[trigger] first_indexes@[j] < hn,
            opt_min(as_int_opt(best), min_span_over(haystack@, rest@, starts.skip(k as int)))
                == match_length(haystack@, needles@),
        decreases first_indexes@.len() - k,
    {
        let idx = first_indexes[k];
        proof {
            assert(starts.skip(k as int)[0] == starts[k as int]);
            assert(starts.skip(k as int).drop_first() =~= starts.skip(k as int + 1));
            assert(starts[k as int] == first_indexes@[k as int] as int);
            lemma_end_of_match_bounds(haystack@, rest@, idx as int);
            lemma_opt_min_assoc(
                as_int_opt(best),
                span_at(haystack@, rest@, idx as int),
                min_span_over(haystack@, rest@, starts.skip(k as int + 1)),
            );
        }
        match find_end_of_match(haystack, rest, idx) {
            Some(e) => {
                let len = e - idx + 1;
                best = match best {
                    Some(b) => if b <= len {
                        Some(b)
                    } else {
                        Some(len)
                    },
                    None => Some(len),
                };
            },
            None => {},
        }
        k += 1;
    }
    proof {
        assert(starts.skip(starts.len() as int) =~= Seq::<int>::empty());
    }
    best
}

/// Find every occurrence of `needle` in `haystack`, returning the indices in
/// ascending order.
pub fn find_char_in_string(haystack: &[char], needle: char) -> (r: Vec<usize>)
    ensures
        r@.map_values(|x: usize| x as int) == occurrences_from(haystack@, needle, 0),
        forall|k: int| 0 <= k < r@.len() ==> #[trigger] r@[k] < haystack@.len(),
{
    let mut indexes: Vec<usize> = Vec::new();
    let mut index: usize = 0;
    loop
        invariant
            occurrences_from(haystack@, needle, 0) =~= indexes@.map_values(|x: usize| x as int)
                + occurrences_from(haystack@, needle, index as int),
            forall|k: int| 0 <= k < indexes@.len() ==> #[trigger] indexes@[k] < haystack@.len(),
        decreases haystack@.len() + 1 - index,
    {
        proof {
            lemma_occurrences_step(haystack@, needle, index as int);
            lemma_first_occurrence_props(haystack@, needle, index as int);
        }
        match find_from_offset(haystack, needle, index) {
            Some(i) => {
                assert(i < haystack.len());
                let ghost before = indexes@;
                indexes.push(i);
                proof {
                    assert(indexes@.map_values(|x: usize| x as int)
                        =~= before.map_values(|x: usize| x as int) + seq![i as int]);
                    assert(occurrences_from(haystack@, needle, index as int)
                        =~= seq![i as int] + occurrences_from(haystack@, needle, i + 1));
                    assert(occurrences_from(haystack@, needle, 0)
                        =~= indexes@.map_values(|x: usize| x as int) + occurrences_from(
                        haystack@,
                        needle,
                        i + 1,
                    ));
                }
                index = i + 1;
            },
            None => {
                proof {
                    assert(occurrences_from(haystack@, needle, 0)
                        =~= indexes@.map_values(|x: usize| x as int));
                }
                return indexes;
            },
        }
    }
}

} // verus!
