//! Finding and replacing postcodes in free text.
//!
//! The scan reads `[a-z]{1,2}\d[a-z\d]?\s*\d[a-z]{2}` without anchors, leftmost
//! first; after a match it resumes at the match end. The optional fourth
//! outward-code character is taken when the inward code can still follow it.
use vstd::prelude::*;
use crate::chars::{chars_of, string_from};
use vstd::string::StringExecFns;
use crate::shape::{
    incode_shape, is_incode, leading_spaces, outcode_span, outcode_span_of, space_len,
};

verus! {

// --- model ------------------------------------------------------------------

/// An inward code stands at `s[i..i + 3]`.
pub open spec fn incode_at(s: Seq<char>, i: int) -> bool {
    0 <= i && i + 3 <= s.len() && incode_shape(s.subrange(i, i + 3))
}

/// Where a match ends when the outward code ends at `j`: after any whitespace
/// an inward code must follow.
pub open spec fn incode_after(s: Seq<char>, j: int) -> Option<int> {
    let k = j + leading_spaces(s.skip(j));
    if incode_at(s, k) {
        Some(k + 3)
    } else {
        None
    }
}

/// The end of the match that starts at `start`, or `None`.
///
/// The longer outward code is tried first, then the shorter one.
pub open spec fn match_end_at(s: Seq<char>, start: int) -> Option<int> {
    match outcode_span_of(s.skip(start)) {
        Some((mn, mx)) => match incode_after(s, start + mx) {
            Some(e) => Some(e),
            None => incode_after(s, start + mn),
        },
        None => None,
    }
}

/// A match that starts at `start` ends after it, within `s`.
pub proof fn lemma_match_end_at(s: Seq<char>, start: int)
    requires
        0 <= start <= s.len(),
    ensures
        match_end_at(s, start) matches Some(e) ==> start + 3 <= e <= s.len(),
{
}

/// The matches found scanning `s` from `i`, as index ranges, leftmost first.
pub open spec fn matches_from(s: Seq<char>, i: int) -> Seq<(int, int)>
    decreases s.len() - i,
{
    if i < 0 || i >= s.len() {
        Seq::empty()
    } else {
        proof {
            lemma_match_end_at(s, i);
        }
        match match_end_at(s, i) {
            Some(e) => seq![(i, e)] + matches_from(s, e),
            None => matches_from(s, i + 1),
        }
    }
}

/// The matched text of every match in `s`, in document order.
pub open spec fn match_strings(s: Seq<char>) -> Seq<Seq<char>> {
    matches_from(s, 0).map_values(|r: (int, int)| s.subrange(r.0, r.1))
}

/// `s` from `last` on, with each range of `ranges` replaced by `rep`.
pub open spec fn replaced(s: Seq<char>, ranges: Seq<(int, int)>, last: int, rep: Seq<char>) -> Seq<
    char,
>
    decreases ranges.len(),
{
    if ranges.len() == 0 {
        s.subrange(last, s.len() as int)
    } else {
        s.subrange(last, ranges[0].0) + rep + replaced(s, ranges.drop_first(), ranges[0].1, rep)
    }
}

/// `s` with every match replaced by `rep`.
pub open spec fn replace_of(s: Seq<char>, rep: Seq<char>) -> Seq<char> {
    replaced(s, matches_from(s, 0), 0, rep)
}

/// One step of [`replaced`] from the `k`-th range on.
pub proof fn lemma_replaced_step(s: Seq<char>, r: Seq<(int, int)>, k: int, last: int, rep: Seq<char>)
    requires
        0 <= k < r.len(),
    ensures
        replaced(s, r.skip(k), last, rep) == s.subrange(last, r[k].0) + rep + replaced(
            s,
            r.skip(k + 1),
            r[k].1,
            rep,
        ),
{
    assert(r.skip(k).drop_first() =~= r.skip(k + 1));
    assert(r.skip(k)[0] == r[k]);
}

/// Widen index pairs.
pub open spec fn ranges_view(r: Seq<(usize, usize)>) -> Seq<(int, int)> {
    r.map_values(|p: (usize, usize)| (p.0 as int, p.1 as int))
}

/// The ranges found from `i` lie in order, apart, and within `s`.
pub proof fn lemma_matches_from_ordered(s: Seq<char>, i: int)
    requires
        0 <= i,
    ensures
        forall|k: int|
            0 <= k < matches_from(s, i).len() ==> i <= (#[trigger] matches_from(s, i)[k]).0
                && matches_from(s, i)[k].0 + 3 <= matches_from(s, i)[k].1 <= s.len(),
        forall|k: int|
            0 <= k < matches_from(s, i).len() - 1 ==> (#[trigger] matches_from(s, i)[k]).1
                <= matches_from(s, i)[k + 1].0,
    decreases s.len() - i,
{
    if i < s.len() {
        lemma_match_end_at(s, i);
        match match_end_at(s, i) {
            Some(e) => {
                lemma_matches_from_ordered(s, e);
                let m = matches_from(s, i);
                let t = matches_from(s, e);
                assert(m == seq![(i, e)] + t);
                assert forall|k: int| 0 <= k < m.len() implies i <= (#[trigger] m[k]).0 && m[k].0
                    + 3 <= m[k].1 <= s.len() by {
                    if k > 0 {
                        assert(m[k] == t[k - 1]);
                    }
                }
                assert forall|k: int| 0 <= k < m.len() - 1 implies (#[trigger] m[k]).1 <= m[k
                    + 1].0 by {
                    assert(m[k + 1] == t[k]);
                    if k > 0 {
                        assert(m[k] == t[k - 1]);
                    }
                }
            },
            None => {
                lemma_matches_from_ordered(s, i + 1);
                assert(matches_from(s, i) == matches_from(s, i + 1));
            },
        }
    }
}

// --- executable scan ---------------------------------------------------------

/// Where the match that starts at `start` ends, or `None`.
///
/// The optional fourth outward-code character is greedy: the longer outward
/// code is tried first and, if no inward code can follow, the shorter one.
fn corpus_match_end(v: &Vec<char>, start: usize) -> (r: Option<usize>)
    requires
        start <= v@.len(),
    ensures
        match r {
            Some(e) => match_end_at(v@, start as int) == Some(e as int),
            None => match_end_at(v@, start as int) is None,
        },
{
    let n = v.len();
    assert(v@.subrange(start as int, n as int) =~= v@.skip(start as int));
    let (min, max) = match outcode_span(v, start, n) {
        Some(span) => span,
        None => return None,
    };
    let mut i = start + max;
    i = i + space_len(v, i);
    if is_incode(v, i) {
        return Some(i + 3);
    }
    let mut i = start + min;
    i = i + space_len(v, i);
    if is_incode(v, i) {
        return Some(i + 3);
    }
    None
}

/// Every postcode in `v`, leftmost first, as index ranges.
///
/// After a match the scan resumes at the match end.
fn corpus_matches(v: &Vec<char>) -> (r: Vec<(usize, usize)>)
    ensures
        ranges_view(r@) == matches_from(v@, 0),
{
    let mut ranges: Vec<(usize, usize)> = Vec::new();
    let mut i: usize = 0;
    while i < v.len()
        invariant
            i <= v@.len(),
            ranges_view(ranges@) + matches_from(v@, i as int) == matches_from(v@, 0),
        decreases v@.len() - i,
    {
        proof {
            lemma_match_end_at(v@, i as int);
        }
        match corpus_match_end(v, i) {
            Some(end) => {
                proof {
                    assert(ranges_view(ranges@.push((i, end))) =~= ranges_view(ranges@).push(
                        (i as int, end as int),
                    ));
                    assert(ranges_view(ranges@).push((i as int, end as int)) + matches_from(
                        v@,
                        end as int,
                    ) =~= ranges_view(ranges@) + matches_from(v@, i as int));
                }
                ranges.push((i, end));
                i = end;
            },
            None => {
                i += 1;
            },
        }
    }
    proof {
        assert(ranges_view(ranges@) + matches_from(v@, i as int) =~= ranges_view(ranges@));
    }
    ranges
}

/// Find every postcode embedded in free text.
///
/// Returns the matches in document order with original casing and spacing. Bare
/// outward codes are not matched because they have no inward code. Returns an
/// empty vector when nothing matches.
pub fn match_corpus(corpus: &str) -> (r: Vec<String>)
    ensures
        r.deep_view() == match_strings(corpus@),
{
    let v = chars_of(corpus);
    let ranges = corpus_matches(&v);
    let ghost m = matches_from(v@, 0);
    proof {
        lemma_matches_from_ordered(v@, 0);
    }
    let mut out: Vec<String> = Vec::new();
    let mut k: usize = 0;
    while k < ranges.len()
        invariant
            k <= ranges@.len(),
            ranges_view(ranges@) == m,
            m == matches_from(v@, 0),
            v@ == corpus@,
            forall|j: int| 0 <= j < m.len() ==> 0 <= (#[trigger] m[j]).0 && m[j].0 + 3 <= m[j].1 <= v@.len(),
            out@.len() == k,
            forall|j: int| 0 <= j < k ==> (#[trigger] out@[j])@ == v@.subrange(m[j].0, m[j].1),
        decreases ranges@.len() - k,
    {
        let (s, e) = ranges[k];
        assert(m[k as int] == (s as int, e as int));
        let piece = string_from(&v, s, e);
        out.push(piece);
        k += 1;
    }
    assert(out.deep_view() =~= match_strings(corpus@));
    out
}

/// Outcome of [`replace`]: the postcodes found and the rewritten text.
#[derive(Debug, Clone, PartialEq, Eq)]
pub struct ReplaceResult {
    /// Postcodes found in the text, in document order, with original casing and spacing.
    pub matches: Vec<String>,
    /// The text with every postcode replaced.
    pub result: String,
}

/// Replace every postcode in `corpus` with `replace_with`.
///
/// Returns the matches and the rewritten text. The replacement is literal, so
/// `$` characters carry no special meaning. Use `""` to delete the postcodes.
pub fn replace(corpus: &str, replace_with: &str) -> (r: ReplaceResult)
    ensures
        r.matches.deep_view() == match_strings(corpus@),
        r.result@ == replace_of(corpus@, replace_with@),
{
    let v = chars_of(corpus);
    let ranges = corpus_matches(&v);
    let ghost m = matches_from(v@, 0);
    let ghost rep = replace_with@;
    proof {
        lemma_matches_from_ordered(v@, 0);
    }
    let mut matches: Vec<String> = Vec::new();
    let mut result = String::new();
    assert(m.skip(0) =~= m);
    let mut last: usize = 0;
    let mut k: usize = 0;
    while k < ranges.len()
        invariant
            k <= ranges@.len(),
            ranges_view(ranges@) == m,
            m == matches_from(v@, 0),
            v@ == corpus@,
            rep == replace_with@,
            forall|j: int| 0 <= j < m.len() ==> 0 <= (#[trigger] m[j]).0 && m[j].0 + 3 <= m[j].1 <= v@.len(),
            forall|j: int| 0 <= j < m.len() - 1 ==> (#[trigger] m[j]).1 <= m[j + 1].0,
            k < m.len() ==> last <= m[k as int].0,
            last <= v@.len(),
            k > 0 ==> last == m[k - 1].1,
            k == 0 ==> last == 0,
            matches@.len() == k,
            forall|j: int| 0 <= j < k ==> (#[trigger] matches@[j])@ == v@.subrange(m[j].0, m[j].1),
            result@ + replaced(v@, m.skip(k as int), last as int, rep) == replaced(v@, m, 0, rep),
        decreases ranges@.len() - k,
    {
        let (start, end) = ranges[k];
        assert(m[k as int] == (start as int, end as int));
        matches.push(string_from(&v, start, end));
        let gap = string_from(&v, last, start);
        let ghost before = result@;
        proof {
            lemma_replaced_step(v@, m, k as int, last as int, rep);
        }
        result.append(gap.as_str());
        result.append(replace_with);
        assert(result@ + replaced(v@, m.skip(k + 1), end as int, rep) =~= before + replaced(
            v@,
            m.skip(k as int),
            last as int,
            rep,
        ));
        last = end;
        k += 1;
    }
    let tail = string_from(&v, last, v.len());
    result.append(tail.as_str());
    proof {
        assert(m.skip(k as int) =~= Seq::<(int, int)>::empty());
        assert(matches.deep_view() =~= match_strings(corpus@));
    }
    ReplaceResult { matches, result }
}

} // verus!
