//! The postcode shape: its grammar as spec functions, and the executable checks
//! that decide it on a character vector.
//!
//! A postcode reads `[a-z]{1,2}\d[a-z\d]?\s*\d[a-z]{2}` against the whole input,
//! letters in either case. The inward code is always the last three characters;
//! the outward code is what stands before them once the whitespace between the
//! two is dropped.
use vstd::prelude::*;
use crate::chars::{
    is_digit, is_js_space, is_letter, is_letter_or_digit, lemma_upper_seq_add, string_from,
    to_ascii_upper, upper, upper_seq,
};

verus! {

// --- model ------------------------------------------------------------------

/// Number of whitespace characters at the start of `s`.
pub open spec fn leading_spaces(s: Seq<char>) -> nat
    decreases s.len(),
{
    if s.len() > 0 && is_js_space(s[0]) {
        1 + leading_spaces(s.drop_first())
    } else {
        0
    }
}

/// Number of whitespace characters at the end of `s`.
pub open spec fn trailing_spaces(s: Seq<char>) -> nat
    decreases s.len(),
{
    if s.len() > 0 && is_js_space(s.last()) {
        1 + trailing_spaces(s.drop_last())
    } else {
        0
    }
}

/// `s` without its leading whitespace.
pub open spec fn trim_start(s: Seq<char>) -> Seq<char> {
    s.skip(leading_spaces(s) as int)
}

/// `s` without its trailing whitespace.
pub open spec fn trim_end(s: Seq<char>) -> Seq<char> {
    s.take(s.len() - trailing_spaces(s))
}

/// `s` with every whitespace character removed.
pub open spec fn strip_spaces(s: Seq<char>) -> Seq<char>
    decreases s.len(),
{
    if s.len() == 0 {
        s
    } else if is_js_space(s.last()) {
        strip_spaces(s.drop_last())
    } else {
        strip_spaces(s.drop_last()).push(s.last())
    }
}

/// `s` with every whitespace character removed and ASCII letters uppercased.
pub open spec fn sanitized(s: Seq<char>) -> Seq<char> {
    upper_seq(strip_spaces(s))
}

/// `o` reads as an outward code whose area has `a` letters:
/// `a` letters, a digit, then at most one letter or digit.
pub open spec fn outcode_with_area(o: Seq<char>, a: int) -> bool {
    &&& a == 1 || a == 2
    &&& a + 1 <= o.len() <= a + 2
    &&& is_letter(o[0])
    &&& a == 2 ==> is_letter(o[1])
    &&& is_digit(o[a])
    &&& o.len() == a + 2 ==> is_letter_or_digit(o[a + 1])
}

/// `o` is exactly an outward code: `[a-z]{1,2}\d[a-z\d]?`.
pub open spec fn outcode_shape(o: Seq<char>) -> bool {
    outcode_with_area(o, 1) || outcode_with_area(o, 2)
}

/// `i` is exactly an inward code: `\d[a-z]{2}`.
pub open spec fn incode_shape(i: Seq<char>) -> bool {
    i.len() == 3 && is_digit(i[0]) && is_letter(i[1]) && is_letter(i[2])
}

/// The last three characters of `s`, where the inward code stands.
pub open spec fn raw_incode(s: Seq<char>) -> Seq<char> {
    s.skip(s.len() - 3)
}

/// What stands before the inward code, without the whitespace that separates them.
pub open spec fn raw_outcode(s: Seq<char>) -> Seq<char> {
    trim_end(s.take(s.len() - 3))
}

/// `s` is a postcode: an outward code, any whitespace, then an inward code,
/// and nothing else.
pub open spec fn postcode_shape(s: Seq<char>) -> bool {
    &&& s.len() >= 3
    &&& incode_shape(raw_incode(s))
    &&& outcode_shape(raw_outcode(s))
}

/// Length of the area at the start of `s` that an outward code reads greedily.
pub open spec fn area_len(s: Seq<char>) -> int {
    if s.len() > 1 && is_letter(s[1]) {
        2
    } else {
        1
    }
}

/// The span of an outward code at the start of `s`: its length without the
/// optional final character, and with it when that character is present.
pub open spec fn outcode_span_of(s: Seq<char>) -> Option<(int, int)> {
    let a = area_len(s);
    if s.len() > 0 && is_letter(s[0]) && a < s.len() && is_digit(s[a]) {
        let mn = a + 1;
        Some((mn, if mn < s.len() && is_letter_or_digit(s[mn]) { mn + 1 } else { mn }))
    } else {
        None
    }
}

/// The district part of an outward code that ends in a letter: the match of
/// `^([a-z]{1,2}\d)([a-z])$`, group one.
pub open spec fn district_split_of(o: Seq<char>) -> Option<Seq<char>> {
    let n = o.len();
    if (n == 3 || n == 4) && is_letter(o[n - 1]) && is_digit(o[n - 2]) && is_letter(o[0]) && (n
        == 4 ==> is_letter(o[1])) {
        Some(o.take(n - 1))
    } else {
        None
    }
}

/// Widen a pair of indices.
pub open spec fn span_view(r: Option<(usize, usize)>) -> Option<(int, int)> {
    match r {
        Some((a, b)) => Some((a as int, b as int)),
        None => None,
    }
}

// --- lemmas -------------------------------------------------------------------

/// The trailing whitespace count is what its name says.
pub proof fn lemma_trailing_spaces(s: Seq<char>)
    ensures
        trailing_spaces(s) <= s.len(),
        forall|k: int| s.len() - trailing_spaces(s) <= k < s.len() ==> is_js_space(#[trigger] s[k]),
        trailing_spaces(s) < s.len() ==> !is_js_space(s[s.len() - trailing_spaces(s) - 1]),
    decreases s.len(),
{
    if s.len() > 0 && is_js_space(s.last()) {
        lemma_trailing_spaces(s.drop_last());
        assert forall|k: int| s.len() - trailing_spaces(s) <= k < s.len() implies is_js_space(
            #[trigger] s[k],
        ) by {
            if k < s.len() - 1 {
                assert(s[k] == s.drop_last()[k]);
            }
        }
        if trailing_spaces(s) < s.len() {
            assert(s[s.len() - trailing_spaces(s) - 1] == s.drop_last()[s.drop_last().len()
                - trailing_spaces(s.drop_last()) - 1]);
        }
    }
}

/// The leading whitespace count is what its name says.
pub proof fn lemma_leading_spaces(s: Seq<char>)
    ensures
        leading_spaces(s) <= s.len(),
        forall|k: int| 0 <= k < leading_spaces(s) ==> is_js_space(#[trigger] s[k]),
        leading_spaces(s) < s.len() ==> !is_js_space(s[leading_spaces(s) as int]),
    decreases s.len(),
{
    if s.len() > 0 && is_js_space(s[0]) {
        lemma_leading_spaces(s.drop_first());
        assert forall|k: int| 0 <= k < leading_spaces(s) implies is_js_space(#[trigger] s[k]) by {
            if k > 0 {
                assert(s[k] == s.drop_first()[k - 1]);
            }
        }
        if leading_spaces(s) < s.len() {
            assert(s[leading_spaces(s) as int] == s.drop_first()[leading_spaces(s.drop_first()) as int]);
        }
    }
}

/// A count of trailing whitespace is fixed by where the last non-space stands.
pub proof fn lemma_trailing_spaces_unique(s: Seq<char>, t: int)
    requires
        0 <= t <= s.len(),
        forall|k: int| s.len() - t <= k < s.len() ==> is_js_space(#[trigger] s[k]),
        t < s.len() ==> !is_js_space(s[s.len() - t - 1]),
    ensures
        trailing_spaces(s) == t,
    decreases s.len(),
{
    if t > 0 {
        assert(is_js_space(s[s.len() - 1]));
        let d = s.drop_last();
        assert forall|k: int| d.len() - (t - 1) <= k < d.len() implies is_js_space(#[trigger] d[k]) by {
            assert(d[k] == s[k]);
        }
        if t - 1 < d.len() {
            assert(d[d.len() - (t - 1) - 1] == s[s.len() - t - 1]);
        }
        lemma_trailing_spaces_unique(d, t - 1);
    }
}

/// A count of leading whitespace is fixed by where the first non-space stands.
pub proof fn lemma_leading_spaces_unique(s: Seq<char>, t: int)
    requires
        0 <= t <= s.len(),
        forall|k: int| 0 <= k < t ==> is_js_space(#[trigger] s[k]),
        t < s.len() ==> !is_js_space(s[t]),
    ensures
        leading_spaces(s) == t,
    decreases s.len(),
{
    if t > 0 {
        assert(is_js_space(s[0]));
        let d = s.drop_first();
        assert forall|k: int| 0 <= k < t - 1 implies is_js_space(#[trigger] d[k]) by {
            assert(d[k] == s[k + 1]);
        }
        if t - 1 < d.len() {
            assert(d[t - 1] == s[t]);
        }
        lemma_leading_spaces_unique(d, t - 1);
    } else if s.len() > 0 {
        assert(!is_js_space(s[0]));
    }
}

/// Stripping whitespace distributes over concatenation.
pub proof fn lemma_strip_spaces_add(a: Seq<char>, b: Seq<char>)
    ensures
        strip_spaces(a + b) == strip_spaces(a) + strip_spaces(b),
    decreases b.len(),
{
    if b.len() == 0 {
        assert(a + b =~= a);
        assert(strip_spaces(a) + strip_spaces(b) =~= strip_spaces(a));
    } else {
        assert((a + b).drop_last() =~= a + b.drop_last());
        assert((a + b).last() == b.last());
        lemma_strip_spaces_add(a, b.drop_last());
        if !is_js_space(b.last()) {
            assert(strip_spaces(a) + strip_spaces(b.drop_last()).push(b.last()) =~= (strip_spaces(a)
                + strip_spaces(b.drop_last())).push(b.last()));
        }
    }
}

/// Stripping whitespace leaves none.
pub proof fn lemma_strip_spaces_no_space(s: Seq<char>)
    ensures
        forall|k: int|
            0 <= k < strip_spaces(s).len() ==> !is_js_space(#[trigger] strip_spaces(s)[k]),
    decreases s.len(),
{
    if s.len() > 0 {
        let d = s.drop_last();
        lemma_strip_spaces_no_space(d);
        if !is_js_space(s.last()) {
            let r = strip_spaces(d).push(s.last());
            assert forall|k: int| 0 <= k < r.len() implies !is_js_space(#[trigger] r[k]) by {
                if k < r.len() - 1 {
                    assert(r[k] == strip_spaces(d)[k]);
                }
            }
        }
    }
}

/// Stripping whitespace keeps a sequence that holds none.
pub proof fn lemma_strip_spaces_none(a: Seq<char>)
    requires
        forall|k: int| 0 <= k < a.len() ==> !is_js_space(#[trigger] a[k]),
    ensures
        strip_spaces(a) == a,
    decreases a.len(),
{
    if a.len() > 0 {
        assert(!is_js_space(a[a.len() - 1]));
        lemma_strip_spaces_none(a.drop_last());
        assert(a.drop_last().push(a.last()) =~= a);
    }
}

/// Stripping whitespace empties a sequence of whitespace.
pub proof fn lemma_strip_spaces_all(a: Seq<char>)
    requires
        forall|k: int| 0 <= k < a.len() ==> is_js_space(#[trigger] a[k]),
    ensures
        strip_spaces(a) == Seq::<char>::empty(),
    decreases a.len(),
{
    if a.len() > 0 {
        assert(is_js_space(a[a.len() - 1]));
        lemma_strip_spaces_all(a.drop_last());
    }
}

/// The outward code grammar is decided by its span.
pub proof fn lemma_outcode_span(o: Seq<char>)
    ensures
        outcode_shape(o) == match outcode_span_of(o) {
            Some((mn, mx)) => mn == o.len() || mx == o.len(),
            None => false,
        },
{
}

/// A piece of an outward or inward code holds no whitespace.
pub proof fn lemma_shapes_no_space(o: Seq<char>)
    requires
        outcode_shape(o) || incode_shape(o),
    ensures
        forall|k: int| 0 <= k < o.len() ==> !is_js_space(#[trigger] o[k]),
{
}

/// The head of a postcode splits into the outward code and whitespace.
pub proof fn lemma_head_split(s: Seq<char>)
    requires
        s.len() >= 3,
    ensures
        s.take(s.len() - 3) == raw_outcode(s) + s.take(s.len() - 3).skip(raw_outcode(s).len() as int),
        forall|k: int|
            0 <= k < s.take(s.len() - 3).skip(raw_outcode(s).len() as int).len() ==> is_js_space(
                #[trigger] s.take(s.len() - 3).skip(raw_outcode(s).len() as int)[k],
            ),
        raw_outcode(s).len() <= s.len() - 3,
{
    let h = s.take(s.len() - 3);
    lemma_trailing_spaces(h);
    let w = h.skip(raw_outcode(s).len() as int);
    assert(h =~= raw_outcode(s) + w);
    assert forall|k: int| 0 <= k < w.len() implies is_js_space(#[trigger] w[k]) by {
        assert(w[k] == h[raw_outcode(s).len() + k]);
    }
}

/// When neither the outward nor the inward part holds whitespace, `s`
/// sanitises to the two parts uppercased, one after the other.
pub proof fn lemma_sanitized_split(s: Seq<char>)
    requires
        s.len() >= 3,
        forall|k: int| 0 <= k < raw_outcode(s).len() ==> !is_js_space(#[trigger] raw_outcode(s)[k]),
        forall|k: int| 0 <= k < raw_incode(s).len() ==> !is_js_space(#[trigger] raw_incode(s)[k]),
    ensures
        sanitized(s) == upper_seq(raw_outcode(s)) + upper_seq(raw_incode(s)),
        upper_seq(raw_outcode(s)).len() == raw_outcode(s).len(),
        upper_seq(raw_incode(s)).len() == 3,
{
    let h = s.take(s.len() - 3);
    lemma_head_split(s);
    let w = h.skip(raw_outcode(s).len() as int);
    assert(s =~= raw_outcode(s) + w + raw_incode(s));
    lemma_strip_spaces_add(raw_outcode(s) + w, raw_incode(s));
    lemma_strip_spaces_add(raw_outcode(s), w);
    lemma_strip_spaces_none(raw_outcode(s));
    lemma_strip_spaces_none(raw_incode(s));
    lemma_strip_spaces_all(w);
    assert(strip_spaces(s) =~= raw_outcode(s) + raw_incode(s));
    lemma_upper_seq_add(raw_outcode(s), raw_incode(s));
}

/// A postcode sanitises to its uppercased outward code followed by its
/// uppercased inward code.
pub proof fn lemma_sanitized_postcode(s: Seq<char>)
    requires
        postcode_shape(s),
    ensures
        sanitized(s) == upper_seq(raw_outcode(s)) + upper_seq(raw_incode(s)),
        upper_seq(raw_outcode(s)).len() == raw_outcode(s).len(),
        upper_seq(raw_incode(s)).len() == 3,
{
    lemma_shapes_no_space(raw_outcode(s));
    lemma_shapes_no_space(raw_incode(s));
    lemma_sanitized_split(s);
}

/// Sanitising ignores whitespace around the text.
pub proof fn lemma_sanitized_trim(s: Seq<char>)
    ensures
        sanitized(s) == sanitized(trim_end(trim_start(s))),
{
    let ls = leading_spaces(s) as int;
    lemma_leading_spaces(s);
    let c0 = trim_start(s);
    lemma_trailing_spaces(c0);
    let c = trim_end(c0);
    let w1 = s.take(ls);
    let w3 = c0.skip(c.len() as int);
    assert(s =~= w1 + c + w3);
    assert forall|k: int| 0 <= k < w1.len() implies is_js_space(#[trigger] w1[k]) by {
        assert(w1[k] == s[k]);
    }
    assert forall|k: int| 0 <= k < w3.len() implies is_js_space(#[trigger] w3[k]) by {
        assert(w3[k] == c0[c.len() + k]);
    }
    lemma_strip_spaces_add(w1 + c, w3);
    lemma_strip_spaces_add(w1, c);
    lemma_strip_spaces_all(w1);
    lemma_strip_spaces_all(w3);
    assert(strip_spaces(s) =~= strip_spaces(c));
}

// --- executable checks -----------------------------------------------------------

/// Span of a leading outward code in `v[start..end]`, or `None`.
///
/// Matches `[a-z]{1,2}\d[a-z\d]?` at `start`. Returns the length without the
/// optional final character and the length with it.
pub(crate) fn outcode_span(v: &Vec<char>, start: usize, end: usize) -> (r: Option<(usize, usize)>)
    requires
        start <= end <= v@.len(),
    ensures
        span_view(r) == outcode_span_of(v@.subrange(start as int, end as int)),
        r matches Some((mn, mx)) ==> mn <= mx <= end - start,
{
    let ghost s = v@.subrange(start as int, end as int);
    let n = end - start;
    let mut i: usize = 0;
    if i < n && is_letter(v[start + i]) {
        i += 1;
    } else {
        return None;
    }
    if i < n && is_letter(v[start + i]) {
        i += 1;
    }
    assert(i == area_len(s));
    if i < n && is_digit(v[start + i]) {
        i += 1;
    } else {
        return None;
    }
    let min = i;
    if i < n && is_letter_or_digit(v[start + i]) {
        i += 1;
    }
    Some((min, i))
}

/// Count leading whitespace characters in `v[from..]`.
pub(crate) fn space_len(v: &Vec<char>, from: usize) -> (r: usize)
    requires
        from <= v@.len(),
    ensures
        r == leading_spaces(v@.skip(from as int)),
        from + r <= v@.len(),
{
    let mut i = from;
    proof {
        lemma_leading_spaces(v@.skip(from as int));
    }
    while i < v.len() && is_js_space(v[i])
        invariant
            from <= i <= v@.len(),
            leading_spaces(v@.skip(from as int)) == (i - from) + leading_spaces(v@.skip(i as int)),
        decreases v@.len() - i,
    {
        assert(v@.skip(i as int).drop_first() =~= v@.skip(i + 1));
        i += 1;
    }
    i - from
}

/// Whether an inward code `\d[a-z]{2}` stands at `v[at..at + 3]`.
pub(crate) fn is_incode(v: &Vec<char>, at: usize) -> (r: bool)
    requires
        at <= v@.len(),
    ensures
        r == (at + 3 <= v@.len() && incode_shape(v@.subrange(at as int, at + 3))),
{
    v.len() - at >= 3 && is_digit(v[at]) && is_letter(v[at + 1]) && is_letter(v[at + 2])
}

/// Count trailing whitespace in `v[..end]`: one when the character before
/// `end` is whitespace, else zero.
pub(crate) fn trailing_space_len(v: &Vec<char>, end: usize) -> (r: usize)
    requires
        end <= v@.len(),
    ensures
        r == (if end > 0 && is_js_space(v@[end - 1]) { 1usize } else { 0usize }),
{
    if end > 0 && is_js_space(v[end - 1]) {
        1
    } else {
        0
    }
}

/// Whether `v[..end]` is exactly an outward code.
pub(crate) fn matches_outcode(v: &Vec<char>, end: usize) -> (r: bool)
    requires
        end <= v@.len(),
    ensures
        r == outcode_shape(v@.take(end as int)),
{
    proof {
        lemma_outcode_span(v@.take(end as int));
        assert(v@.subrange(0, end as int) =~= v@.take(end as int));
    }
    match outcode_span(v, 0, end) {
        Some((min, max)) => min == end || max == end,
        None => false,
    }
}

/// Whether `v` is a postcode.
///
/// The inward code is always the last three characters; the whitespace before
/// it is dropped and what remains must be an outward code.
pub(crate) fn matches_postcode(v: &Vec<char>) -> (r: bool)
    ensures
        r == postcode_shape(v@),
{
    let n = v.len();
    if n < 3 {
        return false;
    }
    let split = n - 3;
    if !is_incode(v, split) {
        assert(raw_incode(v@) =~= v@.subrange(split as int, split + 3));
        return false;
    }
    assert(raw_incode(v@) =~= v@.subrange(split as int, split + 3));
    let ghost h = v@.take(split as int);
    let mut head_end = split;
    while head_end > 0
        invariant
            head_end <= split == n - 3,
            n == v@.len(),
            h == v@.take(split as int),
            forall|k: int| head_end <= k < split ==> is_js_space(#[trigger] v@[k]),
        ensures
            head_end <= split,
            forall|k: int| head_end <= k < split ==> is_js_space(#[trigger] v@[k]),
            head_end == 0 || !is_js_space(v@[head_end - 1]),
        decreases head_end,
    {
        let spaces = trailing_space_len(v, head_end);
        if spaces == 0 {
            break;
        }
        head_end -= spaces;
    }
    proof {
        assert forall|k: int| h.len() - (split - head_end) <= k < h.len() implies is_js_space(
            #[trigger] h[k],
        ) by {
            assert(h[k] == v@[k]);
        }
        if head_end > 0 {
            assert(h[h.len() - (split - head_end) - 1] == v@[head_end - 1]);
        }
        lemma_trailing_spaces_unique(h, split - head_end);
        assert(raw_outcode(v@) =~= v@.take(head_end as int));
    }
    matches_outcode(v, head_end)
}

/// Drop every whitespace character and uppercase the rest.
pub(crate) fn sanitize(v: &Vec<char>) -> (r: Vec<char>)
    ensures
        r@ == sanitized(v@),
{
    let mut out: Vec<char> = Vec::new();
    let mut i: usize = 0;
    while i < v.len()
        invariant
            i <= v@.len(),
            out@ == sanitized(v@.take(i as int)),
        decreases v@.len() - i,
    {
        let c = v[i];
        assert(v@.take(i + 1).drop_last() =~= v@.take(i as int));
        if !is_js_space(c) {
            out.push(to_ascii_upper(c));
            assert(upper_seq(strip_spaces(v@.take(i as int)).push(c)) =~= upper_seq(
                strip_spaces(v@.take(i as int)),
            ).push(upper(c)));
        }
        i += 1;
    }
    assert(v@.take(v@.len() as int) =~= v@);
    out
}

/// Split a sanitised postcode into outward and inward code.
///
/// The inward code is always the final three characters.
pub(crate) fn split_sanitized(sanitized: &Vec<char>) -> (r: (String, String))
    requires
        sanitized@.len() >= 3,
    ensures
        r.0@ == sanitized@.take(sanitized@.len() - 3),
        r.1@ == sanitized@.skip(sanitized@.len() - 3),
{
    let len = sanitized.len();
    let out = string_from(sanitized, 0, len - 3);
    let inc = string_from(sanitized, len - 3, len);
    assert(sanitized@.subrange(0, len - 3) =~= sanitized@.take(len - 3));
    assert(sanitized@.subrange(len - 3, len as int) =~= sanitized@.skip(len - 3));
    (out, inc)
}

/// Split an outward code into its district, when it ends in a letter.
///
/// Matches `^([a-z]{1,2}\d)([a-z])$` and returns the part before the trailing
/// letter, else `None`.
pub(crate) fn district_split(outcode: &Vec<char>) -> (r: Option<String>)
    ensures
        r.deep_view() == district_split_of(outcode@),
{
    let n = outcode.len();
    if n < 3 {
        return None;
    }
    if !is_letter(outcode[n - 1]) {
        return None;
    }
    if !is_digit(outcode[n - 2]) {
        return None;
    }
    // Everything before the digit must be one or two letters.
    let head = n - 2;
    if head > 2 {
        return None;
    }
    let mut k: usize = 0;
    while k < head
        invariant
            head == n - 2 <= 2,
            n == outcode@.len(),
            k <= head,
            forall|j: int| 0 <= j < k ==> is_letter(#[trigger] outcode@[j]),
        decreases head - k,
    {
        if !is_letter(outcode[k]) {
            return None;
        }
        k += 1;
    }
    let d = string_from(outcode, 0, n - 1);
    assert(outcode@.subrange(0, n - 1) =~= outcode@.take(n - 1));
    Some(d)
}

} // verus!
