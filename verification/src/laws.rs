//! What holds of the library as a whole, stated over the spec functions that
//! the public functions' contracts use, and proved.
use vstd::prelude::*;
use crate::chars::{
    is_digit, is_js_space, is_letter, is_letter_or_digit, lemma_upper_char, lemma_upper_seq_idem,
    upper_seq,
};
use crate::fix::{
    coerce_of, coerced_outcode, core_of, fix_of, fixable_incode, fixable_outcode, fixable_shape,
    fixed_of, lemma_coerce_of_index, lemma_coerced_incode_shape, lemma_coerced_outcode_shape,
    lemma_core_bounds, lemma_no_lowercase_upper, lemma_upper_fix_classes, no_lowercase, pattern3_of,
    to_letter, to_number,
};
use crate::postcode::{
    area_of, district_of, incode_of, lemma_components, lemma_shapes_upper, normalised_of,
    outcode_of, parse_of, sector_of, sub_district_of, unit_of, when_valid,
};
use crate::corpus::{
    incode_after, lemma_match_end_at, lemma_matches_from_ordered, match_end_at, match_strings,
    matches_from, replace_of, replaced,
};
use crate::shape::{
    area_len, incode_shape, leading_spaces, lemma_head_split, lemma_leading_spaces,
    lemma_leading_spaces_unique, lemma_sanitized_split, lemma_sanitized_trim,
    lemma_strip_spaces_no_space, lemma_trailing_spaces, lemma_trailing_spaces_unique, outcode_shape,
    outcode_span_of, outcode_with_area, postcode_shape, raw_incode, raw_outcode, sanitized,
    strip_spaces, trailing_spaces, trim_end, trim_start,
};

verus! {

// --- helpers ------------------------------------------------------------------

/// `parse_of` looks at `s` only through its outward and inward parts.
proof fn lemma_parse_by_parts(s: Seq<char>, t: Seq<char>)
    requires
        s.len() >= 3,
        t.len() >= 3,
        raw_outcode(s) == raw_outcode(t),
        raw_incode(s) == raw_incode(t),
    ensures
        parse_of(s) == parse_of(t),
{
}

/// Dropping whitespace after a piece that does not end in whitespace leaves the piece.
proof fn lemma_trim_end_after(o: Seq<char>, w: Seq<char>)
    requires
        o.len() == 0 || !is_js_space(o.last()),
        forall|k: int| 0 <= k < w.len() ==> is_js_space(#[trigger] w[k]),
    ensures
        trailing_spaces(o + w) == w.len(),
        (o + w).take((o + w).len() - trailing_spaces(o + w)) == o,
{
    let x = o + w;
    assert forall|k: int| x.len() - w.len() <= k < x.len() implies is_js_space(#[trigger] x[k]) by {
        assert(x[k] == w[k - o.len()]);
    }
    if w.len() < x.len() {
        assert(x[x.len() - w.len() - 1] == o.last());
    }
    lemma_trailing_spaces_unique(x, w.len() as int);
    assert(x.take(x.len() - w.len()) =~= o);
}

/// An uppercase outward code, a space and an uppercase inward code make a
/// postcode whose parts are those two.
proof fn lemma_assemble(o: Seq<char>, i: Seq<char>)
    requires
        outcode_shape(o),
        incode_shape(i),
        upper_seq(o) == o,
        upper_seq(i) == i,
    ensures
        postcode_shape(o + seq![' '] + i),
        outcode_of(o + seq![' '] + i) == o,
        incode_of(o + seq![' '] + i) == i,
        normalised_of(o + seq![' '] + i) == o + seq![' '] + i,
{
    let n = o + seq![' '] + i;
    assert(raw_incode(n) =~= i);
    assert(n.take(n.len() - 3) =~= o + seq![' ']);
    lemma_trim_end_after(o, seq![' ']);
}

/// Uppercasing commutes with taking the parts of `s`, and keeps the shape.
proof fn lemma_parts_upper(s: Seq<char>)
    requires
        s.len() >= 3,
    ensures
        raw_outcode(upper_seq(s)) == upper_seq(raw_outcode(s)),
        raw_incode(upper_seq(s)) == upper_seq(raw_incode(s)),
        postcode_shape(upper_seq(s)) == postcode_shape(s),
        parse_of(upper_seq(s)) == parse_of(s),
{
    let u = upper_seq(s);
    let h = s.take(s.len() - 3);
    let uh = u.take(u.len() - 3);
    assert(uh =~= upper_seq(h));
    lemma_trailing_spaces(h);
    let t = trailing_spaces(h) as int;
    assert forall|k: int| uh.len() - t <= k < uh.len() implies is_js_space(#[trigger] uh[k]) by {
        lemma_upper_char(h[k]);
    }
    if t < uh.len() {
        lemma_upper_char(h[h.len() - t - 1]);
    }
    lemma_trailing_spaces_unique(uh, t);
    assert(raw_outcode(u) =~= upper_seq(raw_outcode(s)));
    assert(raw_incode(u) =~= upper_seq(raw_incode(s)));
    lemma_shapes_upper(raw_outcode(s));
    lemma_shapes_upper(raw_incode(s));
    lemma_upper_seq_idem(raw_outcode(s));
    lemma_upper_seq_idem(raw_incode(s));
}

// --- laws of the parsers ----------------------------------------------------------

/// A valid postcode round-trips through its normalised form: parsing the
/// normalised postcode gives every component of the input, and normalising
/// is idempotent.
pub proof fn law_normalised_round_trip(s: Seq<char>)
    requires
        postcode_shape(s),
    ensures
        postcode_shape(normalised_of(s)),
        parse_of(normalised_of(s)) == parse_of(s),
        normalised_of(normalised_of(s)) == normalised_of(s),
{
    lemma_components(s);
    lemma_upper_seq_idem(raw_outcode(s));
    lemma_upper_seq_idem(raw_incode(s));
    lemma_assemble(outcode_of(s), incode_of(s));
}

/// Parsing ignores letter case: two inputs that agree once uppercased parse
/// alike.
pub proof fn law_case_insensitive(s: Seq<char>, t: Seq<char>)
    requires
        upper_seq(s) == upper_seq(t),
    ensures
        parse_of(s) == parse_of(t),
{
    assert(s.len() == upper_seq(s).len());
    assert(t.len() == upper_seq(t).len());
    if s.len() >= 3 {
        lemma_parts_upper(s);
        lemma_parts_upper(t);
    }
}

/// Parsing ignores the whitespace between the outward and inward codes: any
/// run of whitespace there, including none, gives the same components.
pub proof fn law_separator_insensitive(o: Seq<char>, w1: Seq<char>, w2: Seq<char>, i: Seq<char>)
    requires
        o.len() == 0 || !is_js_space(o.last()),
        i.len() == 3,
        forall|k: int| 0 <= k < w1.len() ==> is_js_space(#[trigger] w1[k]),
        forall|k: int| 0 <= k < w2.len() ==> is_js_space(#[trigger] w2[k]),
    ensures
        parse_of(o + w1 + i) == parse_of(o + w2 + i),
{
    let s1 = o + w1 + i;
    let s2 = o + w2 + i;
    assert(raw_incode(s1) =~= i);
    assert(raw_incode(s2) =~= i);
    assert(s1.take(s1.len() - 3) =~= o + w1);
    assert(s2.take(s2.len() - 3) =~= o + w2);
    lemma_trim_end_after(o, w1);
    lemma_trim_end_after(o, w2);
    lemma_parse_by_parts(s1, s2);
}

/// The outward and inward codes taken from a valid postcode are themselves an
/// outward code and an inward code.
pub proof fn law_components_are_codes(s: Seq<char>)
    requires
        postcode_shape(s),
    ensures
        outcode_shape(outcode_of(s)),
        incode_shape(incode_of(s)),
{
    lemma_components(s);
}

/// A valid postcode neither starts nor ends with whitespace.
pub proof fn law_no_surrounding_space(s: Seq<char>)
    requires
        postcode_shape(s),
    ensures
        !is_js_space(s[0]),
        !is_js_space(s.last()),
{
    let h = s.take(s.len() - 3);
    lemma_trailing_spaces(h);
    assert(raw_outcode(s)[0] == s[0]);
    assert(raw_incode(s)[2] == s.last());
}


// --- laws of the corpus scan --------------------------------------------------

/// Every range in `matches_from(s, i)` is where a match starts and ends.
proof fn lemma_matches_from_elements(s: Seq<char>, i: int)
    requires
        0 <= i,
    ensures
        forall|k: int|
            0 <= k < matches_from(s, i).len() ==> match_end_at(s, (#[trigger] matches_from(s, i)[k]).0)
                == Some(matches_from(s, i)[k].1) && 0 <= matches_from(s, i)[k].0 <= s.len(),
    decreases s.len() - i,
{
    if i < s.len() {
        lemma_match_end_at(s, i);
        match match_end_at(s, i) {
            Some(e) => {
                lemma_matches_from_elements(s, e);
                let m = matches_from(s, i);
                let t = matches_from(s, e);
                assert(m == seq![(i, e)] + t);
                assert forall|k: int| 0 <= k < m.len() implies match_end_at(s, (#[trigger] m[k]).0)
                    == Some(m[k].1) && 0 <= m[k].0 <= s.len() by {
                    if k > 0 {
                        assert(m[k] == t[k - 1]);
                    }
                }
            },
            None => {
                lemma_matches_from_elements(s, i + 1);
                assert(matches_from(s, i) == matches_from(s, i + 1));
            },
        }
    }
}

/// The text of a match is a postcode.
proof fn lemma_match_is_postcode(s: Seq<char>, start: int)
    requires
        0 <= start <= s.len(),
        match_end_at(s, start) is Some,
    ensures
        postcode_shape(s.subrange(start, match_end_at(s, start).unwrap())),
{
    let x = s.skip(start);
    let (mn, mx) = outcode_span_of(x).unwrap();
    let a = area_len(x);
    let out = if incode_after(s, start + mx) is Some {
        mx
    } else {
        mn
    };
    let j = start + out;
    lemma_leading_spaces(s.skip(j));
    let k = j + leading_spaces(s.skip(j));
    let e = k + 3;
    assert(match_end_at(s, start) == Some(e));
    let m = s.subrange(start, e);
    let o = s.subrange(start, j);
    let w = s.subrange(j, k);
    assert(raw_incode(m) =~= s.subrange(k, k + 3));
    assert(m.take(m.len() - 3) =~= o + w);
    assert forall|q: int| 0 <= q < w.len() implies is_js_space(#[trigger] w[q]) by {
        assert(w[q] == s.skip(j)[q]);
    }
    assert(o =~= x.take(out));
    assert(outcode_with_area(o, a));
    lemma_trim_end_after(o, w);
}

/// Every postcode that `match_corpus` finds is a valid postcode.
pub proof fn law_matches_are_postcodes(s: Seq<char>)
    ensures
        forall|k: int|
            0 <= k < match_strings(s).len() ==> postcode_shape(#[trigger] match_strings(s)[k]),
{
    lemma_matches_from_elements(s, 0);
    assert forall|k: int| 0 <= k < match_strings(s).len() implies postcode_shape(
        #[trigger] match_strings(s)[k],
    ) by {
        let r = matches_from(s, 0)[k];
        lemma_match_is_postcode(s, r.0);
    }
}

/// Wherever a postcode `s[p..q]` starts, the scan step at `p` finds a match,
/// and that match reaches at least to `q`.
proof fn lemma_postcode_at(s: Seq<char>, p: int, q: int)
    requires
        0 <= p <= q <= s.len(),
        postcode_shape(s.subrange(p, q)),
    ensures
        match_end_at(s, p) matches Some(e) && q <= e,
{
    let m = s.subrange(p, q);
    let o = raw_outcode(m);
    let h = m.take(m.len() - 3);
    lemma_head_split(m);
    let w = h.skip(o.len() as int);
    let i = raw_incode(m);
    let l = o.len() as int;
    let a = if outcode_with_area(o, 1) { 1int } else { 2int };
    assert(outcode_with_area(o, a));
    assert(m =~= o + w + i);
    let x = s.skip(p);
    assert forall|k: int| 0 <= k < l implies x[k] == #[trigger] o[k] by {
        assert(x[k] == m[k]);
    }
    assert(area_len(x) == a);
    let (mn, mx) = outcode_span_of(x).unwrap();
    assert(mn == a + 1);
    assert(l == mn || l == mx);
    // From the end of the outward code: whitespace, then the inward code.
    let sk = s.skip(p + l);
    assert forall|k: int| 0 <= k < w.len() implies is_js_space(#[trigger] sk[k]) by {
        assert(sk[k] == m[l + k]);
    }
    assert(sk[w.len() as int] == i[0]) by {
        assert(sk[w.len() as int] == m[l + w.len()]);
    }
    lemma_leading_spaces_unique(sk, w.len() as int);
    assert(s.subrange(q - 3, q) =~= i);
    assert(incode_after(s, p + l) == Some(q));
    if l != mx {
        // The longer outward code was tried first; its match ends after `q`.
        assert(mx == mn + 1);
        assert(is_letter_or_digit(x[mn]));
        assert(w.len() == 0) by {
            if w.len() > 0 {
                assert(sk[0] == x[mn]);
            }
        }
        let sk2 = s.skip(p + mx);
        lemma_leading_spaces(sk2);
    }
}

/// Every position the scan from `i` does not cover by a match is one where no
/// match starts.
proof fn lemma_scan_covers(s: Seq<char>, i: int, p: int)
    requires
        0 <= i <= p < s.len(),
        match_end_at(s, p) is Some,
    ensures
        exists|k: int|
            0 <= k < matches_from(s, i).len() && (#[trigger] matches_from(s, i)[k]).0 <= p
                < matches_from(s, i)[k].1,
    decreases s.len() - i,
{
    lemma_match_end_at(s, i);
    let r = matches_from(s, i);
    match match_end_at(s, i) {
        Some(e) => {
            let t = matches_from(s, e);
            assert(r == seq![(i, e)] + t);
            if p < e {
                assert(r[0] == (i, e));
            } else {
                lemma_scan_covers(s, e, p);
                let k = choose|k: int| 0 <= k < t.len() && (#[trigger] t[k]).0 <= p < t[k].1;
                assert(r[k + 1] == t[k]);
            }
        },
        None => {
            assert(p != i);
            lemma_scan_covers(s, i + 1, p);
            assert(r == matches_from(s, i + 1));
        },
    }
}

/// `match_corpus` misses no postcode: every postcode `s[p..q]` in the text
/// starts inside one of the matches, so no postcode starts outside every
/// match.
pub proof fn law_match_corpus_complete(s: Seq<char>, p: int, q: int)
    requires
        0 <= p <= q <= s.len(),
        postcode_shape(s.subrange(p, q)),
    ensures
        exists|k: int|
            0 <= k < matches_from(s, 0).len() && (#[trigger] matches_from(s, 0)[k]).0 <= p
                < matches_from(s, 0)[k].1,
{
    lemma_postcode_at(s, p, q);
    assert(p < s.len());
    lemma_scan_covers(s, 0, p);
}

/// Each match of `match_corpus` is the longest postcode that starts where it
/// does: the matched text is a postcode, and no postcode starting at the same
/// place ends later.
pub proof fn law_match_corpus_longest(s: Seq<char>, k: int, q: int)
    requires
        0 <= k < matches_from(s, 0).len(),
        matches_from(s, 0)[k].0 <= q <= s.len(),
    ensures
        match_strings(s)[k] == s.subrange(matches_from(s, 0)[k].0, matches_from(s, 0)[k].1),
        postcode_shape(match_strings(s)[k]),
        postcode_shape(s.subrange(matches_from(s, 0)[k].0, q)) ==> q <= matches_from(s, 0)[k].1,
{
    lemma_matches_from_elements(s, 0);
    law_matches_are_postcodes(s);
    let r = matches_from(s, 0)[k];
    assert(match_strings(s)[k] == s.subrange(r.0, r.1));
    if postcode_shape(s.subrange(r.0, q)) {
        lemma_postcode_at(s, r.0, q);
    }
}

/// A valid postcode on its own is found whole, once; replacing in it gives
/// just the replacement.
pub proof fn law_postcode_matches_itself(s: Seq<char>, rep: Seq<char>)
    requires
        postcode_shape(s),
    ensures
        matches_from(s, 0) == seq![(0int, s.len() as int)],
        match_strings(s) == seq![s],
        replace_of(s, rep) == rep,
{
    let o = raw_outcode(s);
    let h = s.take(s.len() - 3);
    lemma_head_split(s);
    let w = h.skip(o.len() as int);
    let i = raw_incode(s);
    assert(s =~= o + w + i);
    let l = o.len() as int;
    let a = if outcode_with_area(o, 1) { 1int } else { 2int };
    assert(outcode_with_area(o, a));
    assert forall|q: int| 0 <= q < l implies s[q] == #[trigger] o[q] by {}
    assert forall|q: int| 0 <= q < 3 implies s[l + w.len() + q] == #[trigger] i[q] by {}
    assert(area_len(s.skip(0)) == a) by {
        assert(s.skip(0) =~= s);
    }
    // Whitespace run after the outward code.
    let sk = s.skip(l);
    assert forall|q: int| 0 <= q < w.len() implies is_js_space(#[trigger] sk[q]) by {
        assert(sk[q] == w[q]);
    }
    assert(sk[w.len() as int] == i[0]);
    lemma_leading_spaces_unique(sk, w.len() as int);
    assert(s.subrange(s.len() - 3, s.len() as int) =~= i);
    if l == a + 1 && w.len() == 0 {
        let sk1 = s.skip(l + 1);
        assert(sk1[0] == i[1]);
        lemma_leading_spaces_unique(sk1, 0);
    }
    assert(s.skip(0) =~= s);
    assert(match_end_at(s, 0) == Some(s.len() as int));
    assert(matches_from(s, s.len() as int) =~= Seq::<(int, int)>::empty());
    assert(matches_from(s, 0) =~= seq![(0int, s.len() as int)]);
    assert(s.subrange(0, s.len() as int) =~= s);
    assert(match_strings(s) =~= seq![s]);
    let r = seq![(0int, s.len() as int)];
    assert(r.drop_first() =~= Seq::<(int, int)>::empty());
    assert(s.subrange(0, 0) =~= Seq::<char>::empty());
    assert(s.subrange(s.len() as int, s.len() as int) =~= Seq::<char>::empty());
    assert(replaced(s, r.drop_first(), s.len() as int, rep) =~= Seq::<char>::empty());
    assert(replace_of(s, rep) =~= rep);
}

/// Text with no postcode in it comes back from `replace` unchanged.
pub proof fn law_replace_without_matches(s: Seq<char>, rep: Seq<char>)
    requires
        matches_from(s, 0).len() == 0,
    ensures
        replace_of(s, rep) == s,
{
    assert(s.subrange(0, s.len() as int) =~= s);
}


// --- laws of fix ------------------------------------------------------------------

/// The uppercase of a text holds no lowercase letter.
proof fn lemma_upper_no_lowercase(x: Seq<char>)
    ensures
        no_lowercase(upper_seq(x)),
{
    assert forall|k: int| 0 <= k < upper_seq(x).len() implies !('a' <= #[trigger] upper_seq(x)[k]
        && upper_seq(x)[k] <= 'z') by {
        lemma_upper_fix_classes(x[k]);
    }
}

/// An outward code followed directly by an inward code is a postcode whose
/// parts are those two.
proof fn lemma_joined(o: Seq<char>, i: Seq<char>)
    requires
        outcode_shape(o),
        incode_shape(i),
    ensures
        postcode_shape(o + i),
        raw_outcode(o + i) == o,
        raw_incode(o + i) == i,
{
    let n = o + i;
    assert(raw_incode(n) =~= i);
    assert(n.take(n.len() - 3) =~= o + Seq::<char>::empty());
    lemma_trim_end_after(o, Seq::<char>::empty());
}

/// In a postcode without whitespace the outward code is everything before the
/// last three characters.
proof fn lemma_split_no_space(t: Seq<char>)
    requires
        postcode_shape(t),
        forall|k: int| 0 <= k < t.len() ==> !is_js_space(#[trigger] t[k]),
    ensures
        raw_outcode(t) == t.take(t.len() - 3),
{
    let h = t.take(t.len() - 3);
    lemma_trailing_spaces(h);
    assert(h.len() > 0);
    assert(!is_js_space(h[h.len() - 1]));
    lemma_trailing_spaces_unique(h, 0);
    assert(h.take(h.len() as int) =~= h);
}

/// Every input that `fix` can coerce comes out as a normalised valid postcode.
pub proof fn law_fix_gives_normalised_postcode(s: Seq<char>)
    requires
        fixable_shape(s),
    ensures
        postcode_shape(fixed_of(s)),
        normalised_of(fixed_of(s)) == fixed_of(s),
{
    let t = sanitized(s);
    if postcode_shape(t) {
        let o = t.take(t.len() - 3);
        let i = t.skip(t.len() - 3);
        lemma_strip_spaces_no_space(s);
        assert forall|k: int| 0 <= k < t.len() implies !is_js_space(#[trigger] t[k]) by {
            lemma_upper_char(strip_spaces(s)[k]);
        }
        lemma_split_no_space(t);
        lemma_upper_no_lowercase(strip_spaces(s));
        assert(no_lowercase(o));
        assert(no_lowercase(i));
        lemma_no_lowercase_upper(o);
        lemma_no_lowercase_upper(i);
        lemma_assemble(o, i);
        return;
    }
    let c = core_of(s);
    let p = raw_outcode(c);
    let q = raw_incode(c);
    assert forall|k: int| 0 <= k < p.len() implies !is_js_space(#[trigger] p[k]) by {}
    assert forall|k: int| 0 <= k < q.len() implies !is_js_space(#[trigger] q[k]) by {}
    lemma_sanitized_trim(s);
    lemma_sanitized_split(c);
    let up = upper_seq(p);
    let uq = upper_seq(q);
    assert(t.take(t.len() - 3) =~= up);
    assert(t.skip(t.len() - 3) =~= uq);
    if p.len() > 0 {
        lemma_upper_fix_classes(p[0]);
    }
    if p.len() > 1 {
        lemma_upper_fix_classes(p[1]);
    }
    if p.len() > 2 {
        lemma_upper_fix_classes(p[2]);
    }
    if p.len() > 3 {
        lemma_upper_fix_classes(p[3]);
    }
    lemma_upper_fix_classes(q[0]);
    lemma_upper_fix_classes(q[1]);
    lemma_upper_fix_classes(q[2]);
    assert(fixable_outcode(up));
    assert(fixable_incode(uq));
    lemma_upper_no_lowercase(p);
    lemma_upper_no_lowercase(q);
    lemma_coerced_outcode_shape(up);
    lemma_coerced_incode_shape(uq);
    let co = coerced_outcode(up);
    let ci = coerce_of(seq!['N', 'L', 'L'], uq);
    lemma_no_lowercase_upper(co);
    lemma_no_lowercase_upper(ci);
    lemma_assemble(co, ci);
}

/// `fix` leaves a normalised valid postcode unchanged.
pub proof fn law_fix_keeps_normalised_postcode(s: Seq<char>)
    requires
        postcode_shape(s),
        normalised_of(s) == s,
    ensures
        fixable_shape(s),
        fix_of(s) == s,
{
    lemma_components(s);
    let o = outcode_of(s);
    let i = incode_of(s);
    lemma_upper_no_lowercase(raw_outcode(s));
    lemma_upper_no_lowercase(raw_incode(s));
    lemma_no_lowercase_upper(o);
    lemma_no_lowercase_upper(i);
    lemma_assemble(o, i);
    assert(s == o + seq![' '] + i);
    // No whitespace around `s`.
    assert(s[0] == o[0]);
    lemma_leading_spaces_unique(s, 0);
    assert(s[s.len() - 1] == i[2]);
    lemma_trailing_spaces_unique(s, 0);
    assert(trim_start(s) =~= s);
    assert(trim_end(s) =~= s);
    assert(core_of(s) == s);
    assert(raw_incode(s) =~= i);
    assert(s.take(s.len() - 3) =~= o + seq![' ']);
    lemma_trim_end_after(o, seq![' ']);
    assert(raw_outcode(s) == o);
    assert(fixable_outcode(o));
    assert(fixable_incode(i));
    lemma_sanitized_split(s);
    let t = sanitized(s);
    assert(t.take(t.len() - 3) =~= o);
    assert(t.skip(t.len() - 3) =~= i);
    assert(t =~= o + i);
    lemma_joined(o, i);
}

/// `fix` is idempotent: fixing its own output changes nothing.
pub proof fn law_fix_idempotent(s: Seq<char>)
    ensures
        fix_of(fix_of(s)) == fix_of(s),
{
    if fixable_shape(s) {
        law_fix_gives_normalised_postcode(s);
        law_fix_keeps_normalised_postcode(fixed_of(s));
    }
}


/// How the components of a valid postcode fit together: the area is the
/// leading one or two letters of the district, the district is the outward
/// code or the outward code without its final letter, a sub-district exists
/// exactly when the outward code ends in a letter and is then the whole
/// outward code, the sector is the outward code, a space and the inward digit,
/// and the unit is the final two letters.
pub proof fn law_component_relations(s: Seq<char>)
    requires
        postcode_shape(s),
    ensures
        1 <= area_of(s).len() <= 2,
        forall|k: int| 0 <= k < area_of(s).len() ==> is_letter(#[trigger] area_of(s)[k]),
        district_of(s).take(area_of(s).len() as int) == area_of(s),
        outcode_of(s).take(district_of(s).len() as int) == district_of(s),
        sub_district_of(s) is Some <==> is_letter(outcode_of(s).last()),
        sub_district_of(s) matches Some(sub) ==> sub == outcode_of(s) && sub == district_of(
            s,
        ).push(sub.last()),
        sub_district_of(s) is None ==> district_of(s) == outcode_of(s),
        sector_of(s) == outcode_of(s) + seq![' '] + incode_of(s).take(1),
        is_digit(incode_of(s)[0]),
        unit_of(s).len() == 2 && is_letter(unit_of(s)[0]) && is_letter(unit_of(s)[1]),
        normalised_of(s) == outcode_of(s) + seq![' '] + incode_of(s),
{
    lemma_components(s);
    let o = outcode_of(s);
    assert(district_of(s).take(area_of(s).len() as int) =~= area_of(s));
    assert(o.take(district_of(s).len() as int) =~= district_of(s));
    if is_letter(o.last()) {
        assert(o.drop_last().push(o.last()) =~= o);
    }
    assert(sector_of(s) =~= o + seq![' '] + incode_of(s).take(1));
}


/// The postcode shape is the grammar `[a-z]{1,2}\d[a-z\d]?\s*\d[a-z]{2}` read
/// against the whole input: an outward code, a run of whitespace (possibly
/// empty), then an inward code.
pub proof fn law_postcode_shape_is_grammar(s: Seq<char>)
    ensures
        postcode_shape(s) <==> (s.len() >= 3 && incode_shape(s.skip(s.len() - 3)) && exists|k: int|
            0 <= k <= s.len() - 3 && outcode_shape(#[trigger] s.take(k)) && forall|j: int|
                k <= j < s.len() - 3 ==> is_js_space(#[trigger] s[j])),
{
    if postcode_shape(s) {
        let h = s.take(s.len() - 3);
        lemma_trailing_spaces(h);
        let k = raw_outcode(s).len() as int;
        assert(s.take(k) =~= raw_outcode(s));
        assert forall|j: int| k <= j < s.len() - 3 implies is_js_space(#[trigger] s[j]) by {
            assert(s[j] == h[j]);
        }
    }
    if s.len() >= 3 && incode_shape(s.skip(s.len() - 3)) && exists|k: int|
        0 <= k <= s.len() - 3 && outcode_shape(#[trigger] s.take(k)) && forall|j: int|
            k <= j < s.len() - 3 ==> is_js_space(#[trigger] s[j]) {
        let k = choose|k: int|
            0 <= k <= s.len() - 3 && outcode_shape(#[trigger] s.take(k)) && forall|j: int|
                k <= j < s.len() - 3 ==> is_js_space(#[trigger] s[j]);
        let h = s.take(s.len() - 3);
        assert forall|j: int| h.len() - (h.len() - k) <= j < h.len() implies is_js_space(
            #[trigger] h[j],
        ) by {
            assert(h[j] == s[j]);
        }
        assert(h[k - 1] == s.take(k)[k - 1]);
        lemma_trailing_spaces_unique(h, h.len() - k);
        assert(raw_outcode(s) =~= s.take(k));
    }
}


/// The shape `fix` accepts is the grammar
/// `\s*[a-z01]{1,2}[0-9oi][a-z\d]?\s*[0-9oi][a-z01]{2}\s*` read against the
/// whole input: whitespace, a fixable outward code, whitespace, a fixable
/// inward code, whitespace.
#[verifier::rlimit(40)]
pub proof fn law_fixable_shape_is_grammar(s: Seq<char>)
    ensures
        fixable_shape(s) <==> exists|b: int, k: int, e: int|
            #![trigger s.subrange(b, k), s.subrange(e - 3, e)]
            0 <= b <= k <= e - 3 && e <= s.len() && (forall|j: int|
                0 <= j < b ==> is_js_space(#[trigger] s[j])) && fixable_outcode(s.subrange(b, k))
                && (forall|j: int| k <= j < e - 3 ==> is_js_space(#[trigger] s[j]))
                && fixable_incode(s.subrange(e - 3, e)) && (forall|j: int|
                e <= j < s.len() ==> is_js_space(#[trigger] s[j])),
{
    lemma_core_bounds(s);
    lemma_leading_spaces(s);
    let st = leading_spaces(s) as int;
    let c = core_of(s);
    let en = st + c.len();
    if fixable_shape(s) {
        let p = raw_outcode(c);
        let h = c.take(c.len() - 3);
        lemma_trailing_spaces(h);
        let k = st + p.len();
        assert(s.subrange(st, k) =~= p);
        assert(s.subrange(en - 3, en) =~= raw_incode(c));
        assert forall|j: int| k <= j < en - 3 implies is_js_space(#[trigger] s[j]) by {
            assert(s[j] == h[j - st]);
        }
    }
    if exists|b: int, k: int, e: int|
        #![trigger s.subrange(b, k), s.subrange(e - 3, e)]
        0 <= b <= k <= e - 3 && e <= s.len() && (forall|j: int|
            0 <= j < b ==> is_js_space(#[trigger] s[j])) && fixable_outcode(s.subrange(b, k))
            && (forall|j: int| k <= j < e - 3 ==> is_js_space(#[trigger] s[j]))
            && fixable_incode(s.subrange(e - 3, e)) && (forall|j: int|
            e <= j < s.len() ==> is_js_space(#[trigger] s[j])) {
        let (b, k, e) = choose|b: int, k: int, e: int|
            #![trigger s.subrange(b, k), s.subrange(e - 3, e)]
            0 <= b <= k <= e - 3 && e <= s.len() && (forall|j: int|
                0 <= j < b ==> is_js_space(#[trigger] s[j])) && fixable_outcode(s.subrange(b, k))
                && (forall|j: int| k <= j < e - 3 ==> is_js_space(#[trigger] s[j]))
                && fixable_incode(s.subrange(e - 3, e)) && (forall|j: int|
                e <= j < s.len() ==> is_js_space(#[trigger] s[j]));
        let p = s.subrange(b, k);
        assert(s[b] == p[0]);
        lemma_leading_spaces_unique(s, b);
        let c0 = trim_start(s);
        assert forall|j: int| c0.len() - (s.len() - e) <= j < c0.len() implies is_js_space(
            #[trigger] c0[j],
        ) by {
            assert(c0[j] == s[j + b]);
        }
        assert(c0[c0.len() - (s.len() - e) - 1] == s.subrange(e - 3, e)[2]);
        lemma_trailing_spaces_unique(c0, s.len() - e);
        assert(c =~= s.subrange(b, e));
        assert(raw_incode(c) =~= s.subrange(e - 3, e));
        let h = c.take(c.len() - 3);
        assert forall|j: int| h.len() - (e - 3 - k) <= j < h.len() implies is_js_space(
            #[trigger] h[j],
        ) by {
            assert(h[j] == s[j + b]);
        }
        assert(h[h.len() - (e - 3 - k) - 1] == p[p.len() - 1]);
        lemma_trailing_spaces_unique(h, e - 3 - k);
        assert(raw_outcode(c) =~= p);
    }
}


/// A parse result is all or nothing: a valid result carries every component
/// (the sub-district only when the outward code ends in a letter), an invalid
/// one carries none.
pub proof fn law_parse_all_or_nothing(s: Seq<char>)
    ensures
        parse_of(s).valid ==> {
            &&& parse_of(s).postcode is Some
            &&& parse_of(s).incode is Some
            &&& parse_of(s).outcode is Some
            &&& parse_of(s).area is Some
            &&& parse_of(s).district is Some
            &&& parse_of(s).sector is Some
            &&& parse_of(s).unit is Some
        },
        !parse_of(s).valid ==> {
            &&& parse_of(s).postcode is None
            &&& parse_of(s).incode is None
            &&& parse_of(s).outcode is None
            &&& parse_of(s).area is None
            &&& parse_of(s).district is None
            &&& parse_of(s).sub_district is None
            &&& parse_of(s).sector is None
            &&& parse_of(s).unit is None
        },
{
}


/// Every component of a valid postcode is read off the input itself: the
/// inward code is the last three characters uppercased, the unit the last two
/// in their order, the sector the outward code, a space and the input's
/// inward digit, and the area the input's leading one or two letters
/// uppercased, two exactly when the second character is a letter (any letter,
/// `O` and `I` included).
pub proof fn law_components_from_input(s: Seq<char>)
    requires
        postcode_shape(s),
    ensures
        incode_of(s) == upper_seq(s.skip(s.len() - 3)),
        unit_of(s) == upper_seq(s.skip(s.len() - 2)),
        sector_of(s) == outcode_of(s) + seq![' ', s[s.len() - 3]],
        is_digit(s[s.len() - 3]),
        area_of(s).len() == (if is_letter(s[1]) { 2int } else { 1int }),
        area_of(s) == upper_seq(s.take(area_of(s).len() as int)),
        outcode_of(s).take(area_of(s).len() as int) == area_of(s),
        normalised_of(s).skip(normalised_of(s).len() - 4) == seq![' '] + upper_seq(
            s.skip(s.len() - 3),
        ),
        outcode_of(s) == upper_seq(s.take(outcode_of(s).len() as int)),
        forall|k: int|
            outcode_of(s).len() <= k < s.len() - 3 ==> is_js_space(#[trigger] s[k]),
{
    lemma_components(s);
    lemma_head_split(s);
    assert(outcode_of(s) =~= upper_seq(s.take(outcode_of(s).len() as int)));
    assert forall|k: int| outcode_of(s).len() <= k < s.len() - 3 implies is_js_space(#[trigger] s[k]) by {
        let w = s.take(s.len() - 3).skip(raw_outcode(s).len() as int);
        assert(w[k - raw_outcode(s).len()] == s[k]);
    }
    let r = raw_outcode(s);
    let h = s.take(s.len() - 3);
    lemma_trailing_spaces(h);
    assert(r[0] == s[0]);
    assert(r[1] == s[1]);
    lemma_upper_char(s[1]);
    lemma_upper_char(s[s.len() - 3]);
    assert(raw_incode(s)[0] == s[s.len() - 3]);
    assert(unit_of(s) =~= upper_seq(s.skip(s.len() - 2)));
    let n = area_of(s).len() as int;
    assert(area_of(s) =~= upper_seq(s.take(n)));
    assert(outcode_of(s).take(n) =~= area_of(s));
    assert(sector_of(s) =~= outcode_of(s) + seq![' ', s[s.len() - 3]]);
    let m = normalised_of(s);
    assert(m.skip(m.len() - 4) =~= seq![' '] + upper_seq(s.skip(s.len() - 3)));
}

/// `parse` agrees with the single-component parsers: every field of its
/// result is what the matching `to_*` function returns for the same input,
/// and `valid` is what `is_valid` returns.
pub proof fn law_parse_agrees_with_extractors(s: Seq<char>)
    ensures
        parse_of(s).valid == postcode_shape(s),
        parse_of(s).postcode == when_valid(s, normalised_of(s)),
        parse_of(s).incode == when_valid(s, incode_of(s)),
        parse_of(s).outcode == when_valid(s, outcode_of(s)),
        parse_of(s).area == when_valid(s, area_of(s)),
        parse_of(s).district == when_valid(s, district_of(s)),
        parse_of(s).sub_district == (if postcode_shape(s) {
            sub_district_of(s)
        } else {
            None
        }),
        parse_of(s).sector == when_valid(s, sector_of(s)),
        parse_of(s).unit == when_valid(s, unit_of(s)),
{
}


/// Coercion leaves an uppercase outward code that fits its slots alone, unless
/// it has three characters with a `0` before a digit in second place.
proof fn lemma_coerce_keeps_fitting(o: Seq<char>, i: Seq<char>)
    requires
        no_lowercase(o),
        no_lowercase(i),
    ensures
        outcode_shape(o) && !(o.len() == 3 && o[1] == '0' && is_digit(o[2])) ==> coerced_outcode(o)
            == o,
        incode_shape(i) ==> coerce_of(seq!['N', 'L', 'L'], i) == i,
        i.len() == 3 ==> coerce_of(seq!['N', 'L', 'L'], i).len() == 3,
{
    if outcode_shape(o) && !(o.len() == 3 && o[1] == '0' && is_digit(o[2])) {
        let p = if o.len() == 2 {
            seq!['L', 'N']
        } else if o.len() == 3 {
            pattern3_of(o)
        } else {
            seq!['L', 'L', 'N', '?']
        };
        assert(coerced_outcode(o) == coerce_of(p, o));
        lemma_coerce_of_index(p, o);
        assert(coerced_outcode(o) =~= o);
    }
    if i.len() == 3 {
        lemma_coerce_of_index(seq!['N', 'L', 'L'], i);
        if incode_shape(i) {
            assert(coerce_of(seq!['N', 'L', 'L'], i) =~= i);
        }
    }
}

/// `fix` only touches characters that do not fit their place. Of the input
/// trimmed, stripped of inner whitespace and uppercased, an outward code that
/// already is a valid outward code comes out as it is (a district number such
/// as the `15` of `B15` stays a number), except a three-character one with a
/// `0` before a digit in second place, where the `0` is read as the letter
/// `O`; an inward code that already is a valid inward code comes out as it is.
/// The two parts come out with one space between them.
pub proof fn law_fix_keeps_fitting_parts(s: Seq<char>)
    requires
        fixable_shape(s),
    ensures
        ({
            let t = sanitized(s);
            let o = t.take(t.len() - 3);
            let i = t.skip(t.len() - 3);
            &&& t.len() >= 3
            &&& outcode_shape(o) && !(o.len() == 3 && o[1] == '0' && is_digit(o[2])) ==> fix_of(
                s,
            ).take(o.len() as int) == o && fix_of(s)[o.len() as int] == ' '
            &&& incode_shape(i) ==> fix_of(s).skip(fix_of(s).len() - 3) == i
        }),
{
    let t = sanitized(s);
    let c = core_of(s);
    let p = raw_outcode(c);
    let q = raw_incode(c);
    assert forall|k: int| 0 <= k < p.len() implies !is_js_space(#[trigger] p[k]) by {}
    assert forall|k: int| 0 <= k < q.len() implies !is_js_space(#[trigger] q[k]) by {}
    lemma_sanitized_trim(s);
    lemma_sanitized_split(c);
    let o = t.take(t.len() - 3);
    let i = t.skip(t.len() - 3);
    lemma_upper_no_lowercase(strip_spaces(s));
    assert(no_lowercase(o));
    assert(no_lowercase(i));
    lemma_coerce_keeps_fitting(o, i);
    let f = fixed_of(s);
    if postcode_shape(t) {
        assert(f.take(o.len() as int) =~= o);
        assert(f.skip(f.len() - 3) =~= i);
    } else {
        let co = coerced_outcode(o);
        let ci = coerce_of(seq!['N', 'L', 'L'], i);
        assert(f == co + seq![' '] + ci);
        if outcode_shape(o) && !(o.len() == 3 && o[1] == '0' && is_digit(o[2])) {
            assert(f.take(o.len() as int) =~= o);
        }
        assert(f.skip(f.len() - 3) =~= ci);
    }
}


/// Shift a range by `e`.
pub open spec fn shift_range(r: (int, int), e: int) -> (int, int) {
    (r.0 + e, r.1 + e)
}

/// The scan step reads only what follows its start, so it gives the same
/// match, shifted, on the text from `e` on.
proof fn lemma_match_end_shift(s: Seq<char>, e: int, i: int)
    requires
        0 <= e <= i <= s.len(),
    ensures
        match_end_at(s, i) == (match match_end_at(s.skip(e), i - e) {
            Some(x) => Some(x + e),
            None => None,
        }),
{
    let t = s.skip(e);
    assert(s.skip(i) =~= t.skip(i - e));
    match outcode_span_of(s.skip(i)) {
        Some((mn, mx)) => {
            assert forall|j: int| #![trigger incode_after(s, j)] i <= j <= s.len() implies incode_after(
                s,
                j,
            ) == (match incode_after(t, j - e) {
                Some(x) => Some(x + e),
                None => None,
            }) by {
                assert(s.skip(j) =~= t.skip(j - e));
                let k = j + leading_spaces(s.skip(j));
                lemma_leading_spaces(s.skip(j));
                if k + 3 <= s.len() {
                    assert(s.subrange(k, k + 3) =~= t.subrange(k - e, k - e + 3));
                }
            }
            let x = s.skip(i);
            assert(i + mn <= s.len() && i + mx <= s.len());
            assert(incode_after(s, i + mx) == (match incode_after(t, i - e + mx) {
                Some(x) => Some(x + e),
                None => None,
            }));
            assert(incode_after(s, i + mn) == (match incode_after(t, i - e + mn) {
                Some(x) => Some(x + e),
                None => None,
            }));
        },
        None => {},
    }
}

/// Scanning from `i` finds the matches found on the text from `e` on, shifted.
proof fn lemma_matches_shift(s: Seq<char>, e: int, i: int)
    requires
        0 <= e <= i,
        e <= s.len(),
    ensures
        matches_from(s, i) == matches_from(s.skip(e), i - e).map_values(
            |r: (int, int)| shift_range(r, e),
        ),
    decreases s.len() - i,
{
    let t = s.skip(e);
    if i < s.len() {
        lemma_match_end_shift(s, e, i);
        lemma_match_end_at(s, i);
        match match_end_at(s, i) {
            Some(x) => {
                lemma_matches_shift(s, e, x);
                assert(matches_from(t, i - e) == seq![(i - e, x - e)] + matches_from(t, x - e));
                assert(matches_from(s, i) =~= matches_from(t, i - e).map_values(
                    |r: (int, int)| shift_range(r, e),
                ));
            },
            None => {
                lemma_matches_shift(s, e, i + 1);
                assert(matches_from(t, i - e) == matches_from(t, i - e + 1));
                assert(matches_from(s, i) == matches_from(s, i + 1));
            },
        }
    } else {
        assert(matches_from(t, i - e) =~= Seq::<(int, int)>::empty());
        assert(matches_from(s, i) =~= matches_from(t, i - e).map_values(
            |r: (int, int)| shift_range(r, e),
        ));
    }
}

/// After the first match found from `i`, the scan goes on from its end.
proof fn lemma_matches_rest(s: Seq<char>, i: int)
    requires
        0 <= i,
        matches_from(s, i).len() > 0,
    ensures
        matches_from(s, i).drop_first() == matches_from(s, matches_from(s, i)[0].1),
        i <= matches_from(s, i)[0].0,
    decreases s.len() - i,
{
    lemma_match_end_at(s, i);
    match match_end_at(s, i) {
        Some(x) => {
            assert(matches_from(s, i) == seq![(i, x)] + matches_from(s, x));
            assert(matches_from(s, i).drop_first() =~= matches_from(s, x));
        },
        None => {
            assert(matches_from(s, i) == matches_from(s, i + 1));
            lemma_matches_rest(s, i + 1);
        },
    }
}

/// Replacing over shifted ranges of `s` is replacing over the ranges of the
/// text from `e` on.
proof fn lemma_replaced_shift(
    s: Seq<char>,
    e: int,
    r: Seq<(int, int)>,
    last: int,
    rep: Seq<char>,
)
    requires
        0 <= e <= s.len(),
        0 <= last <= s.len() - e,
        r.len() > 0 ==> last <= r[0].0,
        forall|k: int| 0 <= k < r.len() ==> 0 <= (#[trigger] r[k]).0 <= r[k].1 <= s.len() - e,
        forall|k: int| 0 <= k < r.len() - 1 ==> (#[trigger] r[k]).1 <= r[k + 1].0,
    ensures
        replaced(s, r.map_values(|x: (int, int)| shift_range(x, e)), last + e, rep) == replaced(
            s.skip(e),
            r,
            last,
            rep,
        ),
    decreases r.len(),
{
    let t = s.skip(e);
    let sr = r.map_values(|x: (int, int)| shift_range(x, e));
    if r.len() == 0 {
        assert(s.subrange(last + e, s.len() as int) =~= t.subrange(last, t.len() as int));
    } else {
        let d = r.drop_first();
        assert forall|k: int| 0 <= k < d.len() implies 0 <= (#[trigger] d[k]).0 <= d[k].1 <= s.len()
            - e by {
            assert(d[k] == r[k + 1]);
        }
        if d.len() > 0 {
            assert(d[0] == r[1]);
        }
        assert forall|k: int| 0 <= k < d.len() - 1 implies (#[trigger] d[k]).1 <= d[k + 1].0 by {
            assert(d[k] == r[k + 1]);
            assert(d[k + 1] == r[k + 2]);
        }
        lemma_replaced_shift(s, e, d, r[0].1, rep);
        assert(sr.drop_first() =~= d.map_values(|x: (int, int)| shift_range(x, e)));
        assert(sr[0] == shift_range(r[0], e));
        assert(s.subrange(last + e, r[0].0 + e) =~= t.subrange(last, r[0].0));
    }
}

/// `replace` keeps the text before the first match as it is, puts the
/// replacement in place of the match, and treats the text after the match as
/// a text of its own. With [`law_replace_without_matches`] this fixes the whole
/// result: every piece of text outside the matches is kept verbatim and in
/// order, each match is replaced by `rep`, and the text after the last match
/// is kept whole.
pub proof fn law_replace_first_match(s: Seq<char>, rep: Seq<char>)
    requires
        matches_from(s, 0).len() > 0,
    ensures
        replace_of(s, rep) == s.take(matches_from(s, 0)[0].0) + rep + replace_of(
            s.skip(matches_from(s, 0)[0].1),
            rep,
        ),
        match_strings(s) == seq![s.subrange(matches_from(s, 0)[0].0, matches_from(s, 0)[0].1)]
            + match_strings(s.skip(matches_from(s, 0)[0].1)),
{
    let r = matches_from(s, 0);
    lemma_matches_from_ordered(s, 0);
    let (p, e) = r[0];
    lemma_matches_rest(s, 0);
    let t = s.skip(e);
    lemma_matches_shift(s, e, e);
    let rt = matches_from(t, 0);
    lemma_matches_from_ordered(t, 0);
    assert(r.drop_first() == rt.map_values(|x: (int, int)| shift_range(x, e)));
    lemma_replaced_shift(s, e, rt, 0, rep);
    assert(s.subrange(0, p) =~= s.take(p));
    assert(replace_of(s, rep) == s.subrange(0, p) + rep + replaced(s, r.drop_first(), e, rep));
    assert(replace_of(s, rep) =~= s.take(p) + rep + replace_of(t, rep));
    assert forall|k: int| 0 <= k < rt.len() implies #[trigger] t.subrange(rt[k].0, rt[k].1)
        == s.subrange(rt[k].0 + e, rt[k].1 + e) by {
        assert(t.subrange(rt[k].0, rt[k].1) =~= s.subrange(rt[k].0 + e, rt[k].1 + e));
    }
    assert forall|k: int| 0 <= k < r.len() - 1 implies r[k + 1] == #[trigger] shift_range(rt[k], e) by {
        assert(r.drop_first()[k] == r[k + 1]);
    }
    assert(r.len() == rt.len() + 1);
    let lhs = match_strings(s);
    let rhs = seq![s.subrange(p, e)] + match_strings(t);
    assert forall|k: int| 0 <= k < lhs.len() implies lhs[k] == rhs[k] by {
        if k > 0 {
            assert(r[k] == shift_range(rt[k - 1], e));
            assert(t.subrange(rt[k - 1].0, rt[k - 1].1) == s.subrange(rt[k - 1].0 + e, rt[k - 1].1 + e));
        }
    }
    assert(lhs =~= rhs);
}

/// `replace` keeps the text after the last match whole: the result ends with it.
pub proof fn law_replace_keeps_tail(s: Seq<char>, rep: Seq<char>)
    ensures
        ({
            let r = matches_from(s, 0);
            let e = if r.len() == 0 { 0 } else { r[r.len() - 1].1 };
            &&& 0 <= e <= s.len()
            &&& s.skip(e).len() <= replace_of(s, rep).len()
            &&& replace_of(s, rep).skip(replace_of(s, rep).len() - (s.len() - e)) == s.skip(e)
        }),
{
    lemma_matches_from_ordered(s, 0);
    let r = matches_from(s, 0);
    lemma_replaced_tail(s, r, 0, rep);
}

/// `replaced` ends with the text after the last range.
proof fn lemma_replaced_tail(s: Seq<char>, r: Seq<(int, int)>, last: int, rep: Seq<char>)
    requires
        0 <= last <= s.len(),
        r.len() > 0 ==> last <= r[0].0,
        forall|k: int| 0 <= k < r.len() ==> 0 <= (#[trigger] r[k]).0 <= r[k].1 <= s.len(),
        forall|k: int| 0 <= k < r.len() - 1 ==> (#[trigger] r[k]).1 <= r[k + 1].0,
    ensures
        ({
            let e = if r.len() == 0 { last } else { r[r.len() - 1].1 };
            &&& s.len() - e <= replaced(s, r, last, rep).len()
            &&& replaced(s, r, last, rep).skip(replaced(s, r, last, rep).len() - (s.len() - e))
                == s.skip(e)
        }),
    decreases r.len(),
{
    if r.len() == 0 {
        assert(s.subrange(last, s.len() as int) =~= s.skip(last));
    } else {
        let d = r.drop_first();
        assert forall|k: int| 0 <= k < d.len() implies 0 <= (#[trigger] d[k]).0 <= d[k].1
            <= s.len() by {
            assert(d[k] == r[k + 1]);
        }
        if d.len() > 0 {
            assert(d[0] == r[1]);
        }
        assert forall|k: int| 0 <= k < d.len() - 1 implies (#[trigger] d[k]).1 <= d[k + 1].0 by {
            assert(d[k] == r[k + 1]);
            assert(d[k + 1] == r[k + 2]);
        }
        lemma_replaced_tail(s, d, r[0].1, rep);
        let whole = replaced(s, r, last, rep);
        let rest = replaced(s, d, r[0].1, rep);
        let e = if d.len() == 0 { r[0].1 } else { d[d.len() - 1].1 };
        assert(e == r[r.len() - 1].1);
        assert(whole == s.subrange(last, r[0].0) + rep + rest);
        assert(whole.skip(whole.len() - (s.len() - e)) =~= rest.skip(rest.len() - (s.len() - e)));
    }
}


/// Input that `fix` cannot coerce into shape comes back unchanged.
pub proof fn law_fix_unfixable_unchanged(s: Seq<char>)
    requires
        !fixable_shape(s),
    ensures
        fix_of(s) == s,
{
}

/// `fix` changes characters only by swapping `O` with `0` and `I` with `1`:
/// its result is the input trimmed, stripped of inner whitespace and
/// uppercased, with one space put before the last three characters, and each
/// character either kept or swapped for the one it is confused with.
pub proof fn law_fix_only_swaps(s: Seq<char>)
    requires
        fixable_shape(s),
    ensures
        ({
            let t = sanitized(s);
            let n = t.len() - 3;
            &&& t.len() >= 3
            &&& fix_of(s).len() == t.len() + 1
            &&& fix_of(s)[n] == ' '
            &&& forall|k: int|
                0 <= k < n ==> #[trigger] fix_of(s)[k] == t[k] || fix_of(s)[k] == to_letter(t[k])
                    || fix_of(s)[k] == to_number(t[k])
            &&& forall|k: int|
                n < k < t.len() + 1 ==> #[trigger] fix_of(s)[k] == t[k - 1] || fix_of(s)[k]
                    == to_letter(t[k - 1]) || fix_of(s)[k] == to_number(t[k - 1])
        }),
{
    let t = sanitized(s);
    let c = core_of(s);
    let p = raw_outcode(c);
    let q = raw_incode(c);
    assert forall|k: int| 0 <= k < p.len() implies !is_js_space(#[trigger] p[k]) by {}
    assert forall|k: int| 0 <= k < q.len() implies !is_js_space(#[trigger] q[k]) by {}
    lemma_sanitized_trim(s);
    lemma_sanitized_split(c);
    let o = t.take(t.len() - 3);
    let i = t.skip(t.len() - 3);
    assert(o.len() == p.len());
    let f = fixed_of(s);
    if !postcode_shape(t) {
        let pat = if o.len() == 2 {
            seq!['L', 'N']
        } else if o.len() == 3 {
            pattern3_of(o)
        } else {
            seq!['L', 'L', 'N', '?']
        };
        assert(coerced_outcode(o) == coerce_of(pat, o));
        lemma_coerce_of_index(pat, o);
        lemma_coerce_of_index(seq!['N', 'L', 'L'], i);
        let co = coerced_outcode(o);
        let ci = coerce_of(seq!['N', 'L', 'L'], i);
        assert(f == co + seq![' '] + ci);
        assert forall|k: int| 0 <= k < o.len() implies #[trigger] f[k] == t[k] || f[k] == to_letter(
            t[k],
        ) || f[k] == to_number(t[k]) by {
            assert(f[k] == co[k]);
            assert(o[k] == t[k]);
        }
        assert forall|k: int| o.len() < k < t.len() + 1 implies #[trigger] f[k] == t[k - 1] || f[k]
            == to_letter(t[k - 1]) || f[k] == to_number(t[k - 1]) by {
            assert(f[k] == ci[k - o.len() - 1]);
            assert(i[k - o.len() - 1] == t[k - 1]);
        }
    } else {
        assert forall|k: int| 0 <= k < o.len() implies #[trigger] f[k] == t[k] by {}
        assert forall|k: int| o.len() < k < t.len() + 1 implies #[trigger] f[k] == t[k - 1] by {}
    }
}

} // verus!
