//! Coercing commonly confused characters (`O` and `0`, `I` and `1`) into a
//! postcode shape.
use vstd::prelude::*;
use crate::chars::{
    chars_of, is_digit, is_js_space, is_letter, is_letter_or_digit, push_char, upper, upper_seq,
};
use crate::shape::{
    incode_shape, outcode_shape, lemma_leading_spaces, lemma_leading_spaces_unique,
    lemma_sanitized_split, lemma_sanitized_trim, lemma_trailing_spaces,
    lemma_trailing_spaces_unique, leading_spaces, raw_incode, raw_outcode, sanitize, sanitized,
    matches_postcode, postcode_shape, space_len, trailing_spaces, trim_end, trim_start,
};

verus! {

// --- model ------------------------------------------------------------------

/// The class `[a-z01]`, letters in either case.
#[verifier::allow_in_spec]
pub fn is_letter_or_01(c: char) -> bool
    returns
        is_letter(c) || c == '0' || c == '1',
{
    is_letter(c) || c == '0' || c == '1'
}

/// The class `[0-9oi]`, letters in either case.
#[verifier::allow_in_spec]
pub fn is_digit_oi(c: char) -> bool
    returns
        is_digit(c) || c == 'o' || c == 'O' || c == 'i' || c == 'I',
{
    is_digit(c) || c == 'o' || c == 'O' || c == 'i' || c == 'I'
}

/// Map a digit to the letter it is often confused with, for letter slots.
#[verifier::allow_in_spec]
pub fn to_letter(c: char) -> char
    returns
        if c == '0' {
            'O'
        } else if c == '1' {
            'I'
        } else {
            c
        },
{
    if c == '0' {
        'O'
    } else if c == '1' {
        'I'
    } else {
        c
    }
}

/// Map a letter to the digit it is often confused with, for number slots.
#[verifier::allow_in_spec]
pub fn to_number(c: char) -> char
    returns
        if c == 'O' {
            '0'
        } else if c == 'I' {
            '1'
        } else {
            c
        },
{
    if c == 'O' {
        '0'
    } else if c == 'I' {
        '1'
    } else {
        c
    }
}

/// A letter that no digit is confused with: any letter but `O` and `I`.
pub open spec fn plain_letter(c: char) -> bool {
    is_letter(c) && c != 'O' && c != 'o' && c != 'I' && c != 'i'
}

/// `o` reads as a fixable outward code whose area has `a` characters:
/// `[a-z01]{a}[0-9oi][a-z\d]?`.
pub open spec fn fixable_outcode_with(o: Seq<char>, a: int) -> bool {
    &&& a == 1 || a == 2
    &&& a + 1 <= o.len() <= a + 2
    &&& is_letter_or_01(o[0])
    &&& a == 2 ==> is_letter_or_01(o[1])
    &&& is_digit_oi(o[a])
    &&& o.len() == a + 2 ==> is_letter_or_digit(o[a + 1])
}

/// `o` is exactly a fixable outward code: `[a-z01]{1,2}[0-9oi][a-z\d]?`.
pub open spec fn fixable_outcode(o: Seq<char>) -> bool {
    fixable_outcode_with(o, 1) || fixable_outcode_with(o, 2)
}

/// `i` is exactly a fixable inward code: `[0-9oi][a-z01]{2}`.
pub open spec fn fixable_incode(i: Seq<char>) -> bool {
    i.len() == 3 && is_digit_oi(i[0]) && is_letter_or_01(i[1]) && is_letter_or_01(i[2])
}

/// `s` without the whitespace around it.
pub open spec fn core_of(s: Seq<char>) -> Seq<char> {
    trim_end(trim_start(s))
}

/// `s` matches `^\s*[a-z01]{1,2}[0-9oi][a-z\d]?\s*[0-9oi][a-z01]{2}\s*$`,
/// letters in either case.
pub open spec fn fixable_shape(s: Seq<char>) -> bool {
    let c = core_of(s);
    &&& c.len() >= 3
    &&& fixable_incode(raw_incode(c))
    &&& fixable_outcode(raw_outcode(c))
}

/// `input` read against the slot pattern `pat`, position by position: `N`
/// forces a number, `L` a letter, `?` keeps the character. A character with
/// no slot, or whose slot is anything else, is dropped.
pub open spec fn coerce_of(pat: Seq<char>, input: Seq<char>) -> Seq<char>
    decreases input.len(),
{
    if input.len() == 0 {
        input
    } else {
        let prev = coerce_of(pat, input.drop_last());
        let i = input.len() - 1;
        if i < pat.len() && pat[i] == 'N' {
            prev.push(to_number(input[i]))
        } else if i < pat.len() && pat[i] == 'L' {
            prev.push(to_letter(input[i]))
        } else if i < pat.len() && pat[i] == '?' {
            prev.push(input[i])
        } else {
            prev
        }
    }
}

/// The slot pattern for a three-character outward code.
///
/// A plain letter in third place forces `A9A`. Otherwise a letter in second
/// place, or a `0` there before a digit (no district number starts with `0`),
/// forces `AA9`. Otherwise the code reads `A99` or `A9A` and the last two
/// characters stay as they are.
pub open spec fn pattern3_of(o: Seq<char>) -> Seq<char> {
    if plain_letter(o[2]) {
        seq!['L', 'N', 'L']
    } else if is_letter(o[1]) || (o[1] == '0' && is_digit(o[2])) {
        seq!['L', 'L', 'N']
    } else {
        seq!['L', '?', '?']
    }
}

/// An outward code coerced by its length: `LN` for two characters,
/// [`pattern3_of`] for three, `LLN?` for four; any other length is kept.
pub open spec fn coerced_outcode(o: Seq<char>) -> Seq<char> {
    if o.len() == 2 {
        coerce_of(seq!['L', 'N'], o)
    } else if o.len() == 3 {
        coerce_of(pattern3_of(o), o)
    } else if o.len() == 4 {
        coerce_of(seq!['L', 'L', 'N', '?'], o)
    } else {
        o
    }
}

/// The text [`fix`] builds from a fixable input: the sanitised input split
/// before its last three characters, with a single space between the parts.
/// When the sanitised input already is a postcode the parts are kept as they
/// are; otherwise the outward part is coerced by its length and the inward
/// part by `NLL`.
pub open spec fn fixed_of(s: Seq<char>) -> Seq<char> {
    let t = sanitized(s);
    let o = t.take(t.len() - 3);
    let i = t.skip(t.len() - 3);
    if postcode_shape(t) {
        o + seq![' '] + i
    } else {
        coerced_outcode(o) + seq![' '] + coerce_of(seq!['N', 'L', 'L'], i)
    }
}

/// What [`fix`] returns for `s`.
pub open spec fn fix_of(s: Seq<char>) -> Seq<char> {
    if fixable_shape(s) {
        fixed_of(s)
    } else {
        s
    }
}

// --- the grammar read with backtracking ---------------------------------------

/// From `j`: an inward code `[0-9oi][a-z01]{2}`, then only whitespace to the end.
pub open spec fn incode_then_end(s: Seq<char>, j: int) -> bool {
    &&& 0 <= j
    &&& j + 3 <= s.len()
    &&& fixable_incode(s.subrange(j, j + 3))
    &&& j + 3 + leading_spaces(s.skip(j + 3)) == s.len()
}

/// From `t`: `[0-9oi][a-z\d]\s*` then [`incode_then_end`].
pub open spec fn tail_with_optional(s: Seq<char>, t: int) -> bool {
    &&& 0 <= t
    &&& t + 1 < s.len()
    &&& is_digit_oi(s[t])
    &&& is_letter_or_digit(s[t + 1])
    &&& incode_then_end(s, t + 2 + leading_spaces(s.skip(t + 2)))
}

/// From `t`: `[0-9oi]\s*` then [`incode_then_end`].
pub open spec fn tail_without_optional(s: Seq<char>, t: int) -> bool {
    &&& 0 <= t < s.len()
    &&& is_digit_oi(s[t])
    &&& incode_then_end(s, t + 1 + leading_spaces(s.skip(t + 1)))
}

/// From `t`: `[0-9oi][a-z\d]?\s*[0-9oi][a-z01]{2}\s*$`.
pub open spec fn fixable_tail(s: Seq<char>, t: int) -> bool {
    tail_with_optional(s, t) || tail_without_optional(s, t)
}

/// The facts about the trimmed text that both directions of
/// [`lemma_fixable_tail_parts`] start from.
pub proof fn lemma_core_bounds(s: Seq<char>)
    ensures
        leading_spaces(s) <= s.len(),
        trailing_spaces(trim_start(s)) <= s.len() - leading_spaces(s),
        core_of(s) == s.subrange(
            leading_spaces(s) as int,
            s.len() - trailing_spaces(trim_start(s)),
        ),
        forall|k: int|
            s.len() - trailing_spaces(trim_start(s)) <= k < s.len() ==> is_js_space(#[trigger] s[k]),
{
    let st = leading_spaces(s) as int;
    lemma_leading_spaces(s);
    let c0 = trim_start(s);
    lemma_trailing_spaces(c0);
    let en = s.len() - trailing_spaces(c0);
    assert(core_of(s) =~= s.subrange(st, en));
    assert forall|k: int| en <= k < s.len() implies is_js_space(#[trigger] s[k]) by {
        assert(s[k] == c0[k - st]);
    }
}

/// A backtracking reading of the grammar gives the reading by parts.
#[verifier::rlimit(50)]
proof fn lemma_tail_gives_parts(s: Seq<char>, a: int)
    requires
        a == 1 || a == 2,
        leading_spaces(s) < s.len(),
        is_letter_or_01(s[leading_spaces(s) as int]),
        a == 2 ==> leading_spaces(s) + 1 < s.len() && is_letter_or_01(s[leading_spaces(s) + 1int]),
        fixable_tail(s, leading_spaces(s) + a),
    ensures
        core_of(s).len() >= 3,
        fixable_incode(raw_incode(core_of(s))),
        fixable_outcode_with(raw_outcode(core_of(s)), a),
{
    let n = s.len() as int;
    let st = leading_spaces(s) as int;
    lemma_core_bounds(s);
    let c0 = trim_start(s);
    let c = core_of(s);
    let t = st + a;
    let o = if tail_with_optional(s, t) {
        2int
    } else {
        1int
    };
    let sk = s.skip(t + o);
    lemma_leading_spaces(sk);
    let j = t + o + leading_spaces(sk);
    assert(incode_then_end(s, j));
    let se = s.skip(j + 3);
    lemma_leading_spaces(se);
    // Where the text ends.
    assert forall|k: int| c0.len() - (n - (j + 3)) <= k < c0.len() implies is_js_space(
        #[trigger] c0[k],
    ) by {
        assert(c0[k] == se[k + st - (j + 3)]);
    }
    assert(c0[c0.len() - (n - (j + 3)) - 1] == s[j + 2]);
    lemma_trailing_spaces_unique(c0, n - (j + 3));
    assert(c =~= s.subrange(st, j + 3));
    assert(raw_incode(c) =~= s.subrange(j, j + 3));
    // Where the outward code ends.
    let h = c.take(c.len() - 3);
    assert(h =~= s.subrange(st, j));
    assert forall|k: int| h.len() - (j - (t + o)) <= k < h.len() implies is_js_space(
        #[trigger] h[k],
    ) by {
        assert(h[k] == sk[k + st - (t + o)]);
    }
    assert(h[h.len() - (j - (t + o)) - 1] == s[t + o - 1]);
    lemma_trailing_spaces_unique(h, j - (t + o));
    assert(raw_outcode(c) =~= s.subrange(st, t + o));
}

/// The reading by parts gives a backtracking reading of the grammar.
#[verifier::rlimit(50)]
proof fn lemma_parts_give_tail(s: Seq<char>, a: int)
    requires
        a == 1 || a == 2,
        core_of(s).len() >= 3,
        fixable_incode(raw_incode(core_of(s))),
        fixable_outcode_with(raw_outcode(core_of(s)), a),
    ensures
        leading_spaces(s) < s.len(),
        is_letter_or_01(s[leading_spaces(s) as int]),
        a == 2 ==> leading_spaces(s) + 1 < s.len() && is_letter_or_01(s[leading_spaces(s) + 1int]),
        fixable_tail(s, leading_spaces(s) + a),
{
    let n = s.len() as int;
    let st = leading_spaces(s) as int;
    lemma_core_bounds(s);
    let c = core_of(s);
    let en = st + c.len();
    let t = st + a;
    let p = raw_outcode(c);
    let h = c.take(c.len() - 3);
    lemma_trailing_spaces(h);
    let pe = st + p.len();
    assert forall|k: int| pe <= k < en - 3 implies is_js_space(#[trigger] s[k]) by {
        assert(s[k] == h[k - st]);
    }
    assert forall|k: int| 0 <= k < p.len() implies s[st + k] == #[trigger] p[k] by {
        assert(p[k] == h[k]);
    }
    assert(raw_incode(c) =~= s.subrange(en - 3, en));
    // After the outward code: whitespace up to the inward code.
    let sk = s.skip(pe);
    assert forall|k: int| 0 <= k < en - 3 - pe implies is_js_space(#[trigger] sk[k]) by {
        assert(sk[k] == s[pe + k]);
    }
    assert(sk[en - 3 - pe] == s[en - 3]);
    lemma_leading_spaces_unique(sk, en - 3 - pe);
    // After the inward code: whitespace to the end.
    let se = s.skip(en);
    assert forall|k: int| 0 <= k < n - en implies is_js_space(#[trigger] se[k]) by {
        assert(se[k] == s[en + k]);
    }
    lemma_leading_spaces_unique(se, n - en);
    assert(incode_then_end(s, en - 3));
    if p.len() == a + 2 {
        assert(tail_with_optional(s, t));
    } else {
        assert(tail_without_optional(s, t));
    }
}

/// Reading the area of a fixable outward code as `a` characters, the
/// backtracking reading of the grammar agrees with the reading by parts.
proof fn lemma_fixable_tail_parts(s: Seq<char>, a: int)
    requires
        a == 1 || a == 2,
        leading_spaces(s) < s.len(),
    ensures
        ({
            let st = leading_spaces(s) as int;
            is_letter_or_01(s[st]) && (a == 2 ==> st + 1 < s.len() && is_letter_or_01(s[st + 1]))
                && fixable_tail(s, st + a)
        }) == ({
            let c = core_of(s);
            c.len() >= 3 && fixable_incode(raw_incode(c)) && fixable_outcode_with(
                raw_outcode(c),
                a,
            )
        }),
{
    let st = leading_spaces(s) as int;
    let c = core_of(s);
    if is_letter_or_01(s[st]) && (a == 2 ==> st + 1 < s.len() && is_letter_or_01(s[st + 1]))
        && fixable_tail(s, st + a) {
        lemma_tail_gives_parts(s, a);
    }
    if c.len() >= 3 && fixable_incode(raw_incode(c)) && fixable_outcode_with(raw_outcode(c), a) {
        lemma_parts_give_tail(s, a);
    }
}

// --- executable --------------------------------------------------------------

/// Whether `v[start..]` matches `[0-9oi][a-z\d]?\s*[0-9oi][a-z01]{2}\s*$`.
///
/// The optional character makes the reading ambiguous, so the tail is tried
/// with it first, then without it.
fn matches_tail(v: &Vec<char>, start: usize) -> (r: bool)
    requires
        start <= v@.len(),
    ensures
        r == fixable_tail(v@, start as int),
{
    let n = v.len();
    let mut i = start;
    // [0-9oi]
    if i < n && is_digit_oi(v[i]) {
        i += 1;
    } else {
        return false;
    }
    // [a-z\d]? then the rest: with the optional character, then without.
    let order = [true, false];
    let mut attempt: usize = 0;
    while attempt < 2
        invariant
            n == v@.len(),
            i == start + 1 <= n,
            is_digit_oi(v@[start as int]),
            order@ == seq![true, false],
            attempt <= 2,
            attempt >= 1 ==> !tail_with_optional(v@, start as int),
            attempt >= 2 ==> !tail_without_optional(v@, start as int),
        decreases 2 - attempt,
    {
        let take_optional = order[attempt];
        attempt += 1;
        let mut j = i;
        if take_optional {
            if j >= n || !is_letter_or_digit(v[j]) {
                continue;
            }
            j += 1;
        }
        // \s*
        j += space_len(v, j);
        let ghost q = j as int;
        // [0-9oi]
        if j >= n || !is_digit_oi(v[j]) {
            continue;
        }
        j += 1;
        // [a-z01]{2}
        let mut ok = true;
        let mut k: usize = 0;
        while k < 2
            invariant_except_break
                ok,
            invariant
                n == v@.len(),
                j == q + 1 + k <= n,
                k <= 2,
                forall|m: int| q + 1 <= m < j ==> is_letter_or_01(#[trigger] v@[m]),
            ensures
                ok ==> j == q + 3 && is_letter_or_01(v@[q + 1]) && is_letter_or_01(v@[q + 2]),
                !ok ==> !(q + 3 <= n && is_letter_or_01(v@[q + 1]) && is_letter_or_01(v@[q + 2])),
            decreases 2 - k,
        {
            if j < n && is_letter_or_01(v[j]) {
                j += 1;
            } else {
                ok = false;
                break;
            }
            k += 1;
        }
        if !ok {
            continue;
        }
        assert(v@.subrange(q, q + 3) =~= seq![v@[q], v@[q + 1], v@[q + 2]]);
        // \s*$
        j += space_len(v, j);
        if j == n {
            return true;
        }
    }
    false
}

/// Whether `v` matches `^\s*[a-z01]{1,2}[0-9oi][a-z\d]?\s*[0-9oi][a-z01]{2}\s*$`.
fn matches_fixable(v: &Vec<char>) -> (r: bool)
    ensures
        r == fixable_shape(v@),
{
    let n = v.len();
    let start = space_len(v, 0);
    proof {
        assert(v@.skip(0) =~= v@);
    }
    // [a-z01]{1,2}. Greedy, so try two characters before one.
    if start >= n || !is_letter_or_01(v[start]) {
        proof {
            if start < n {
                lemma_fixable_tail_parts(v@, 1);
                lemma_fixable_tail_parts(v@, 2);
            } else {
                lemma_core_empty(v@);
            }
        }
        return false;
    }
    proof {
        lemma_fixable_tail_parts(v@, 1);
        lemma_fixable_tail_parts(v@, 2);
    }
    let can_take_two = start + 1 < n && is_letter_or_01(v[start + 1]);
    if can_take_two && matches_tail(v, start + 2) {
        return true;
    }
    matches_tail(v, start + 1)
}

/// Text of whitespace alone has an empty core.
proof fn lemma_core_empty(s: Seq<char>)
    requires
        leading_spaces(s) >= s.len(),
    ensures
        core_of(s).len() == 0,
{
    lemma_leading_spaces(s);
}

/// Coerce `input` against a slot pattern.
///
/// Each character is read against the pattern character at the same index.
/// `N` forces a number, `L` forces a letter, `?` leaves the character alone. A
/// character past the end of the pattern is dropped.
fn coerce(pattern: &Vec<char>, input: &Vec<char>) -> (r: Vec<char>)
    ensures
        r@ == coerce_of(pattern@, input@),
{
    let mut out: Vec<char> = Vec::new();
    let mut i: usize = 0;
    while i < input.len()
        invariant
            i <= input@.len(),
            out@ == coerce_of(pattern@, input@.take(i as int)),
        decreases input@.len() - i,
    {
        let c = input[i];
        assert(input@.take(i + 1).drop_last() =~= input@.take(i as int));
        if i < pattern.len() {
            let p = pattern[i];
            if p == 'N' {
                out.push(to_number(c));
            } else if p == 'L' {
                out.push(to_letter(c));
            } else if p == '?' {
                out.push(c);
            }
        }
        i += 1;
    }
    assert(input@.take(input@.len() as int) =~= input@);
    out
}

/// The slot pattern for a three-character outward code (see [`pattern3_of`]).
fn pattern3(outcode: &Vec<char>) -> (r: Vec<char>)
    requires
        outcode@.len() == 3,
    ensures
        r@ == pattern3_of(outcode@),
{
    let c1 = outcode[1];
    let c2 = outcode[2];
    let r = if is_letter(c2) && c2 != 'O' && c2 != 'o' && c2 != 'I' && c2 != 'i' {
        vec!['L', 'N', 'L']
    } else if is_letter(c1) || (c1 == '0' && is_digit(c2)) {
        vec!['L', 'L', 'N']
    } else {
        vec!['L', '?', '?']
    };
    assert(r@ =~= pattern3_of(outcode@));
    r
}

/// Coerce an outward code by its length.
///
/// Length 2 uses `LN`, length 3 the pattern its characters force, length 4
/// uses `LLN?`. Any other length is returned unchanged.
fn coerce_outcode(outcode: &Vec<char>) -> (r: Vec<char>)
    ensures
        r@ == coerced_outcode(outcode@),
{
    let n = outcode.len();
    if n == 2 {
        let p = vec!['L', 'N'];
        assert(p@ =~= seq!['L', 'N']);
        coerce(&p, outcode)
    } else if n == 3 {
        coerce(&pattern3(outcode), outcode)
    } else if n == 4 {
        let p = vec!['L', 'L', 'N', '?'];
        assert(p@ =~= seq!['L', 'L', 'N', '?']);
        coerce(&p, outcode)
    } else {
        outcode.clone()
    }
}

/// Clean up a postcode, coercing commonly confused characters.
///
/// Swaps `O` and `0` and swaps `I` and `1` by position, trims, removes inner
/// whitespace, and inserts a single space between the outward and inward codes.
/// An input that is a postcode once trimmed of whitespace and uppercased is
/// only normalised, never coerced. A three-character outward code is read as `A9A`, `AA9` or `A99` by the
/// characters that force one of them (see [`pattern3_of`]). If the input
/// cannot be coerced into shape, the original string is returned unchanged,
/// including its original casing and whitespace.
pub fn fix(s: &str) -> (r: String)
    ensures
        r@ == fix_of(s@),
{
    let v = chars_of(s);
    if !matches_fixable(&v) {
        return s.to_owned();
    }
    let cleaned = sanitize(&v);
    proof {
        let c = core_of(s@);
        lemma_sanitized_trim(s@);
        lemma_sanitized_split(c);
    }
    let len = cleaned.len();
    let mut outward: Vec<char> = Vec::new();
    let mut inward: Vec<char> = Vec::new();
    let mut i: usize = 0;
    while i < len
        invariant
            i <= len == cleaned@.len(),
            len >= 3,
            outward@ == cleaned@.take(if i < len - 3 { i as int } else { len - 3 }),
            inward@ == cleaned@.subrange(len - 3, if i < len - 3 { len - 3 } else { i as int }),
        decreases len - i,
    {
        if i < len - 3 {
            outward.push(cleaned[i]);
        } else {
            inward.push(cleaned[i]);
        }
        i += 1;
    }
    let mut out = String::new();
    // A sanitised input that already is a postcode is only normalised.
    let keep = matches_postcode(&cleaned);
    let nll = vec!['N', 'L', 'L'];
    let coerced = if keep {
        outward.clone()
    } else {
        coerce_outcode(&outward)
    };
    let coerced_in = if keep {
        inward.clone()
    } else {
        coerce(&nll, &inward)
    };
    let mut k: usize = 0;
    while k < coerced.len()
        invariant
            k <= coerced@.len(),
            out@ == coerced@.take(k as int),
        decreases coerced@.len() - k,
    {
        push_char(&mut out, coerced[k]);
        k += 1;
    }
    push_char(&mut out, ' ');
    let mut k: usize = 0;
    let ghost head = out@;
    while k < coerced_in.len()
        invariant
            k <= coerced_in@.len(),
            out@ == head + coerced_in@.take(k as int),
        decreases coerced_in@.len() - k,
    {
        push_char(&mut out, coerced_in[k]);
        k += 1;
    }
    proof {
        assert(nll@ =~= seq!['N', 'L', 'L']);
        assert(coerced@.take(coerced@.len() as int) =~= coerced@);
        assert(coerced_in@.take(coerced_in@.len() as int) =~= coerced_in@);
        assert(inward@ =~= cleaned@.skip(len - 3));
        assert(out@ =~= fixed_of(s@));
    }
    out
}


// --- lemmas -------------------------------------------------------------------

/// The character a slot gives.
pub open spec fn coerce_char(p: char, c: char) -> char {
    if p == 'N' {
        to_number(c)
    } else if p == 'L' {
        to_letter(c)
    } else {
        c
    }
}

/// A slot character: `N`, `L` or `?`.
pub open spec fn is_slot(p: char) -> bool {
    p == 'N' || p == 'L' || p == '?'
}

/// No ASCII lowercase letter in `x`.
pub open spec fn no_lowercase(x: Seq<char>) -> bool {
    forall|k: int| 0 <= k < x.len() ==> !('a' <= #[trigger] x[k] && x[k] <= 'z')
}

/// Against a pattern of slots at least as long as the input, coercion maps
/// each character through its slot.
pub proof fn lemma_coerce_of_index(pat: Seq<char>, x: Seq<char>)
    requires
        x.len() <= pat.len(),
        forall|k: int| 0 <= k < x.len() ==> is_slot(#[trigger] pat[k]),
    ensures
        coerce_of(pat, x).len() == x.len(),
        forall|k: int| 0 <= k < x.len() ==> #[trigger] coerce_of(pat, x)[k] == coerce_char(pat[k], x[k]),
    decreases x.len(),
{
    if x.len() > 0 {
        let d = x.drop_last();
        lemma_coerce_of_index(pat, d);
        assert(is_slot(pat[x.len() - 1]));
        assert forall|k: int| 0 <= k < x.len() implies #[trigger] coerce_of(pat, x)[k] == coerce_char(
            pat[k],
            x[k],
        ) by {
            if k < x.len() - 1 {
                assert(d[k] == x[k]);
            }
        }
    }
}

/// Uppercasing keeps the classes of the fixable grammar.
pub proof fn lemma_upper_fix_classes(c: char)
    ensures
        is_letter_or_01(upper(c)) == is_letter_or_01(c),
        is_digit_oi(upper(c)) == is_digit_oi(c),
        plain_letter(upper(c)) == plain_letter(c),
        is_letter_or_digit(upper(c)) == is_letter_or_digit(c),
        !('a' <= upper(c) && upper(c) <= 'z'),
{
}

/// A text without lowercase letters is its own uppercase.
pub proof fn lemma_no_lowercase_upper(x: Seq<char>)
    requires
        no_lowercase(x),
    ensures
        upper_seq(x) == x,
{
    assert(upper_seq(x) =~= x);
}

/// An uppercase fixable outward code coerces to an uppercase outward code.
pub proof fn lemma_coerced_outcode_shape(u: Seq<char>)
    requires
        fixable_outcode(u),
        no_lowercase(u),
    ensures
        outcode_shape(coerced_outcode(u)),
        no_lowercase(coerced_outcode(u)),
        coerced_outcode(u).len() == u.len(),
{
    let p = if u.len() == 2 {
        seq!['L', 'N']
    } else if u.len() == 3 {
        pattern3_of(u)
    } else {
        seq!['L', 'L', 'N', '?']
    };
    assert(coerced_outcode(u) == coerce_of(p, u));
    lemma_coerce_of_index(p, u);
    let r = coerced_outcode(u);
    assert(no_lowercase(r)) by {
        assert forall|k: int| 0 <= k < r.len() implies !('a' <= #[trigger] r[k] && r[k] <= 'z') by {
            assert(!('a' <= u[k] && u[k] <= 'z'));
        }
    }
}

/// An uppercase fixable inward code coerces to an uppercase inward code.
pub proof fn lemma_coerced_incode_shape(u: Seq<char>)
    requires
        fixable_incode(u),
        no_lowercase(u),
    ensures
        incode_shape(coerce_of(seq!['N', 'L', 'L'], u)),
        no_lowercase(coerce_of(seq!['N', 'L', 'L'], u)),
{
    let p = seq!['N', 'L', 'L'];
    lemma_coerce_of_index(p, u);
    let r = coerce_of(p, u);
    assert(no_lowercase(r)) by {
        assert forall|k: int| 0 <= k < r.len() implies !('a' <= #[trigger] r[k] && r[k] <= 'z') by {
            assert(!('a' <= u[k] && u[k] <= 'z'));
        }
    }
}

} // verus!
