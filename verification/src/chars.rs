//! Character classes and the small string utilities the rest of the crate builds on.
//!
//! The shape grammars use ASCII letters and digits only; letters fold case.
//! Whitespace is a fixed set of code points (see [`is_js_space`]).
use vstd::prelude::*;

verus! {

/// Whether `c` is an ASCII letter.
#[verifier::allow_in_spec]
pub fn is_letter(c: char) -> bool
    returns
        ('a' <= c && c <= 'z') || ('A' <= c && c <= 'Z'),
{
    ('a' <= c && c <= 'z') || ('A' <= c && c <= 'Z')
}

/// Whether `c` is an ASCII digit.
#[verifier::allow_in_spec]
pub fn is_digit(c: char) -> bool
    returns
        '0' <= c && c <= '9',
{
    '0' <= c && c <= '9'
}

/// Whether `c` is an ASCII letter or digit.
#[verifier::allow_in_spec]
pub fn is_letter_or_digit(c: char) -> bool
    returns
        is_letter(c) || is_digit(c),
{
    is_letter(c) || is_digit(c)
}

/// Whether `c` counts as whitespace for sanitising and shape checks.
///
/// The set covers the ASCII controls tab through carriage return, the regular
/// space, the no-break space, the ogham space mark, en quad through hair space,
/// the line and paragraph separators, the narrow no-break space, the medium
/// mathematical space, the ideographic space and the byte order mark.
#[verifier::allow_in_spec]
pub fn is_js_space(c: char) -> bool
    returns
        ('\u{0009}' <= c && c <= '\u{000D}') || c == '\u{0020}' || c == '\u{00A0}' || c
            == '\u{1680}' || ('\u{2000}' <= c && c <= '\u{200A}') || c == '\u{2028}' || c
            == '\u{2029}' || c == '\u{202F}' || c == '\u{205F}' || c == '\u{3000}' || c
            == '\u{FEFF}',
{
    ('\u{0009}' <= c && c <= '\u{000D}') || c == '\u{0020}' || c == '\u{00A0}' || c == '\u{1680}'
        || ('\u{2000}' <= c && c <= '\u{200A}') || c == '\u{2028}' || c == '\u{2029}' || c
        == '\u{202F}' || c == '\u{205F}' || c == '\u{3000}' || c == '\u{FEFF}'
}

/// The ASCII uppercase of `c`; every other character is left alone.
pub open spec fn upper(c: char) -> char {
    if 'a' <= c && c <= 'z' {
        ((c as u32) - 32) as char
    } else {
        c
    }
}

/// The ASCII uppercase of every character of `s`.
pub open spec fn upper_seq(s: Seq<char>) -> Seq<char> {
    s.map_values(|c: char| upper(c))
}

/// ASCII uppercasing of one character.
pub(crate) fn to_ascii_upper(c: char) -> (r: char)
    ensures
        r == upper(c),
{
    if 'a' <= c && c <= 'z' {
        ((c as u8) - 32) as char
    } else {
        c
    }
}

/// Uppercasing keeps the letter and digit classes and the whitespace set, and
/// is idempotent.
pub proof fn lemma_upper_char(c: char)
    ensures
        is_letter(upper(c)) == is_letter(c),
        is_digit(upper(c)) == is_digit(c),
        is_js_space(upper(c)) == is_js_space(c),
        upper(upper(c)) == upper(c),
        is_digit(c) ==> upper(c) == c,
        is_js_space(c) ==> upper(c) == c,
{
}

/// `upper_seq` distributes over concatenation and is idempotent.
pub proof fn lemma_upper_seq_add(a: Seq<char>, b: Seq<char>)
    ensures
        upper_seq(a + b) == upper_seq(a) + upper_seq(b),
{
    assert(upper_seq(a + b) =~= upper_seq(a) + upper_seq(b));
}

/// `upper_seq` is idempotent.
pub proof fn lemma_upper_seq_idem(a: Seq<char>)
    ensures
        upper_seq(upper_seq(a)) == upper_seq(a),
{
    assert forall|k: int| 0 <= k < a.len() implies upper_seq(upper_seq(a))[k] == upper_seq(a)[k] by {
        lemma_upper_char(a[k]);
    }
    assert(upper_seq(upper_seq(a)) =~= upper_seq(a));
}

/// Append one character to a `String`.
///
/// Trusted: calls std's `String::push`. The contract claims what its
/// documentation says: the string afterwards is the string before with `c`
/// appended at its end.
#[verifier::external_body]
pub(crate) fn push_char(s: &mut String, c: char)
    ensures
        final(s)@ == old(s)@.push(c),
{
    s.push(c);
}

/// The characters of `s`, in order.
pub(crate) fn chars_of(s: &str) -> (v: Vec<char>)
    ensures
        v@ == s@,
{
    let mut v: Vec<char> = Vec::new();
    for c in it: s.chars()
        invariant
            v@ == it.seq().take(it.index() as int),
    {
        v.push(c);
    }
    v
}

/// A new `String` holding `v[from..to]`.
pub(crate) fn string_from(v: &Vec<char>, from: usize, to: usize) -> (r: String)
    requires
        from <= to <= v@.len(),
    ensures
        r@ == v@.subrange(from as int, to as int),
{
    let mut r = String::new();
    let mut i = from;
    while i < to
        invariant
            from <= i <= to <= v@.len(),
            r@ == v@.subrange(from as int, i as int),
        decreases to - i,
    {
        push_char(&mut r, v[i]);
        assert(v@.subrange(from as int, i + 1) =~= v@.subrange(from as int, i as int).push(v@[i as int]));
        i += 1;
    }
    r
}

} // verus!
