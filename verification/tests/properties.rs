//! Concrete instances of the library's laws, edge cases and exact values.

use uk_postcode::{
    fix, is_valid, is_valid_outcode, match_corpus, parse, replace, to_area, to_district,
    to_incode, to_normalised, to_outcode, to_sector, to_sub_district, to_unit, ParsePostcodeError,
    Postcode,
};

#[test]
fn normalised_form_parses_to_the_same_components() {
    for input in ["sw1a2aa", "L278XY", "nr10\u{3000}3ez", "Ec1A 1bB"] {
        let once = to_normalised(input).expect("valid postcode");
        assert_eq!(parse(&once), parse(input), "{input:?}");
        assert_eq!(to_normalised(&once), Some(once.clone()));
    }
}

#[test]
fn parse_ignores_case() {
    assert_eq!(parse("Sw1A 2aA"), parse("SW1A 2AA"));
    assert_eq!(parse("sw1a 2aa"), parse("SW1A 2AA"));
    assert_eq!(parse("foo"), parse("FOO"));
}

#[test]
fn parse_ignores_the_separator() {
    let base = parse("SW1A2AA");
    for input in ["SW1A 2AA", "SW1A   2AA", "SW1A\u{3000}\u{2028}2AA", "SW1A\t\n2AA"] {
        assert_eq!(parse(input), base, "{input:?}");
    }
}

#[test]
fn outcode_of_a_valid_postcode_is_a_valid_outcode() {
    for input in ["sw1a 2aa", "L27 8XY", "M1 1AE", "nr103ez"] {
        let outcode = to_outcode(input).expect("valid postcode");
        assert!(is_valid_outcode(&outcode), "{outcode:?}");
        let incode = to_incode(input).expect("valid postcode");
        assert_eq!(incode.len(), 3);
    }
}

#[test]
fn surrounding_whitespace_is_invalid() {
    for input in ["\u{FEFF}SW1A 2AA", "SW1A 2AA\u{00A0}", "\tSW1A 2AA", "SW1A 2AA\n"] {
        assert!(!is_valid(input), "{input:?}");
        assert!(!parse(input).valid, "{input:?}");
    }
}

#[test]
fn every_match_is_a_valid_postcode() {
    let corpus = "a SW1A2Aa, b L27  8xy c NR103EZ9 d AB1 e m1 1ae!";
    let found = match_corpus(corpus);
    assert_eq!(found, vec!["SW1A2Aa", "L27  8xy", "NR103EZ", "m1 1ae"]);
    for m in &found {
        assert!(is_valid(m), "{m:?}");
    }
}

#[test]
fn a_postcode_alone_matches_itself() {
    for input in ["RG45AY", "SW1A 2AA", "M1 1AE", "AA99\u{3000}9AA"] {
        assert_eq!(match_corpus(input), vec![input.to_string()]);
        assert_eq!(replace(input, "X").result, "X");
    }
}

#[test]
fn replace_without_matches_is_identity() {
    for input in ["hello", "SW1 NW1", "", "1AA SW"] {
        let out = replace(input, "X");
        assert!(out.matches.is_empty());
        assert_eq!(out.result, input);
    }
}

#[test]
fn replace_agrees_with_match_corpus() {
    let corpus = "x SW1A 2AA y EC1A1BB z";
    let out = replace(corpus, "<>");
    assert_eq!(out.matches, match_corpus(corpus));
    assert_eq!(out.result, "x <> y <> z");
}

#[test]
fn fix_gives_a_normalised_postcode() {
    for input in [" sw1a2aa ", "SWO OAA", "SOA OAA", "S01 OAA", "SOO 1AA", "0I 1OO", "IO1O 1OI"] {
        let fixed = fix(input);
        assert!(is_valid(&fixed), "{fixed:?} from {input:?}");
        assert_eq!(to_normalised(&fixed), Some(fixed.clone()), "{input:?}");
    }
}

#[test]
fn fix_exact_values() {
    assert_eq!(fix("SOO 1AA"), "SO0 1AA");
    assert_eq!(fix("0I 1OO"), "O1 1OO");
    assert_eq!(fix("IO1O 1OI"), "IO1O 1OI");
    assert_eq!(fix("s01 oaa"), "SO1 0AA");
    assert_eq!(fix("\u{3000}sw1a\u{3000}2aa\u{3000}"), "SW1A 2AA");
}

#[test]
fn fix_only_normalises_a_valid_postcode() {
    // An input that already is a postcode is not coerced, even where the
    // coercion would read a `0` as the letter `O`.
    assert!(is_valid("S01 0AA"));
    assert_eq!(fix("S01 0AA"), "S01 0AA");
    assert_eq!(fix(" s01  0aa "), "S01 0AA");
    assert_eq!(fix("S01 OAA"), "SO1 0AA");
    assert_eq!(fix("E10 5NP"), "E10 5NP");
}

#[test]
fn fix_is_idempotent() {
    for input in [
        " SW1A 2AA ", "S01 OAA", "SWO OAA", "hello", " 1A2aa ", "SOO 1AA", "", "01 OAA",
    ] {
        let once = fix(input);
        assert_eq!(fix(&once), once, "{input:?}");
    }
}

#[test]
fn from_str_parses_valid_and_rejects_invalid() {
    let p: Postcode = "sw1a2aa".parse().expect("valid postcode");
    assert!(p.is_valid());
    assert_eq!(p.postcode.as_deref(), Some("SW1A 2AA"));
    let e: Result<Postcode, ParsePostcodeError> = "foo".parse();
    assert_eq!(e, Err(ParsePostcodeError));
}

#[test]
fn to_string_writes_the_normalised_postcode() {
    assert_eq!(parse("sw1a2aa").to_string(), "SW1A 2AA");
    assert_eq!(parse("foo").to_string(), "");
    let v = parse("l278xy").valid().expect("valid postcode");
    assert_eq!(v.to_string(), "L27 8XY");
    assert!(parse("foo").valid().is_none());
}

#[test]
fn outcode_shapes() {
    for (code, expected) in [
        ("A9", true),
        ("A99", true),
        ("A9A", true),
        ("AA9", true),
        ("AA99", true),
        ("AA9A", true),
        ("sw1a", true),
        ("A", false),
        ("AAA9", false),
        ("A9A9", false),
        ("9A", false),
        ("SW1A ", false),
        ("", false),
    ] {
        assert_eq!(is_valid_outcode(code), expected, "{code:?}");
    }
}

#[test]
fn components_by_schema() {
    // (postcode, outcode, incode, area, district, sub-district, sector, unit)
    let rows: [(&str, &str, &str, &str, &str, Option<&str>, &str, &str); 6] = [
        ("AA9A 9AA", "AA9A", "9AA", "AA", "AA9", Some("AA9A"), "AA9A 9", "AA"),
        ("A9A 9AA", "A9A", "9AA", "A", "A9", Some("A9A"), "A9A 9", "AA"),
        ("A9 9AA", "A9", "9AA", "A", "A9", None, "A9 9", "AA"),
        ("A99 9AA", "A99", "9AA", "A", "A99", None, "A99 9", "AA"),
        ("AA9 9AA", "AA9", "9AA", "AA", "AA9", None, "AA9 9", "AA"),
        ("AA99 9AA", "AA99", "9AA", "AA", "AA99", None, "AA99 9", "AA"),
    ];
    for (pc, out, inc, area, district, sub, sector, unit) in rows {
        assert_eq!(to_outcode(pc).as_deref(), Some(out));
        assert_eq!(to_incode(pc).as_deref(), Some(inc));
        assert_eq!(to_area(pc).as_deref(), Some(area));
        assert_eq!(to_district(pc).as_deref(), Some(district));
        assert_eq!(to_sub_district(pc).as_deref(), sub);
        assert_eq!(to_sector(pc).as_deref(), Some(sector));
        assert_eq!(to_unit(pc).as_deref(), Some(unit));
        let p = parse(pc);
        assert_eq!(p.outcode.as_deref(), Some(out));
        assert_eq!(p.area.as_deref(), Some(area));
        assert_eq!(p.district.as_deref(), Some(district));
        assert_eq!(p.sub_district.as_deref(), sub);
        assert_eq!(p.sector.as_deref(), Some(sector));
        assert_eq!(p.unit.as_deref(), Some(unit));
    }
}

#[test]
fn postcode_default_is_invalid_and_empty() {
    let d = Postcode::default();
    assert!(!d.is_valid());
    assert_eq!(d, parse("nope"));
}

#[test]
fn error_message() {
    assert_eq!(ParsePostcodeError.to_string(), "invalid postcode");
}

#[test]
fn valid_needs_every_component() {
    let mut p = parse("SW1A 2AA");
    assert!(p.valid().is_some());
    p.sector = None;
    assert!(p.valid().is_none());
    assert!(!p.is_valid());
    let mut q = parse("SW1A 2AA");
    q.valid = false;
    assert!(q.valid().is_none());
    assert_eq!(q.to_string(), "");
}

/// Char ranges of the matches, located in order in the corpus.
fn match_ranges(corpus: &str) -> Vec<(usize, usize)> {
    let chars: Vec<char> = corpus.chars().collect();
    let mut out = Vec::new();
    let mut from = 0;
    for m in match_corpus(corpus) {
        let mc: Vec<char> = m.chars().collect();
        let mut i = from;
        while chars[i..i + mc.len()] != mc[..] {
            i += 1;
        }
        out.push((i, i + mc.len()));
        from = i + mc.len();
    }
    out
}

#[test]
fn match_corpus_misses_no_postcode_and_takes_the_longest() {
    for corpus in [
        "xxSW1A 2AAyy and AB12 3CD, RG45AY; m1 1ae\u{3000}E10\u{00A0}5NP",
        "A12AB 3CD SW12AA",
        "SW1 NW1 E1 E2 1AA",
    ] {
        let chars: Vec<char> = corpus.chars().collect();
        let ranges = match_ranges(corpus);
        for p in 0..chars.len() {
            for q in p..=chars.len() {
                let sub: String = chars[p..q].iter().collect();
                if is_valid(&sub) {
                    assert!(
                        ranges.iter().any(|&(s, e)| s <= p && p < e),
                        "{sub:?} at {p} in {corpus:?}"
                    );
                    if let Some(&(_, e)) = ranges.iter().find(|&&(s, _)| s == p) {
                        assert!(q <= e, "{sub:?} longer than the match at {p}");
                    }
                }
            }
        }
    }
}
