//! Coverage of the `parse` struct fields plus `valid_outcode`, `match_corpus`,
//! and `replace`.

use uk_postcode::{match_corpus, parse, replace, to_normalised, valid_outcode, Postcode};

const CORPUS: &str = "SW1A2Aa is the residence of the Prime Minister. SW1a 2AB is the residence of her no.2. SW1A   1AA is where the queen lives. They are located in the SW1A outcode";

#[test]
fn parse_invalid_shape() {
    let p = parse("foo");
    assert_eq!(p, Postcode::default());
    assert!(!p.valid);
    assert_eq!(p.postcode, None);
    assert_eq!(p.incode, None);
    assert_eq!(p.outcode, None);
    assert_eq!(p.area, None);
    assert_eq!(p.district, None);
    assert_eq!(p.sub_district, None);
    assert_eq!(p.sector, None);
    assert_eq!(p.unit, None);
}

#[test]
fn parse_valid_flag_over_fixture() {
    let cases: &[(&str, bool)] = &[
        ("SW1A 2AA", true),
        ("sw1a2aa", true),
        (" SW1A 2AA", false),
        ("GIR 0AA", false),
        ("Definitely wrong", false),
    ];
    for (base, expected) in cases {
        assert_eq!(parse(base).valid, *expected, "parse({:?}).valid", base);
    }
}

#[test]
fn parse_postcode_field_over_fixture() {
    let cases: &[(&str, Option<&str>)] = &[
        ("sw1a2aa", Some("SW1A 2AA")),
        ("L278XY", Some("L27 8XY")),
        ("Definitely wrong", None),
    ];
    for (base, expected) in cases {
        assert_eq!(
            parse(base).postcode,
            expected.map(|s| s.to_string()),
            "parse({:?}).postcode",
            base
        );
    }
    assert_eq!(parse("Definitly bogus").postcode, None);
}

#[test]
fn parse_incode_field_over_fixture() {
    for (base, expected) in [("L27 8XY", "8XY"), ("sw1a 2aa", "2AA")] {
        assert_eq!(parse(base).incode, Some(expected.to_string()));
    }
    assert_eq!(parse("Definitly bogus").incode, None);
}

#[test]
fn parse_outcode_field_over_fixture() {
    for (base, expected) in [("L27 8XY", "L27"), ("AA9A 9AA", "AA9A")] {
        assert_eq!(parse(base).outcode, Some(expected.to_string()));
    }
    assert_eq!(parse("Definitly bogus").outcode, None);
}

#[test]
fn parse_area_field_over_fixture() {
    for (base, expected) in [("L27 8XY", "L"), ("NR10 3EZ", "NR")] {
        assert_eq!(parse(base).area, Some(expected.to_string()));
    }
    assert_eq!(parse("Definitely bogus").area, None);
}

#[test]
fn parse_district_field_over_fixture() {
    for (base, expected) in [("AA9A 9AA", "AA9"), ("A99 9AA", "A99")] {
        assert_eq!(parse(base).district, Some(expected.to_string()));
    }
    assert_eq!(parse("Definitely bogus").district, None);
}

#[test]
fn parse_sub_district_field_over_fixture() {
    let cases: &[(&str, Option<&str>)] = &[("AA9A 9AA", Some("AA9A")), ("A9 9AA", None)];
    for (base, expected) in cases {
        assert_eq!(parse(base).sub_district, expected.map(|s| s.to_string()));
    }
    assert_eq!(parse("Definitely bogus").sub_district, None);
}

#[test]
fn parse_sector_field_over_fixture() {
    for (base, expected) in [("L27 8XY", "L27 8"), ("SW1A2AA", "SW1A 2")] {
        assert_eq!(parse(base).sector, Some(expected.to_string()));
    }
    assert_eq!(parse("Definitely bogus").sector, None);
}

#[test]
fn parse_unit_field_over_fixture() {
    for (base, expected) in [("L27 8XY", "XY"), ("sw1a 2aa", "AA")] {
        assert_eq!(parse(base).unit, Some(expected.to_string()));
    }
    assert_eq!(parse("Definitely bogus").unit, None);
}

#[test]
fn valid_outcode_true_for_every_fixture_outcode() {
    for outcode in ["L27", "AA9A", "NR10", "SW1A", "W1A", "M1", "B33", "CR2"] {
        assert!(valid_outcode(outcode), "valid_outcode({outcode:?})");
    }
}

#[test]
fn valid_outcode_false_for_garbage() {
    for code in ["BOGUS", "Hello there", "12345"] {
        assert!(!valid_outcode(code), "valid_outcode({code:?})");
    }
}

#[test]
fn match_returns_matching_postcodes() {
    let found = match_corpus(CORPUS);
    assert_eq!(found, vec!["SW1A2Aa", "SW1a 2AB", "SW1A   1AA"]);
    let normalised: Vec<_> = found.iter().map(|s| to_normalised(s)).collect();
    assert_eq!(
        normalised,
        vec![
            Some("SW1A 2AA".to_string()),
            Some("SW1A 2AB".to_string()),
            Some("SW1A 1AA".to_string()),
        ]
    );
}

#[test]
fn match_returns_empty_for_outcodes_only() {
    assert!(match_corpus("SW1 NW1 E1 E2").is_empty());
}

#[test]
fn replace_default_removes_postcodes() {
    let out = replace(CORPUS, "");
    assert_eq!(out.matches, vec!["SW1A2Aa", "SW1a 2AB", "SW1A   1AA"]);
    assert_eq!(
        out.result,
        " is the residence of the Prime Minister.  is the residence of her no.2.  is where the queen lives. They are located in the SW1A outcode"
    );
}

#[test]
fn replace_with_custom_string() {
    let out = replace(CORPUS, "POSTCODE");
    assert_eq!(out.matches, vec!["SW1A2Aa", "SW1a 2AB", "SW1A   1AA"]);
    assert_eq!(
        out.result,
        "POSTCODE is the residence of the Prime Minister. POSTCODE is the residence of her no.2. POSTCODE is where the queen lives. They are located in the SW1A outcode"
    );
}

#[test]
fn replace_no_match_leaves_corpus_unchanged() {
    let out = replace("SW1 NW1 E1 E2", "");
    assert!(out.matches.is_empty());
    assert_eq!(out.result, "SW1 NW1 E1 E2");
}
