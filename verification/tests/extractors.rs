//! The validator and the component extractors over tables of cases.

use uk_postcode::{
    is_valid, to_area, to_district, to_incode, to_normalised, to_outcode, to_sector,
    to_sub_district, to_unit,
};

#[test]
fn is_valid_over_validation_fixture() {
    let cases: &[(&str, bool)] = &[
        ("SW1A 2AA", true),
        ("sw1a2aa", true),
        ("SW1A  2AA", true),
        ("SW1A\t2AA", true),
        ("NR103EZ", true),
        ("L27 8XY", true),
        ("M1 1AE", true),
        (" SW1A 2AA", false),
        ("SW1A 2AA ", false),
        ("GIR 0AA", false),
        ("Definitely wrong", false),
        ("SW1A 2A", false),
        ("", false),
        ("1W1A 2AA", false),
    ];
    for (base, expected) in cases {
        assert_eq!(is_valid(base), *expected, "is_valid({:?})", base);
    }
}

#[test]
fn to_normalised_over_fixture() {
    let cases: &[(&str, Option<&str>)] = &[
        ("sw1a2aa", Some("SW1A 2AA")),
        ("L278XY", Some("L27 8XY")),
        ("NR10  3ez", Some("NR10 3EZ")),
        ("Sw1A 2aa", Some("SW1A 2AA")),
        ("Definitely wrong", None),
    ];
    for (base, expected) in cases {
        assert_eq!(
            to_normalised(base),
            expected.map(|s| s.to_string()),
            "to_normalised({:?})",
            base
        );
    }
    assert_eq!(to_normalised("Definitly bogus"), None);
}

#[test]
fn to_incode_over_fixture() {
    let cases: &[(&str, &str)] = &[("L27 8XY", "8XY"), ("sw1a 2aa", "2AA"), ("NR103EZ", "3EZ")];
    for (base, expected) in cases {
        assert_eq!(to_incode(base), Some(expected.to_string()), "to_incode({:?})", base);
    }
    assert_eq!(to_incode("Definitly bogus"), None);
}

#[test]
fn to_outcode_over_fixture() {
    let cases: &[(&str, &str)] = &[("L27 8XY", "L27"), ("AA9A 9AA", "AA9A"), ("nr103ez", "NR10")];
    for (base, expected) in cases {
        assert_eq!(to_outcode(base), Some(expected.to_string()), "to_outcode({:?})", base);
    }
    assert_eq!(to_outcode("Definitly bogus"), None);
}

#[test]
fn to_area_over_fixture() {
    let cases: &[(&str, &str)] =
        &[("L27 8XY", "L"), ("NR10 3EZ", "NR"), ("SW1A 2AA", "SW"), ("w1a 0ax", "W")];
    for (base, expected) in cases {
        assert_eq!(to_area(base), Some(expected.to_string()), "to_area({:?})", base);
    }
    assert_eq!(to_area("Definitely bogus"), None);
}

#[test]
fn to_district_over_fixture() {
    let cases: &[(&str, &str)] = &[
        ("AA9A 9AA", "AA9"),
        ("A99 9AA", "A99"),
        ("SW1A 2AA", "SW1"),
        ("EC1A1BB", "EC1"),
        ("L27 8XY", "L27"),
    ];
    for (base, expected) in cases {
        assert_eq!(to_district(base), Some(expected.to_string()), "to_district({:?})", base);
    }
    assert_eq!(to_district("Definitely bogus"), None);
}

#[test]
fn to_sub_district_over_fixture() {
    let cases: &[(&str, Option<&str>)] = &[
        ("AA9A 9AA", Some("AA9A")),
        ("A9 9AA", None),
        ("w1a 0ax", Some("W1A")),
        ("NR10 3EZ", None),
    ];
    for (base, expected) in cases {
        assert_eq!(
            to_sub_district(base),
            expected.map(|s| s.to_string()),
            "to_sub_district({:?})",
            base
        );
    }
    assert_eq!(to_sub_district("Definitely bogus"), None);
}

#[test]
fn to_sector_over_fixture() {
    let cases: &[(&str, &str)] =
        &[("L27 8XY", "L27 8"), ("SW1A2AA", "SW1A 2"), ("nr103ez", "NR10 3")];
    for (base, expected) in cases {
        assert_eq!(to_sector(base), Some(expected.to_string()), "to_sector({:?})", base);
    }
    assert_eq!(to_sector("Definitely bogus"), None);
}

#[test]
fn to_unit_over_fixture() {
    let cases: &[(&str, &str)] = &[("L27 8XY", "XY"), ("sw1a 2aa", "AA"), ("NR103EZ", "EZ")];
    for (base, expected) in cases {
        assert_eq!(to_unit(base), Some(expected.to_string()), "to_unit({:?})", base);
    }
    assert_eq!(to_unit("Definitely bogus"), None);
}
