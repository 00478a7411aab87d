//! Round-trip invariants over a sample of real postcodes: every sample is
//! valid, `fix` leaves a normalised postcode untouched, and parsing is
//! insensitive to case and spacing.

use uk_postcode::{fix, parse};

fn samples() -> Vec<String> {
    [
        "SW1A 2AA", "L27 8XY", "NR10 3EZ", "EC1A 1BB", "W1A 0AX", "N1C 0AB", "NW1W 1AA",
        "M1 1AE", "B33 8TH", "CR2 6XH", "DN55 1PT", "E10 5NP", "CO1 1AA", "SO16 0AS",
    ]
    .iter()
    .map(|s| s.to_string())
    .collect()
}

#[test]
fn every_sample_is_valid() {
    for p in samples() {
        assert!(parse(&p).valid, "parse({p:?}).valid");
    }
}

#[test]
fn fix_never_changes_a_normalised_postcode() {
    for p in samples() {
        assert_eq!(fix(&p), p, "fix({p:?})");
    }
}

#[test]
fn parse_is_case_and_space_insensitive() {
    for p in samples() {
        let base = parse(&p);
        let lower = parse(&p.to_lowercase());
        // Drop the first whitespace run.
        let unspaced = p.replacen(' ', "", 1);
        let stripped = parse(&unspaced);

        assert_eq!(base.postcode, lower.postcode, "postcode {p:?}");
        assert_eq!(base.postcode, stripped.postcode, "postcode {p:?}");
        assert_eq!(base.incode, lower.incode, "incode {p:?}");
        assert_eq!(base.incode, stripped.incode, "incode {p:?}");
        assert_eq!(base.outcode, lower.outcode, "outcode {p:?}");
        assert_eq!(base.outcode, stripped.outcode, "outcode {p:?}");
        assert_eq!(base.area, lower.area, "area {p:?}");
        assert_eq!(base.area, stripped.area, "area {p:?}");
        assert_eq!(base.district, lower.district, "district {p:?}");
        assert_eq!(base.district, stripped.district, "district {p:?}");
        assert_eq!(base.sub_district, lower.sub_district, "sub_district {p:?}");
        assert_eq!(base.sub_district, stripped.sub_district, "sub_district {p:?}");
        assert_eq!(base.sector, lower.sector, "sector {p:?}");
        assert_eq!(base.sector, stripped.sector, "sector {p:?}");
        assert_eq!(base.unit, lower.unit, "unit {p:?}");
        assert_eq!(base.unit, stripped.unit, "unit {p:?}");
    }
}
