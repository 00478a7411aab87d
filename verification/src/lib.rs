//! Parse, validate, and normalise UK postcodes.
//!
//! This crate checks the *shape* of a postcode. It does not look the postcode up
//! against a real list, so a string with a valid shape may still not name a real
//! place. A full check needs the Royal Mail or Ordnance Survey postcode data.
//!
//! Every function takes a `&str`. Validators return `bool`. Parsers return
//! `Option<String>` and yield `None` when the input is not a valid postcode.
//! [`parse`] returns a [`Postcode`] with every component at once.
//!
//! A postcode splits into an outward code and an inward code, here written with
//! `A` for a letter and `9` for a digit.
//!
//! | Schema     | outcode | incode | area | district | sub-district | sector   | unit |
//! |------------|---------|--------|------|----------|--------------|----------|------|
//! | `AA9A 9AA` | `AA9A`  | `9AA`  | `AA` | `AA9`    | `AA9A`       | `AA9A 9` | `AA` |
//! | `A9A 9AA`  | `A9A`   | `9AA`  | `A`  | `A9`     | `A9A`        | `A9A 9`  | `AA` |
//! | `A9 9AA`   | `A9`    | `9AA`  | `A`  | `A9`     | none         | `A9 9`   | `AA` |
//! | `A99 9AA`  | `A99`   | `9AA`  | `A`  | `A99`    | none         | `A99 9`  | `AA` |
//! | `AA9 9AA`  | `AA9`   | `9AA`  | `AA` | `AA9`    | none         | `AA9 9`  | `AA` |
//! | `AA99 9AA` | `AA99`  | `9AA`  | `AA` | `AA99`   | none         | `AA99 9` | `AA` |
//!
//! Modules:
//! - [`chars`]: character classes and string utilities;
//! - [`shape`]: the postcode grammar and the checks that decide it;
//! - [`postcode`]: validators, component parsers and [`parse`];
//! - [`corpus`]: finding and replacing postcodes in free text;
//! - [`fix`]: coercing commonly confused characters;
//! - [`laws`]: what holds across these functions, proved.
pub mod chars;
pub mod corpus;
pub mod fix;
pub mod laws;
pub mod postcode;
pub mod shape;

pub use corpus::{match_corpus, replace, ReplaceResult};
pub use fix::fix;
pub use postcode::{
    is_valid, is_valid_outcode, parse, to_area, to_district, to_incode, to_normalised, to_outcode,
    to_sector, to_sub_district, to_unit, valid_outcode, ParsePostcodeError, Postcode,
    ValidPostcode,
};
