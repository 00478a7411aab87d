//! The public validators and component parsers, and the types they return.
use vstd::prelude::*;
use crate::chars::{chars_of, is_letter, lemma_upper_char, push_char, string_from, upper_seq};
use vstd::string::StringExecFns;
use crate::shape::{
    district_split, district_split_of, incode_shape, lemma_sanitized_postcode, matches_outcode,
    matches_postcode, outcode_shape, postcode_shape, raw_incode, raw_outcode, sanitize, sanitized,
    split_sanitized,
};

verus! {

// --- model ------------------------------------------------------------------

/// The outward code of a postcode, uppercased and without whitespace.
pub open spec fn outcode_of(s: Seq<char>) -> Seq<char> {
    upper_seq(raw_outcode(s))
}

/// The inward code of a postcode, uppercased.
pub open spec fn incode_of(s: Seq<char>) -> Seq<char> {
    upper_seq(raw_incode(s))
}

/// The normalised postcode: outward code, a single space, inward code.
pub open spec fn normalised_of(s: Seq<char>) -> Seq<char> {
    outcode_of(s) + seq![' '] + incode_of(s)
}

/// The postcode area: the leading one or two letters of the outward code.
pub open spec fn area_of(s: Seq<char>) -> Seq<char> {
    let o = outcode_of(s);
    if is_letter(o[1]) {
        o.take(2)
    } else {
        o.take(1)
    }
}

/// The postcode district: the outward code without a trailing letter.
pub open spec fn district_of(s: Seq<char>) -> Seq<char> {
    let o = outcode_of(s);
    if is_letter(o.last()) {
        o.drop_last()
    } else {
        o
    }
}

/// The postcode sub-district: the whole outward code when it ends in a letter.
pub open spec fn sub_district_of(s: Seq<char>) -> Option<Seq<char>> {
    let o = outcode_of(s);
    if is_letter(o.last()) {
        Some(o)
    } else {
        None
    }
}

/// The postcode sector: outward code, a single space, the inward code's digit.
pub open spec fn sector_of(s: Seq<char>) -> Seq<char> {
    outcode_of(s) + seq![' ', incode_of(s)[0]]
}

/// The postcode unit: the final two letters.
pub open spec fn unit_of(s: Seq<char>) -> Seq<char> {
    incode_of(s).skip(1)
}

/// `Some(x)` when `s` is a postcode, else `None`.
pub open spec fn when_valid(s: Seq<char>, x: Seq<char>) -> Option<Seq<char>> {
    if postcode_shape(s) {
        Some(x)
    } else {
        None
    }
}

/// What [`parse`] gives for `s`, as plain values.
pub open spec fn parse_of(s: Seq<char>) -> PostcodeView {
    PostcodeView {
        valid: postcode_shape(s),
        postcode: when_valid(s, normalised_of(s)),
        incode: when_valid(s, incode_of(s)),
        outcode: when_valid(s, outcode_of(s)),
        area: when_valid(s, area_of(s)),
        district: when_valid(s, district_of(s)),
        sub_district: if postcode_shape(s) {
            sub_district_of(s)
        } else {
            None
        },
        sector: when_valid(s, sector_of(s)),
        unit: when_valid(s, unit_of(s)),
    }
}

/// The fields of a [`Postcode`], as plain values.
pub ghost struct PostcodeView {
    pub valid: bool,
    pub postcode: Option<Seq<char>>,
    pub incode: Option<Seq<char>>,
    pub outcode: Option<Seq<char>>,
    pub area: Option<Seq<char>>,
    pub district: Option<Seq<char>>,
    pub sub_district: Option<Seq<char>>,
    pub sector: Option<Seq<char>>,
    pub unit: Option<Seq<char>>,
}

// --- types ------------------------------------------------------------------

/// The result of parsing a postcode candidate.
///
/// `valid` tells whether the candidate had a valid postcode shape. When it did,
/// every component is `Some`, except `sub_district`, which is `Some` only when
/// the outward code ends in a letter. When it did not, every component is `None`.
///
/// Build one with [`parse`].
#[derive(Debug, Clone, PartialEq, Eq)]
pub struct Postcode {
    /// Whether the candidate had a valid postcode shape.
    pub valid: bool,
    /// Normalised postcode, uppercased with a single space, for example `SW1A 2AA`.
    pub postcode: Option<String>,
    /// Inward code, for example `2AA`.
    pub incode: Option<String>,
    /// Outward code, for example `SW1A`.
    pub outcode: Option<String>,
    /// Postcode area, the leading one or two letters, for example `SW`.
    pub area: Option<String>,
    /// Postcode district, for example `SW1`.
    pub district: Option<String>,
    /// Postcode sub-district, present only when the outcode ends in a letter.
    pub sub_district: Option<String>,
    /// Postcode sector, the outcode plus the first incode digit, for example `SW1A 2`.
    pub sector: Option<String>,
    /// Postcode unit, the final two letters, for example `AA`.
    pub unit: Option<String>,
}

impl View for Postcode {
    type V = PostcodeView;

    open spec fn view(&self) -> PostcodeView {
        PostcodeView {
            valid: self.valid,
            postcode: self.postcode.deep_view(),
            incode: self.incode.deep_view(),
            outcode: self.outcode.deep_view(),
            area: self.area.deep_view(),
            district: self.district.deep_view(),
            sub_district: self.sub_district.deep_view(),
            sector: self.sector.deep_view(),
            unit: self.unit.deep_view(),
        }
    }
}

/// The components of a valid postcode.
///
/// Every field is filled except `sub_district`, which is `Some` only when the
/// outcode ends in a letter.
#[derive(Debug, Clone, PartialEq, Eq)]
pub struct ValidPostcode {
    /// Normalised postcode, uppercased with a single space, for example `SW1A 2AA`.
    pub postcode: String,
    /// Inward code, for example `2AA`.
    pub incode: String,
    /// Outward code, for example `SW1A`.
    pub outcode: String,
    /// Postcode area, the leading one or two letters, for example `SW`.
    pub area: String,
    /// Postcode district, for example `SW1`.
    pub district: String,
    /// Postcode sub-district, present only when the outcode ends in a letter.
    pub sub_district: Option<String>,
    /// Postcode sector, the outcode plus the first incode digit, for example `SW1A 2`.
    pub sector: String,
    /// Postcode unit, the final two letters, for example `AA`.
    pub unit: String,
}

/// The error from parsing a string that is not a valid postcode.
#[derive(Debug, Clone, PartialEq, Eq)]
pub struct ParsePostcodeError;

fn clone_opt(o: &Option<String>) -> (r: Option<String>)
    ensures
        r == *o,
{
    match o {
        Some(s) => Some(s.clone()),
        None => None,
    }
}

impl Default for Postcode {
    /// The result for an invalid candidate: not valid, every component `None`.
    fn default() -> (r: Postcode)
        ensures
            !r.valid,
            r.postcode is None && r.incode is None && r.outcode is None && r.area is None,
            r.district is None && r.sub_district is None && r.sector is None && r.unit is None,
    {
        Postcode {
            valid: false,
            postcode: None,
            incode: None,
            outcode: None,
            area: None,
            district: None,
            sub_district: None,
            sector: None,
            unit: None,
        }
    }
}

impl Postcode {
    /// Return `true` when the candidate parsed to a valid postcode: `valid`
    /// is set and every always-present component is filled.
    pub fn is_valid(&self) -> (r: bool)
        ensures
            r == (self.valid && self.postcode is Some && self.incode is Some && self.outcode is Some
                && self.area is Some && self.district is Some && self.sector is Some
                && self.unit is Some),
    {
        self.valid && self.postcode.is_some() && self.incode.is_some() && self.outcode.is_some()
            && self.area.is_some() && self.district.is_some() && self.sector.is_some()
            && self.unit.is_some()
    }

    /// Return the components when valid, or `None` when invalid.
    ///
    /// `Some` exactly when `valid` is set and every always-present component
    /// is filled.
    pub fn valid(&self) -> (r: Option<ValidPostcode>)
        ensures
            r is Some <==> (self.valid && self.postcode is Some && self.incode is Some
                && self.outcode is Some && self.area is Some && self.district is Some
                && self.sector is Some && self.unit is Some),
            r matches Some(v) ==> {
                &&& Some(v.postcode) == self.postcode
                &&& Some(v.incode) == self.incode
                &&& Some(v.outcode) == self.outcode
                &&& Some(v.area) == self.area
                &&& Some(v.district) == self.district
                &&& v.sub_district == self.sub_district
                &&& Some(v.sector) == self.sector
                &&& Some(v.unit) == self.unit
            },
    {
        if !self.valid {
            return None;
        }
        match (&self.postcode, &self.incode, &self.outcode, &self.area) {
            (Some(postcode), Some(incode), Some(outcode), Some(area)) => {
                match (&self.district, &self.sector, &self.unit) {
                    (Some(district), Some(sector), Some(unit)) => Some(
                        ValidPostcode {
                            postcode: postcode.clone(),
                            incode: incode.clone(),
                            outcode: outcode.clone(),
                            area: area.clone(),
                            district: district.clone(),
                            sub_district: clone_opt(&self.sub_district),
                            sector: sector.clone(),
                            unit: unit.clone(),
                        },
                    ),
                    _ => None,
                }
            },
            _ => None,
        }
    }

    /// The normalised postcode when valid, or the empty string when invalid.
    pub fn to_string(&self) -> (r: String)
        ensures
            r@ == (if self.valid && self.postcode is Some {
                self.postcode.unwrap()@
            } else {
                Seq::<char>::empty()
            }),
    {
        if self.valid {
            match &self.postcode {
                Some(p) => p.clone(),
                None => String::new(),
            }
        } else {
            String::new()
        }
    }
}

impl ParsePostcodeError {
    /// The error message, `invalid postcode`.
    pub fn to_string(&self) -> (r: String)
        ensures
            r@ == "invalid postcode"@,
    {
        "invalid postcode".to_owned()
    }
}

impl ValidPostcode {
    /// The normalised postcode, for example `SW1A 2AA`.
    pub fn to_string(&self) -> (r: String)
        ensures
            r@ == self.postcode@,
    {
        self.postcode.clone()
    }
}


// --- lemmas -------------------------------------------------------------------

/// Uppercasing keeps the outward and inward code grammars.
pub proof fn lemma_shapes_upper(o: Seq<char>)
    ensures
        outcode_shape(upper_seq(o)) == outcode_shape(o),
        incode_shape(upper_seq(o)) == incode_shape(o),
{
    if o.len() > 0 {
        lemma_upper_char(o[0]);
    }
    if o.len() > 1 {
        lemma_upper_char(o[1]);
    }
    if o.len() > 2 {
        lemma_upper_char(o[2]);
    }
    if o.len() > 3 {
        lemma_upper_char(o[3]);
    }
}

/// The pieces of a postcode, once sanitised, are an outward and an inward code.
pub proof fn lemma_components(s: Seq<char>)
    requires
        postcode_shape(s),
    ensures
        sanitized(s) == outcode_of(s) + incode_of(s),
        outcode_shape(outcode_of(s)),
        incode_shape(incode_of(s)),
        2 <= outcode_of(s).len() <= 4,
        incode_of(s).len() == 3,
        sanitized(s).len() == outcode_of(s).len() + 3,
{
    lemma_sanitized_postcode(s);
    lemma_shapes_upper(raw_outcode(s));
    lemma_shapes_upper(raw_incode(s));
}

/// On an outward code, the district split happens exactly when it ends in a letter.
pub proof fn lemma_district_split(o: Seq<char>)
    requires
        outcode_shape(o),
    ensures
        district_split_of(o) == (if is_letter(o.last()) {
            Some(o.drop_last())
        } else {
            None
        }),
{
    assert(o.take(o.len() - 1) =~= o.drop_last());
}

// --- public validators -----------------------------------------------------

/// Return `true` when `postcode` has a valid postcode shape.
///
/// Tests the raw input. Leading or trailing whitespace fails. Whitespace between
/// the outward and inward codes is allowed, including none.
pub fn is_valid(postcode: &str) -> (r: bool)
    ensures
        r == postcode_shape(postcode@),
{
    let v = chars_of(postcode);
    matches_postcode(&v)
}

/// Return `true` when `outcode` is a valid outward code.
///
/// Tests the raw input against `[a-z]{1,2}\d[a-z\d]?`. No whitespace is allowed.
pub fn is_valid_outcode(outcode: &str) -> (r: bool)
    ensures
        r == outcode_shape(outcode@),
{
    let v = chars_of(outcode);
    proof {
        assert(v@.take(v@.len() as int) =~= v@);
    }
    matches_outcode(&v, v.len())
}

/// Return `true` when `outcode` is a valid outward code; the same check as
/// [`is_valid_outcode`].
pub fn valid_outcode(outcode: &str) -> (r: bool)
    ensures
        r == outcode_shape(outcode@),
{
    is_valid_outcode(outcode)
}

// --- public parsers --------------------------------------------------------

/// Return the normalised postcode: outcode, a single space, then incode.
///
/// Returns `None` for an invalid postcode.
pub fn to_normalised(postcode: &str) -> (r: Option<String>)
    ensures
        r.deep_view() == when_valid(postcode@, normalised_of(postcode@)),
{
    let mut outcode = match to_outcode(postcode) {
        Some(o) => o,
        None => return None,
    };
    let incode = match to_incode(postcode) {
        Some(i) => i,
        None => return None,
    };
    push_char(&mut outcode, ' ');
    outcode.append(incode.as_str());
    Some(outcode)
}

/// Return the outward code, uppercased and space stripped.
///
/// Returns `None` for an invalid postcode.
pub fn to_outcode(postcode: &str) -> (r: Option<String>)
    ensures
        r.deep_view() == when_valid(postcode@, outcode_of(postcode@)),
{
    if !is_valid(postcode) {
        return None;
    }
    let v = chars_of(postcode);
    let sanitized = sanitize(&v);
    proof {
        lemma_components(postcode@);
    }
    let (outcode, _) = split_sanitized(&sanitized);
    proof {
        assert(sanitized@.take(sanitized@.len() - 3) =~= outcode_of(postcode@));
    }
    Some(outcode)
}

/// Return the inward code, uppercased.
///
/// Returns `None` for an invalid postcode.
pub fn to_incode(postcode: &str) -> (r: Option<String>)
    ensures
        r.deep_view() == when_valid(postcode@, incode_of(postcode@)),
{
    if !is_valid(postcode) {
        return None;
    }
    let v = chars_of(postcode);
    let sanitized = sanitize(&v);
    proof {
        lemma_components(postcode@);
    }
    let (_, incode) = split_sanitized(&sanitized);
    proof {
        assert(sanitized@.skip(sanitized@.len() - 3) =~= incode_of(postcode@));
    }
    Some(incode)
}

/// Return the postcode area, the leading one or two letters.
///
/// Returns `None` for an invalid postcode.
pub fn to_area(postcode: &str) -> (r: Option<String>)
    ensures
        r.deep_view() == when_valid(postcode@, area_of(postcode@)),
{
    if !is_valid(postcode) {
        return None;
    }
    let v = chars_of(postcode);
    let sanitized = sanitize(&v);
    let ghost o = outcode_of(postcode@);
    proof {
        lemma_components(postcode@);
        assert(sanitized@[0] == o[0]);
        assert(sanitized@[1] == o[1]);
    }
    let mut end: usize = 0;
    while end < sanitized.len() && end < 2 && is_letter(sanitized[end])
        invariant
            end <= 2,
            sanitized@ == o + incode_of(postcode@),
            forall|k: int| 0 <= k < end ==> is_letter(#[trigger] sanitized@[k]),
        decreases 2 - end,
    {
        end += 1;
    }
    proof {
        assert(is_letter(o[0]));
        assert(end >= 1);
        assert(end == 2 ==> is_letter(o[1]));
        assert(sanitized@.subrange(0, end as int) =~= o.take(end as int));
    }
    Some(string_from(&sanitized, 0, end))
}

/// Return the postcode sector: outcode, a single space, then the first incode digit.
///
/// Returns `None` for an invalid postcode.
pub fn to_sector(postcode: &str) -> (r: Option<String>)
    ensures
        r.deep_view() == when_valid(postcode@, sector_of(postcode@)),
{
    let mut outcode = match to_outcode(postcode) {
        Some(o) => o,
        None => return None,
    };
    let incode = match to_incode(postcode) {
        Some(i) => i,
        None => return None,
    };
    proof {
        lemma_components(postcode@);
    }
    let inc = chars_of(incode.as_str());
    push_char(&mut outcode, ' ');
    push_char(&mut outcode, inc[0]);
    proof {
        assert(outcode@ =~= sector_of(postcode@));
    }
    Some(outcode)
}

/// Return the postcode unit, the final two letters.
///
/// Returns `None` for an invalid postcode.
pub fn to_unit(postcode: &str) -> (r: Option<String>)
    ensures
        r.deep_view() == when_valid(postcode@, unit_of(postcode@)),
{
    if !is_valid(postcode) {
        return None;
    }
    let v = chars_of(postcode);
    let sanitized = sanitize(&v);
    proof {
        lemma_components(postcode@);
    }
    let len = sanitized.len();
    let unit = string_from(&sanitized, len - 2, len);
    proof {
        assert(unit@ =~= unit_of(postcode@));
    }
    Some(unit)
}

/// Return the postcode district.
///
/// When the outcode ends in a letter, the trailing letter is dropped. Otherwise
/// the whole outcode is returned. Returns `None` for an invalid postcode.
pub fn to_district(postcode: &str) -> (r: Option<String>)
    ensures
        r.deep_view() == when_valid(postcode@, district_of(postcode@)),
{
    let outcode = match to_outcode(postcode) {
        Some(o) => o,
        None => return None,
    };
    proof {
        lemma_components(postcode@);
        lemma_district_split(outcode_of(postcode@));
    }
    let o = chars_of(outcode.as_str());
    match district_split(&o) {
        Some(district) => Some(district),
        None => Some(outcode),
    }
}

/// Return the postcode sub-district.
///
/// Present only when the outcode ends in a letter, in which case the whole
/// outcode is the sub-district. Returns `None` when there is no sub-district or
/// the postcode is invalid.
pub fn to_sub_district(postcode: &str) -> (r: Option<String>)
    ensures
        r.deep_view() == (if postcode_shape(postcode@) {
            sub_district_of(postcode@)
        } else {
            None
        }),
{
    let outcode = match to_outcode(postcode) {
        Some(o) => o,
        None => return None,
    };
    proof {
        lemma_components(postcode@);
        lemma_district_split(outcode_of(postcode@));
    }
    let o = chars_of(outcode.as_str());
    match district_split(&o) {
        Some(_) => Some(outcode),
        None => None,
    }
}


/// Parse a postcode into all of its components at once.
///
/// For an invalid input, `valid` is `false` and every component is `None`. For
/// a valid input, `valid` is `true` and every component is filled; the
/// `sub_district` field is `Some` only when the outcode ends in a letter.
pub fn parse(postcode: &str) -> (r: Postcode)
    ensures
        r@ == parse_of(postcode@),
{
    let (outcode, incode) = match (to_outcode(postcode), to_incode(postcode)) {
        (Some(o), Some(i)) => (o, i),
        _ => return Postcode::default(),
    };
    let ghost s = postcode@;
    proof {
        lemma_components(s);
        lemma_district_split(outcode_of(s));
    }
    let o = chars_of(outcode.as_str());
    let i = chars_of(incode.as_str());
    let mut sector = outcode.clone();
    push_char(&mut sector, ' ');
    push_char(&mut sector, i[0]);
    let unit = string_from(&i, 1, 3);
    let (district, sub_district) = match district_split(&o) {
        Some(district) => (district, Some(outcode.clone())),
        None => (outcode.clone(), None),
    };
    let mut area_end: usize = 0;
    while area_end < o.len() && area_end < 2 && is_letter(o[area_end])
        invariant
            area_end <= 2,
            o@ == outcode_of(s),
            forall|k: int| 0 <= k < area_end ==> is_letter(#[trigger] o@[k]),
        decreases 2 - area_end,
    {
        area_end += 1;
    }
    let area = string_from(&o, 0, area_end);
    let mut normalised = outcode.clone();
    push_char(&mut normalised, ' ');
    normalised.append(incode.as_str());
    proof {
        assert(is_letter(o@[0]));
        assert(area_end == 2 ==> is_letter(o@[1]));
        assert(area@ =~= area_of(s));
        assert(sector@ =~= sector_of(s));
        assert(unit@ =~= unit_of(s));
        assert(normalised@ =~= normalised_of(s));
    }
    Postcode {
        valid: true,
        postcode: Some(normalised),
        incode: Some(incode),
        outcode: Some(outcode),
        area: Some(area),
        district: Some(district),
        sub_district,
        sector: Some(sector),
        unit: Some(unit),
    }
}


impl std::str::FromStr for Postcode {
    type Err = ParsePostcodeError;

    /// Parse a postcode candidate.
    ///
    /// Returns the parsed postcode when it is valid, and [`ParsePostcodeError`]
    /// otherwise, so `?` works at the call site.
    fn from_str(s: &str) -> (r: Result<Postcode, ParsePostcodeError>)
        ensures
            r matches Ok(p) ==> p@ == parse_of(s@) && p.valid,
            r is Err <==> !postcode_shape(s@),
    {
        let p = parse(s);
        if p.valid {
            Ok(p)
        } else {
            Err(ParsePostcodeError)
        }
    }
}

} // verus!
