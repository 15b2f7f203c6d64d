//! EXIF metadata: the capture date (the spine of the timeline) and the GPS position (the
//! spine of the Places map).

use std::io::Cursor;

use exif::{Context, Field, Reader, Value};
use vstd::prelude::*;
use vstd::utf8::{decode_utf8, valid_utf8};

use crate::capture::{exif_moment, parse_exif_datetime};
use crate::rows::views;
use crate::text::trimmed;

verus! {

/// The directory a tag belongs to.
#[derive(Clone, Copy, PartialEq, Eq, Structural, Debug)]
pub enum ExifContext {
    Tiff,
    Exif,
    Gps,
    Interop,
    Unlisted,
}

/// The value of a field, where it is one of those that are read.
pub enum ExifValue {
    Ascii(Vec<Vec<u8>>),
    /// Numerators and denominators.
    Rational(Vec<(u32, u32)>),
    Unread,
}

/// A field's value, mathematically.
pub enum ExifValueView {
    Ascii(Seq<Seq<u8>>),
    Rational(Seq<(u32, u32)>),
    Unread,
}

/// One field of an EXIF block.
pub struct ExifField {
    pub context: ExifContext,
    pub number: u16,
    /// Zero for the primary image.
    pub ifd: u16,
    pub value: ExifValue,
}

/// One field, mathematically.
pub struct ExifFieldView {
    pub context: ExifContext,
    pub number: u16,
    pub ifd: u16,
    pub value: ExifValueView,
}

/// Byte strings, each by its view.
pub open spec fn byte_strings(v: Seq<Vec<u8>>) -> Seq<Seq<u8>> {
    v.map_values(|b: Vec<u8>| b@)
}

impl View for ExifField {
    type V = ExifFieldView;

    open spec fn view(&self) -> ExifFieldView {
        ExifFieldView {
            context: self.context,
            number: self.number,
            ifd: self.ifd,
            value: match self.value {
                ExifValue::Ascii(v) => ExifValueView::Ascii(byte_strings(v@)),
                ExifValue::Rational(v) => ExifValueView::Rational(v@),
                ExifValue::Unread => ExifValueView::Unread,
            },
        }
    }
}

/// The fields of the EXIF block in an image file, in file order; none where the file holds
/// no block that can be read.
pub uninterp spec fn exif_fields(bytes: Seq<u8>) -> Option<Seq<ExifFieldView>>;

/// `exif::Reader::read_from_container` and `exif::Exif::fields`: the fields of the EXIF
/// block of an image file, which depend on the file's bytes alone. Each is turned into a
/// plain value; values of a type that is not read here are left out of it.
#[verifier::external_body]
fn read_fields(bytes: &[u8]) -> (fields: Option<Vec<ExifField>>)
    ensures
        match exif_fields(bytes@) {
            Some(v) => fields matches Some(f) && views(f@) == v,
            None => fields is None,
        },
{
    let block = Reader::new().read_from_container(&mut Cursor::new(bytes)).ok()?;
    let plain = |f: &Field| ExifField {
        context: match f.tag.context() {
            Context::Tiff => ExifContext::Tiff, Context::Exif => ExifContext::Exif,
            Context::Gps => ExifContext::Gps, Context::Interop => ExifContext::Interop,
            _ => ExifContext::Unlisted,
        },
        number: f.tag.number(), ifd: f.ifd_num.index(),
        value: match &f.value {
            Value::Ascii(v) => ExifValue::Ascii(v.clone()),
            Value::Rational(v) => ExifValue::Rational(v.iter().map(|r| (r.num, r.denom)).collect()),
            _ => ExifValue::Unread,
        },
    };
    Some(block.fields().map(plain).collect())
}

/// `std::str::from_utf8`: the text that bytes encode, if they are valid UTF-8.
#[verifier::external_body]
fn utf8_text(bytes: &[u8]) -> (text: Option<String>)
    ensures
        text is Some <==> valid_utf8(bytes@),
        text matches Some(t) ==> t@ == decode_utf8(bytes@),
{
    std::str::from_utf8(bytes).ok().map(|t| t.to_owned())
}

/// The tag is the field's, of the primary image.
pub open spec fn is_field(f: ExifFieldView, context: ExifContext, number: u16) -> bool {
    f.context == context && f.number == number && f.ifd == 0
}

/// The last field with a tag: where a tag is repeated, the last one counts.
pub open spec fn field_of(fields: Seq<ExifFieldView>, context: ExifContext, number: u16) -> Option<
    ExifFieldView,
>
    decreases fields.len(),
{
    if fields.len() == 0 {
        None
    } else if is_field(fields.last(), context, number) {
        Some(fields.last())
    } else {
        field_of(fields.drop_last(), context, number)
    }
}

/// The moment an ASCII field writes.
pub open spec fn moment_of(value: ExifValueView) -> Option<i64> {
    match value {
        ExifValueView::Ascii(v) => if v.len() > 0 && valid_utf8(v[0]) {
            exif_moment(trimmed(decode_utf8(v[0])))
        } else {
            None
        },
        _ => None,
    }
}

/// The capture date of a file: its original date, or else its date; one that cannot be
/// read is none.
pub open spec fn taken_in(fields: Seq<ExifFieldView>) -> Option<i64> {
    match field_of(fields, ExifContext::Exif, 0x9003) {
        Some(f) => moment_of(f.value),
        None => match field_of(fields, ExifContext::Tiff, 0x132) {
            Some(f) => moment_of(f.value),
            None => None,
        },
    }
}

/// Degrees, exactly: a fraction with a positive denominator.
#[derive(Clone, Copy, PartialEq, Eq, Structural, Debug)]
pub struct Degrees {
    pub num: i128,
    pub den: i128,
}

/// A GPS position.
#[derive(Clone, Copy, PartialEq, Eq, Structural, Debug)]
pub struct Position {
    pub lat: Degrees,
    pub lon: Degrees,
}

/// The position is the pair of fractions.
pub open spec fn is_position(p: Position, q: ((int, int), (int, int))) -> bool {
    (p.lat.num as int, p.lat.den as int) == q.0 && (p.lon.num as int, p.lon.den as int) == q.1
}

/// The `i`-th number of a list; zero where there is none.
pub open spec fn part(v: Seq<(u32, u32)>, i: int) -> (u32, u32) {
    if i < v.len() {
        v[i]
    } else {
        (0, 1)
    }
}

/// Degrees, minutes and seconds as one fraction of degrees; none where a denominator is
/// zero.
pub open spec fn decimal_degrees(v: Seq<(u32, u32)>, negative: bool) -> Option<(int, int)> {
    let (d, m, s) = (part(v, 0), part(v, 1), part(v, 2));
    if v.len() == 0 || d.1 == 0 || m.1 == 0 || s.1 == 0 {
        None
    } else {
        let num = d.0 * m.1 * s.1 * 3600 + m.0 * d.1 * s.1 * 60 + s.0 * d.1 * m.1;
        Some(
            (
                if negative {
                    -num
                } else {
                    num
                },
                d.1 * m.1 * s.1 * 3600,
            ),
        )
    }
}

/// The hemisphere field names the negative side.
pub open spec fn is_negative(fields: Seq<ExifFieldView>, number: u16, upper: u8, lower: u8) -> bool {
    match field_of(fields, ExifContext::Gps, number) {
        Some(f) => match f.value {
            ExifValueView::Ascii(v) => v.len() > 0 && v[0].len() > 0 && (v[0][0] == upper || v[0][0]
                == lower),
            _ => false,
        },
        None => false,
    }
}

/// One GPS coordinate.
pub open spec fn coordinate(
    fields: Seq<ExifFieldView>,
    number: u16,
    ref_number: u16,
    upper: u8,
    lower: u8,
) -> Option<(int, int)> {
    match field_of(fields, ExifContext::Gps, number) {
        Some(f) => match f.value {
            ExifValueView::Rational(v) => decimal_degrees(
                v,
                is_negative(fields, ref_number, upper, lower),
            ),
            _ => None,
        },
        None => None,
    }
}

/// The position of a file: in range, and not the exact (0, 0) that a lost fix writes.
pub open spec fn position_in(fields: Seq<ExifFieldView>) -> Option<((int, int), (int, int))> {
    let lat = coordinate(fields, 2, 1, 83, 115);
    let lon = coordinate(fields, 4, 3, 87, 119);
    if lat is None || lon is None {
        None
    } else {
        let (a, b) = (lat->0, lon->0);
        if !(-90 * a.1 <= a.0 <= 90 * a.1) || !(-180 * b.1 <= b.0 <= 180 * b.1) || (a.0 == 0 && b.0
            == 0) {
            None
        } else {
            Some((a, b))
        }
    }
}

/// Everything pulled from a file's EXIF in one pass.
#[derive(Clone, Copy, PartialEq, Eq, Structural, Debug)]
pub struct ExifMeta {
    /// Capture date as a Unix timestamp (seconds), if the file has a usable tag.
    pub taken_ts: Option<i64>,
    /// GPS position, if a plausible fix is present.
    pub gps: Option<Position>,
}

/// The metadata that fields hold.
pub open spec fn meta_in(fields: Option<Seq<ExifFieldView>>, meta: ExifMeta) -> bool {
    match fields {
        Some(f) => {
            &&& meta.taken_ts == taken_in(f)
            &&& match position_in(f) {
                Some(p) => meta.gps matches Some(g) && is_position(g, p),
                None => meta.gps is None,
            }
        },
        None => meta.taken_ts is None && meta.gps is None,
    }
}

fn find_field(fields: &Vec<ExifField>, context: ExifContext, number: u16) -> (at: usize)
    ensures
        at <= fields@.len(),
        at < fields@.len() ==> field_of(views(fields@), context, number) == Some(
            fields@[at as int]@,
        ),
        at == fields@.len() ==> field_of(views(fields@), context, number) is None,
{
    let ghost all = views(fields@);
    let n: usize = fields.len();
    let mut i: usize = n;
    assert(all.take(n as int) == all);
    while i > 0
        invariant
            all == views(fields@),
            n == fields@.len(),
            i <= n,
            field_of(all, context, number) == field_of(all.take(i as int), context, number),
        decreases i,
    {
        i = i - 1;
        assert(all.take(i + 1).drop_last() == all.take(i as int));
        assert(all.take(i + 1).last() == fields@[i as int]@);
        if fields[i].context == context && fields[i].number == number && fields[i].ifd == 0 {
            return i;
        }
    }
    n
}

fn read_moment(value: &ExifValue, Ghost(f): Ghost<ExifField>) -> (ts: Option<i64>)
    requires
        f.value == *value,
    ensures
        ts == moment_of(f@.value),
{
    match value {
        ExifValue::Ascii(v) => {
            if v.len() > 0 {
                assert(byte_strings(v@)[0] == v@[0]@);
                match utf8_text(v[0].as_slice()) {
                    Some(t) => parse_exif_datetime(t.as_str()),
                    None => None,
                }
            } else {
                None
            }
        },
        _ => None,
    }
}

/// The capture date that fields hold.
pub fn taken_ts_of(fields: &Vec<ExifField>) -> (ts: Option<i64>)
    ensures
        ts == taken_in(views(fields@)),
{
    let at = find_field(fields, ExifContext::Exif, 0x9003);
    if at < fields.len() {
        return read_moment(&fields[at].value, Ghost(fields@[at as int]));
    }
    let at = find_field(fields, ExifContext::Tiff, 0x132);
    if at < fields.len() {
        return read_moment(&fields[at].value, Ghost(fields@[at as int]));
    }
    None
}

fn rational(v: &Vec<(u32, u32)>, i: usize) -> (r: (u32, u32))
    ensures
        r == part(v@, i as int),
{
    if i < v.len() {
        v[i]
    } else {
        (0, 1)
    }
}

fn product(a: u32, b: u32, c: u32) -> (p: i128)
    ensures
        p == a * b * c,
        0 <= p <= 0xffff_ffff_ffff_ffff_ffff_ffff,
        a > 0 && b > 0 && c > 0 ==> p > 0,
{
    proof {
        let (x, y, z) = (a as int, b as int, c as int);
        assert(0 <= x * y <= 0xffff_ffff_ffff_ffff) by (nonlinear_arith)
            requires
                0 <= x <= 0xffff_ffff,
                0 <= y <= 0xffff_ffff,
        ;
        let w = x * y;
        assert(0 <= w * z <= 0xffff_ffff_ffff_ffff_ffff_ffff) by (nonlinear_arith)
            requires
                0 <= w <= 0xffff_ffff_ffff_ffff,
                0 <= z <= 0xffff_ffff,
        ;
        if x > 0 && y > 0 && z > 0 {
            assert(x * y * z > 0) by (nonlinear_arith)
                requires
                    x > 0,
                    y > 0,
                    z > 0,
            ;
        }
    }
    a as i128 * b as i128 * c as i128
}

fn negative_side(fields: &Vec<ExifField>, number: u16, upper: u8, lower: u8) -> (r: bool)
    ensures
        r == is_negative(views(fields@), number, upper, lower),
{
    let at = find_field(fields, ExifContext::Gps, number);
    if at < fields.len() {
        if let ExifValue::Ascii(v) = &fields[at].value {
            if v.len() > 0 {
                assert(byte_strings(v@)[0] == v@[0]@);
                if v[0].len() > 0 {
                    return v[0][0] == upper || v[0][0] == lower;
                }
            }
        }
    }
    false
}

/// One GPS coordinate: degrees/minutes/seconds rationals to degrees, negated when the
/// hemisphere is the negative one.
fn gps_coord(fields: &Vec<ExifField>, number: u16, ref_number: u16, upper: u8, lower: u8) -> (d: Option<
    Degrees,
>)
    ensures
        match coordinate(views(fields@), number, ref_number, upper, lower) {
            Some(c) => d matches Some(x) && (x.num as int, x.den as int) == c && 0 < x.den <= 3600
                * 0xffff_ffff_ffff_ffff_ffff_ffff && -10_000
                * 0xffff_ffff_ffff_ffff_ffff_ffff <= x.num <= 10_000
                * 0xffff_ffff_ffff_ffff_ffff_ffff,
            None => d is None,
        },
{
    let at = find_field(fields, ExifContext::Gps, number);
    if at >= fields.len() {
        return None;
    }
    let negative = negative_side(fields, ref_number, upper, lower);
    match &fields[at].value {
        ExifValue::Rational(v) => {
            let (d, m, s) = (rational(v, 0), rational(v, 1), rational(v, 2));
            if v.len() == 0 || d.1 == 0 || m.1 == 0 || s.1 == 0 {
                return None;
            }
            let a: i128 = product(d.0, m.1, s.1);
            let b: i128 = product(m.0, d.1, s.1);
            let c: i128 = product(s.0, d.1, m.1);
            let num: i128 = a * 3600 + b * 60 + c;
            let den: i128 = product(d.1, m.1, s.1) * 3600;
            Some(
                Degrees {
                    num: if negative {
                        -num
                    } else {
                        num
                    },
                    den,
                },
            )
        },
        _ => None,
    }
}

/// The GPS position that fields hold. Rejects out-of-range values and the exact (0, 0)
/// "null island" a lost fix writes.
pub fn gps_of(fields: &Vec<ExifField>) -> (gps: Option<Position>)
    ensures
        match position_in(views(fields@)) {
            Some(p) => gps matches Some(g) && is_position(g, p),
            None => gps is None,
        },
{
    let lat = gps_coord(fields, 2, 1, 83, 115);
    let lon = gps_coord(fields, 4, 3, 87, 119);
    if let (Some(a), Some(b)) = (lat, lon) {
        if a.num < -90 * a.den || a.num > 90 * a.den || b.num < -180 * b.den || b.num > 180 * b.den {
            return None;
        }
        if a.num == 0 && b.num == 0 {
            return None;
        }
        return Some(Position { lat: a, lon: b });
    }
    None
}

/// Capture date and GPS from the bytes of an image file. Never fails: a missing or
/// unreadable EXIF block just yields empty fields.
pub fn read_exif_meta(bytes: &[u8]) -> (meta: ExifMeta)
    ensures
        meta_in(exif_fields(bytes@), meta),
{
    match read_fields(bytes) {
        Some(fields) => ExifMeta { taken_ts: taken_ts_of(&fields), gps: gps_of(&fields) },
        None => ExifMeta { taken_ts: None, gps: None },
    }
}

} // verus!
