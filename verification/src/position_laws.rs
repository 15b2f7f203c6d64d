//! What a file's EXIF block says, said of its fields.

use vstd::prelude::*;

use vstd::utf8::{decode_utf8, valid_utf8};

use crate::exif_meta::{
    decimal_degrees, field_of, is_field, is_negative, moment_of, position_in, taken_in,
    ExifContext, ExifFieldView, ExifValueView,
};

verus! {

/// The field is of the primary image and has the tag, and no later one does.
pub open spec fn holds_tag(
    fields: Seq<ExifFieldView>,
    j: int,
    context: ExifContext,
    number: u16,
) -> bool {
    &&& 0 <= j < fields.len()
    &&& fields[j].context == context && fields[j].number == number && fields[j].ifd == 0
    &&& forall|k: int|
        j < k < fields.len() ==> !((#[trigger] fields[k]).context == context && fields[k].number
            == number && fields[k].ifd == 0)
}

/// No field of the primary image has the tag.
pub open spec fn lacks_tag(fields: Seq<ExifFieldView>, context: ExifContext, number: u16) -> bool {
    forall|k: int|
        0 <= k < fields.len() ==> !((#[trigger] fields[k]).context == context && fields[k].number
            == number && fields[k].ifd == 0)
}

proof fn lemma_field(fields: Seq<ExifFieldView>, j: int, context: ExifContext, number: u16)
    requires
        holds_tag(fields, j, context, number),
    ensures
        field_of(fields, context, number) == Some(fields[j]),
    decreases fields.len(),
{
    assert(fields[fields.len() - 1] == fields.last());
    if j < fields.len() - 1 {
        let front = fields.drop_last();
        assert forall|k: int| j < k < front.len() implies !((#[trigger] front[k]).context == context
            && front[k].number == number && front[k].ifd == 0) by {
            assert(front[k] == fields[k]);
        }
        lemma_field(front, j, context, number);
    }
}

proof fn lemma_no_field(fields: Seq<ExifFieldView>, context: ExifContext, number: u16)
    requires
        lacks_tag(fields, context, number),
    ensures
        field_of(fields, context, number) is None,
    decreases fields.len(),
{
    if fields.len() > 0 {
        assert(fields[fields.len() - 1] == fields.last());
        let front = fields.drop_last();
        assert forall|k: int| 0 <= k < front.len() implies !((#[trigger] front[k]).context == context
            && front[k].number == number && front[k].ifd == 0) by {
            assert(front[k] == fields[k]);
        }
        lemma_no_field(front, context, number);
    }
}

/// A field is found where it stands.
proof fn lemma_found_field(fields: Seq<ExifFieldView>, context: ExifContext, number: u16) -> (j: int)
    requires
        field_of(fields, context, number) is Some,
    ensures
        holds_tag(fields, j, context, number),
        field_of(fields, context, number) == Some(fields[j]),
    decreases fields.len(),
{
    let n = fields.len() - 1;
    assert(fields[n] == fields.last());
    if is_field(fields.last(), context, number) {
        n
    } else {
        let j = lemma_found_field(fields.drop_last(), context, number);
        assert forall|k: int| j < k < fields.len() implies !((#[trigger] fields[k]).context
            == context && fields[k].number == number && fields[k].ifd == 0) by {
            if k < n {
                assert(fields.drop_last()[k] == fields[k]);
            }
        }
        j
    }
}

/// The field is a text that starts with the letter, in upper or lower case.
pub open spec fn starts_with_letter(f: ExifFieldView, upper: u8, lower: u8) -> bool {
    f.value matches ExifValueView::Ascii(v) && v.len() > 0 && v[0].len() > 0 && (v[0][0] == upper
        || v[0][0] == lower)
}

/// The fraction is so many degrees, minutes and seconds: the numbers of the field, of which
/// those that are missing are zero, with a sign of its own.
pub open spec fn measures(q: (int, int), v: Seq<(u32, u32)>, negative: bool) -> bool {
    let d = v[0];
    let m: (u32, u32) = if v.len() > 1 {
        v[1]
    } else {
        (0, 1)
    };
    let s: (u32, u32) = if v.len() > 2 {
        v[2]
    } else {
        (0, 1)
    };
    &&& q.1 > 0
    &&& (if negative {
        -q.0
    } else {
        q.0
    }) * (d.1 * m.1 * s.1 * 3600) == q.1 * (3600 * d.0 * m.1 * s.1 + 60 * m.0 * d.1 * s.1 + s.0
        * d.1 * m.1)
}

proof fn lemma_measures(v: Seq<(u32, u32)>, negative: bool)
    ensures
        decimal_degrees(v, negative) matches Some(q) ==> {
            &&& v.len() > 0
            &&& measures(q, v, negative)
            &&& negative ==> q.0 <= 0
            &&& !negative ==> q.0 >= 0
        },
{
    if let Some(q) = decimal_degrees(v, negative) {
        let d = v[0];
        let m: (u32, u32) = if v.len() > 1 {
            v[1]
        } else {
            (0, 1)
        };
        let s: (u32, u32) = if v.len() > 2 {
            v[2]
        } else {
            (0, 1)
        };
        let (d0, d1, m0, m1, s0, s1) = (
            d.0 as int,
            d.1 as int,
            m.0 as int,
            m.1 as int,
            s.0 as int,
            s.1 as int,
        );
        let num = d0 * m1 * s1 * 3600 + m0 * d1 * s1 * 60 + s0 * d1 * m1;
        let den = d1 * m1 * s1 * 3600;
        assert(q.1 == den);
        assert(q.0 == if negative {
            -num
        } else {
            num
        });
        assert(num >= 0 && den > 0) by (nonlinear_arith)
            requires
                num == d0 * m1 * s1 * 3600 + m0 * d1 * s1 * 60 + s0 * d1 * m1,
                den == d1 * m1 * s1 * 3600,
                d0 >= 0,
                m0 >= 0,
                s0 >= 0,
                d1 > 0,
                m1 > 0,
                s1 > 0,
        ;
        assert(num == 3600 * d0 * m1 * s1 + 60 * m0 * d1 * s1 + s0 * d1 * m1) by (nonlinear_arith)
            requires
                num == d0 * m1 * s1 * 3600 + m0 * d1 * s1 * 60 + s0 * d1 * m1,
        ;
        assert(num * den == den * num) by (nonlinear_arith);
    }
}

/// **A position is what its fields measure.** The latitude is that of the latitude field, in
/// degrees, minutes and seconds, south of the equator where the reference says `S`; the
/// longitude is that of the longitude field, west where the reference says `W`. Both are in
/// range, and not both are zero.
pub proof fn law_position_is_measured(fields: Seq<ExifFieldView>) -> (at: (int, int))
    requires
        position_in(fields) is Some,
    ensures
        ({
            let (lat, lon) = position_in(fields)->0;
            let (i, j) = at;
            &&& holds_tag(fields, i, ExifContext::Gps, 2)
            &&& holds_tag(fields, j, ExifContext::Gps, 4)
            &&& fields[i].value matches ExifValueView::Rational(v) && v.len() > 0 && measures(
                lat,
                v,
                exists|k: int|
                    holds_tag(fields, k, ExifContext::Gps, 1) && #[trigger] starts_with_letter(
                        fields[k],
                        83,
                        115,
                    ),
            )
            &&& fields[j].value matches ExifValueView::Rational(v) && v.len() > 0 && measures(
                lon,
                v,
                exists|k: int|
                    holds_tag(fields, k, ExifContext::Gps, 3) && #[trigger] starts_with_letter(
                        fields[k],
                        87,
                        119,
                    ),
            )
            &&& -90 * lat.1 <= lat.0 <= 90 * lat.1
            &&& -180 * lon.1 <= lon.0 <= 180 * lon.1
            &&& lat.0 != 0 || lon.0 != 0
        }),
{
    let i = lemma_found_field(fields, ExifContext::Gps, 2);
    let j = lemma_found_field(fields, ExifContext::Gps, 4);
    lemma_side(fields, 1, 83, 115);
    lemma_side(fields, 3, 87, 119);
    if let ExifValueView::Rational(v) = fields[i].value {
        lemma_measures(v, is_negative(fields, 1, 83, 115));
    }
    if let ExifValueView::Rational(v) = fields[j].value {
        lemma_measures(v, is_negative(fields, 3, 87, 119));
    }
    (i, j)
}

proof fn lemma_side(fields: Seq<ExifFieldView>, number: u16, upper: u8, lower: u8)
    ensures
        is_negative(fields, number, upper, lower) <==> exists|k: int|
            holds_tag(fields, k, ExifContext::Gps, number) && #[trigger] starts_with_letter(
                fields[k],
                upper,
                lower,
            ),
{
    if is_negative(fields, number, upper, lower) {
        let k = lemma_found_field(fields, ExifContext::Gps, number);
        assert(starts_with_letter(fields[k], upper, lower));
    }
    if exists|k: int|
        holds_tag(fields, k, ExifContext::Gps, number) && #[trigger] starts_with_letter(
            fields[k],
            upper,
            lower,
        ) {
        let k = choose|k: int|
            holds_tag(fields, k, ExifContext::Gps, number) && #[trigger] starts_with_letter(
                fields[k],
                upper,
                lower,
            );
        lemma_field(fields, k, ExifContext::Gps, number);
    }
}

/// **South is below zero, and so is west.** A reference that starts with `S` or `s` makes the
/// latitude zero or less, one that starts with `N` zero or more; `W` or `w` makes the longitude
/// zero or less, `E` zero or more.
pub proof fn law_hemispheres(fields: Seq<ExifFieldView>, k: int, l: int)
    requires
        position_in(fields) is Some,
        holds_tag(fields, k, ExifContext::Gps, 1),
        holds_tag(fields, l, ExifContext::Gps, 3),
    ensures
        ({
            let (lat, lon) = position_in(fields)->0;
            &&& starts_with_letter(fields[k], 83, 115) ==> lat.0 <= 0
            &&& starts_with_letter(fields[k], 78, 110) ==> lat.0 >= 0
            &&& starts_with_letter(fields[l], 87, 119) ==> lon.0 <= 0
            &&& starts_with_letter(fields[l], 69, 101) ==> lon.0 >= 0
        }),
{
    lemma_field(fields, k, ExifContext::Gps, 1);
    lemma_field(fields, l, ExifContext::Gps, 3);
    let i = lemma_found_field(fields, ExifContext::Gps, 2);
    let j = lemma_found_field(fields, ExifContext::Gps, 4);
    if let ExifValueView::Rational(v) = fields[i].value {
        lemma_measures(v, is_negative(fields, 1, 83, 115));
    }
    if let ExifValueView::Rational(v) = fields[j].value {
        lemma_measures(v, is_negative(fields, 3, 87, 119));
    }
}

/// **Crossing the equator mirrors the latitude.** Where the latitude's reference changes from
/// `N` to `S` and nothing else does, the latitude is negated and the longitude stays.
pub proof fn law_south_mirrors_north(
    fields: Seq<ExifFieldView>,
    k: int,
    north: Seq<Seq<u8>>,
    south: Seq<Seq<u8>>,
)
    requires
        position_in(fields) is Some,
        holds_tag(fields, k, ExifContext::Gps, 1),
        fields[k].value == ExifValueView::Ascii(north),
        north.len() > 0 && north[0].len() > 0 && north[0][0] == 78,
        south.len() > 0 && south[0].len() > 0 && south[0][0] == 83,
    ensures
        ({
            let crossed = fields.update(
                k,
                ExifFieldView { value: ExifValueView::Ascii(south), ..fields[k] },
            );
            let (lat, lon) = position_in(fields)->0;
            position_in(crossed) == Some(((-lat.0, lat.1), lon))
        }),
{
    let crossed = fields.update(
        k,
        ExifFieldView { value: ExifValueView::Ascii(south), ..fields[k] },
    );
    assert(holds_tag(crossed, k, ExifContext::Gps, 1)) by {
        assert forall|m: int| k < m < crossed.len() implies !((#[trigger] crossed[m]).context
            == ExifContext::Gps && crossed[m].number == 1 && crossed[m].ifd == 0) by {
            assert(crossed[m] == fields[m]);
        }
    }
    lemma_field(fields, k, ExifContext::Gps, 1);
    lemma_field(crossed, k, ExifContext::Gps, 1);
    lemma_other_field(fields, k, crossed[k], 2);
    lemma_other_field(fields, k, crossed[k], 3);
    lemma_other_field(fields, k, crossed[k], 4);
    let i = lemma_found_field(fields, ExifContext::Gps, 2);
    if let ExifValueView::Rational(v) = fields[i].value {
        lemma_measures(v, false);
        lemma_measures(v, true);
    }
}

/// **Crossing the meridian mirrors the longitude.** Where the longitude's reference changes
/// from `E` to `W` and nothing else does, the longitude is negated and the latitude stays.
pub proof fn law_west_mirrors_east(
    fields: Seq<ExifFieldView>,
    k: int,
    east: Seq<Seq<u8>>,
    west: Seq<Seq<u8>>,
)
    requires
        position_in(fields) is Some,
        holds_tag(fields, k, ExifContext::Gps, 3),
        fields[k].value == ExifValueView::Ascii(east),
        east.len() > 0 && east[0].len() > 0 && east[0][0] == 69,
        west.len() > 0 && west[0].len() > 0 && west[0][0] == 87,
    ensures
        ({
            let crossed = fields.update(
                k,
                ExifFieldView { value: ExifValueView::Ascii(west), ..fields[k] },
            );
            let (lat, lon) = position_in(fields)->0;
            position_in(crossed) == Some((lat, (-lon.0, lon.1)))
        }),
{
    let crossed = fields.update(
        k,
        ExifFieldView { value: ExifValueView::Ascii(west), ..fields[k] },
    );
    assert(holds_tag(crossed, k, ExifContext::Gps, 3)) by {
        assert forall|m: int| k < m < crossed.len() implies !((#[trigger] crossed[m]).context
            == ExifContext::Gps && crossed[m].number == 3 && crossed[m].ifd == 0) by {
            assert(crossed[m] == fields[m]);
        }
    }
    lemma_field(fields, k, ExifContext::Gps, 3);
    lemma_field(crossed, k, ExifContext::Gps, 3);
    lemma_other_field(fields, k, crossed[k], 1);
    lemma_other_field(fields, k, crossed[k], 2);
    lemma_other_field(fields, k, crossed[k], 4);
    let i = lemma_found_field(fields, ExifContext::Gps, 4);
    if let ExifValueView::Rational(v) = fields[i].value {
        lemma_measures(v, false);
        lemma_measures(v, true);
    }
}

proof fn lemma_other_field(fields: Seq<ExifFieldView>, k: int, f: ExifFieldView, number: u16)
    requires
        0 <= k < fields.len(),
        f.context == fields[k].context,
        f.number == fields[k].number,
        f.ifd == fields[k].ifd,
        fields[k].number != number,
    ensures
        field_of(fields.update(k, f), ExifContext::Gps, number) == field_of(
            fields,
            ExifContext::Gps,
            number,
        ),
    decreases fields.len(),
{
    let after = fields.update(k, f);
    let n = fields.len() - 1;
    assert(fields[n] == fields.last() && after[n] == after.last());
    if k < n {
        assert(after.drop_last() =~= fields.drop_last().update(k, f));
        lemma_other_field(fields.drop_last(), k, f, number);
    } else {
        assert(after.drop_last() =~= fields.drop_last());
    }
}

/// **A fix is read.** Degrees, minutes and seconds with denominators, in range and not both
/// zero, give a position; a field that is missing, is not made of fractions or has a zero
/// denominator gives none.
pub proof fn law_fix_is_read(
    fields: Seq<ExifFieldView>,
    i: int,
    j: int,
    lat: Seq<(u32, u32)>,
    lon: Seq<(u32, u32)>,
)
    requires
        holds_tag(fields, i, ExifContext::Gps, 2),
        holds_tag(fields, j, ExifContext::Gps, 4),
        fields[i].value == ExifValueView::Rational(lat),
        fields[j].value == ExifValueView::Rational(lon),
        lat.len() == 3,
        lon.len() == 3,
        forall|k: int| 0 <= k < 3 ==> (#[trigger] lat[k]).1 > 0,
        forall|k: int| 0 <= k < 3 ==> (#[trigger] lon[k]).1 > 0,
    ensures
        // Whole degrees that leave room for the minutes and the seconds.
        (lat[0].0 < 88 * lat[0].1 && lat[1].0 <= 60 * lat[1].1 && lat[2].0 <= 3600 * lat[2].1
            && lon[0].0 < 178 * lon[0].1 && lon[1].0 <= 60 * lon[1].1 && lon[2].0 <= 3600
            * lon[2].1 && (lat[0].0 > 0 || lon[0].0 > 0)) ==> position_in(fields) is Some,
        lat[0].0 > 90 * lat[0].1 ==> position_in(fields) is None,
        lon[0].0 > 180 * lon[0].1 ==> position_in(fields) is None,
{
    lemma_field(fields, i, ExifContext::Gps, 2);
    lemma_field(fields, j, ExifContext::Gps, 4);
    lemma_in_range(lat, 88, 90);
    lemma_in_range(lon, 178, 180);
}

proof fn lemma_in_range(v: Seq<(u32, u32)>, inner: int, outer: int)
    requires
        v.len() == 3,
        forall|k: int| 0 <= k < 3 ==> (#[trigger] v[k]).1 > 0,
        0 < inner,
        inner + 2 <= outer,
    ensures
        ({
            let num = v[0].0 * v[1].1 * v[2].1 * 3600 + v[1].0 * v[0].1 * v[2].1 * 60 + v[2].0
                * v[0].1 * v[1].1;
            let den = v[0].1 * v[1].1 * v[2].1 * 3600;
            &&& den > 0
            &&& num >= 0
            &&& v[0].0 < inner * v[0].1 && v[1].0 <= 60 * v[1].1 && v[2].0 <= 3600 * v[2].1 ==> num
                <= outer * den
            &&& v[0].0 > 0 ==> num > 0
            &&& v[0].0 > outer * v[0].1 ==> num > outer * den
        }),
{
    let (d0, d1, m0, m1, s0, s1) = (
        v[0].0 as int,
        v[0].1 as int,
        v[1].0 as int,
        v[1].1 as int,
        v[2].0 as int,
        v[2].1 as int,
    );
    assert(d1 > 0 && m1 > 0 && s1 > 0);
    let unit = d1 * m1 * s1;
    assert(unit > 0) by (nonlinear_arith)
        requires
            unit == d1 * m1 * s1,
            d1 > 0,
            m1 > 0,
            s1 > 0,
    ;
    let (a, b, c) = (d0 * m1 * s1 * 3600, m0 * d1 * s1 * 60, s0 * d1 * m1);
    assert(a >= 0 && b >= 0 && c >= 0) by (nonlinear_arith)
        requires
            a == d0 * m1 * s1 * 3600,
            b == m0 * d1 * s1 * 60,
            c == s0 * d1 * m1,
            d0 >= 0,
            m0 >= 0,
            s0 >= 0,
            d1 > 0,
            m1 > 0,
            s1 > 0,
    ;
    if d0 > 0 {
        assert(a > 0) by (nonlinear_arith)
            requires
                a == d0 * m1 * s1 * 3600,
                d0 > 0,
                m1 > 0,
                s1 > 0,
        ;
    }
    if d0 < inner * d1 {
        assert(a <= inner * unit * 3600) by (nonlinear_arith)
            requires
                a == d0 * m1 * s1 * 3600,
                unit == d1 * m1 * s1,
                d0 <= inner * d1,
                m1 > 0,
                s1 > 0,
        ;
    }
    if m0 <= 60 * m1 {
        assert(b <= unit * 3600) by (nonlinear_arith)
            requires
                b == m0 * d1 * s1 * 60,
                unit == d1 * m1 * s1,
                m0 <= 60 * m1,
                d1 > 0,
                s1 > 0,
        ;
    }
    if s0 <= 3600 * s1 {
        assert(c <= unit * 3600) by (nonlinear_arith)
            requires
                c == s0 * d1 * m1,
                unit == d1 * m1 * s1,
                s0 <= 3600 * s1,
                d1 > 0,
                m1 > 0,
        ;
    }
    let den = d1 * m1 * s1 * 3600;
    assert(den == unit * 3600);
    assert(inner * unit * 3600 + unit * 3600 + unit * 3600 <= outer * den) by (nonlinear_arith)
        requires
            den == unit * 3600,
            unit > 0,
            inner + 2 <= outer,
    ;
    if d0 > outer * d1 {
        assert(a > outer * den) by (nonlinear_arith)
            requires
                a == d0 * m1 * s1 * 3600,
                den == d1 * m1 * s1 * 3600,
                d0 > outer * d1,
                m1 > 0,
                s1 > 0,
        ;
    }
}

/// **No fix, no position.** Without a latitude field, or without a longitude field, there is
/// none; nor where a field has a zero denominator.
pub proof fn law_no_fix_no_position(fields: Seq<ExifFieldView>, i: int, v: Seq<(u32, u32)>)
    ensures
        lacks_tag(fields, ExifContext::Gps, 2) ==> position_in(fields) is None,
        lacks_tag(fields, ExifContext::Gps, 4) ==> position_in(fields) is None,
        (holds_tag(fields, i, ExifContext::Gps, 2) || holds_tag(fields, i, ExifContext::Gps, 4))
            && fields[i].value == ExifValueView::Rational(v) && v.len() > 0 && v[0].1 == 0
            ==> position_in(fields) is None,
{
    if lacks_tag(fields, ExifContext::Gps, 2) {
        lemma_no_field(fields, ExifContext::Gps, 2);
    }
    if lacks_tag(fields, ExifContext::Gps, 4) {
        lemma_no_field(fields, ExifContext::Gps, 4);
    }
    if holds_tag(fields, i, ExifContext::Gps, 2) {
        lemma_field(fields, i, ExifContext::Gps, 2);
    }
    if holds_tag(fields, i, ExifContext::Gps, 4) {
        lemma_field(fields, i, ExifContext::Gps, 4);
    }
}

/// **The original's date counts.** A file that holds its original date is dated by it; one
/// that does not, by the date of the image; one that holds neither is not dated.
pub proof fn law_original_date_counts(fields: Seq<ExifFieldView>, i: int, j: int)
    ensures
        holds_tag(fields, i, ExifContext::Exif, 36867) ==> taken_in(fields) == moment_of(
            fields[i].value,
        ),
        lacks_tag(fields, ExifContext::Exif, 36867) && holds_tag(fields, j, ExifContext::Tiff, 306)
            ==> taken_in(fields) == moment_of(fields[j].value),
        lacks_tag(fields, ExifContext::Exif, 36867) && lacks_tag(fields, ExifContext::Tiff, 306)
            ==> taken_in(fields) is None,
{
    if holds_tag(fields, i, ExifContext::Exif, 36867) {
        lemma_field(fields, i, ExifContext::Exif, 36867);
    }
    if lacks_tag(fields, ExifContext::Exif, 36867) {
        lemma_no_field(fields, ExifContext::Exif, 36867);
    }
    if holds_tag(fields, j, ExifContext::Tiff, 306) {
        lemma_field(fields, j, ExifContext::Tiff, 306);
    }
    if lacks_tag(fields, ExifContext::Tiff, 306) {
        lemma_no_field(fields, ExifContext::Tiff, 306);
    }
}

} // verus!
