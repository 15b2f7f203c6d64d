//! What becomes of the pixels of a picture, said of their places.

use vstd::prelude::*;

use crate::images::{
    clipped, crop_rect, crop_span, cropped, cut_rows, exif_number, jpeg, jpeg_of, long_side,
    narrowed, opaque_pixels, orientation_of, packed, pixel_shown, previewed, raw, reduced,
    scaled, swaps_sides, turned, turned_samples, upright, whole, OriginalView, PixelsView, Rect,
    Turn, FACE_CROP, PREVIEW_EDGE, PREVIEW_QUALITY, THUMB_EDGE, THUMB_QUALITY,
};
use crate::library::FaceBox;

verus! {

/// **Narrowing rounds to the nearest.** A sample of eight bits is that of sixteen over 257, to the
/// nearest: black stays black, white stays white, and what is brighter is not darker then.
pub proof fn law_narrowing_rounds(data: Seq<u16>, k: int, l: int)
    requires
        0 <= k < data.len(),
        0 <= l < data.len(),
    ensures
        narrowed(data).len() == data.len(),
        257 * narrowed(data)[k] - 128 <= data[k] <= 257 * narrowed(data)[k] + 128,
        data[k] == 0 ==> narrowed(data)[k] == 0,
        data[k] == 65_535 ==> narrowed(data)[k] == 255,
        data[k] <= data[l] ==> narrowed(data)[k] <= narrowed(data)[l],
{
    let (a, b) = (data[k] as int, data[l] as int);
    let (x, y) = ((a + 128) / 257, (b + 128) / 257);
    assert(x <= 255 && y <= 255);
    assert(narrowed(data)[k] == x && narrowed(data)[l] == y);
}

/// **A turn moves every pixel to its place.** A quarter turn to the right puts the top row at the
/// right edge, a half turn turns all around, a quarter turn to the left puts the top row at the
/// left edge; a flip mirrors; and the two others flip what was turned. `x` and `y` are the
/// pixel's place before.
pub proof fn law_turned_pixels(x: int, y: int, width: int, height: int)
    ensures
        pixel_shown(Turn::NoTransforms, x, y, width, height) == (x, y),
        pixel_shown(Turn::Rotate90, height - 1 - y, x, width, height) == (x, y),
        pixel_shown(Turn::Rotate180, width - 1 - x, height - 1 - y, width, height) == (x, y),
        pixel_shown(Turn::Rotate270, y, width - 1 - x, width, height) == (x, y),
        pixel_shown(Turn::FlipHorizontal, width - 1 - x, y, width, height) == (x, y),
        pixel_shown(Turn::FlipVertical, x, height - 1 - y, width, height) == (x, y),
        pixel_shown(Turn::Rotate90FlipH, y, x, width, height) == (x, y),
        pixel_shown(Turn::Rotate270FlipH, height - 1 - y, width - 1 - x, width, height) == (x, y),
{
}

/// **The turns by their numbers.**
pub proof fn law_turn_numbers()
    ensures
        exif_number(Turn::NoTransforms) == 1,
        exif_number(Turn::FlipHorizontal) == 2,
        exif_number(Turn::Rotate180) == 3,
        exif_number(Turn::FlipVertical) == 4,
        exif_number(Turn::Rotate90FlipH) == 5,
        exif_number(Turn::Rotate90) == 6,
        exif_number(Turn::Rotate270FlipH) == 7,
        exif_number(Turn::Rotate270) == 8,
{
}

/// **A turned picture shows each pixel's samples in its new place**, and has its sides swapped
/// where it was put on its side.
pub proof fn law_turned_samples<T>(
    data: Seq<T>,
    t: Turn,
    width: int,
    height: int,
    x: int,
    y: int,
    c: int,
)
    requires
        0 < width,
        0 < height,
        data.len() == width * height * 3,
        0 <= c < 3,
        0 <= x < if swaps_sides(t) {
            height
        } else {
            width
        },
        0 <= y < if swaps_sides(t) {
            width
        } else {
            height
        },
    ensures
        ({
            let across = if t is Rotate90 || t is Rotate270 || t is Rotate90FlipH
                || t is Rotate270FlipH {
                height
            } else {
                width
            };
            let (sx, sy) = pixel_shown(t, x, y, width, height);
            turned_samples(data, t, width, height)[(y * across + x) * 3 + c] == data[(sy * width
                + sx) * 3 + c]
        }),
{
    let across = if swaps_sides(t) {
        height
    } else {
        width
    };
    let down = if swaps_sides(t) {
        width
    } else {
        height
    };
    let p = y * across + x;
    let k = p * 3 + c;
    assert(0 <= p < across * down) by (nonlinear_arith)
        requires
            0 <= x < across,
            0 <= y < down,
            p == y * across + x,
    ;
    assert(across * down == width * height) by (nonlinear_arith)
        requires
            (across == height && down == width) || (across == width && down == height),
    ;
    assert(0 <= k < data.len());
    assert(k / 3 == p && k % 3 == c);
    assert(p % across == x && p / across == y) by (nonlinear_arith)
        requires
            p == y * across + x,
            0 <= x < across,
            0 <= y,
    ;
}

/// **A decoded picture stands upright.** It is turned as its file says; a file that does not tell
/// is not turned; what cannot be decoded, or is too large, is none.
pub proof fn law_pictures_stand_upright(bytes: Seq<u8>)
    ensures
        raw(bytes) is None ==> upright(bytes) is None,
        raw(bytes) matches Some(o) ==> {
            &&& !o.wf() ==> upright(bytes) is None
            &&& o.wf() && orientation_of(bytes) is Some ==> upright(bytes) == Some(
                turned(o, orientation_of(bytes)->0),
            )
            &&& o.wf() && orientation_of(bytes) is None ==> upright(bytes) == Some(
                turned(o, Turn::NoTransforms),
            )
        },
        forall|o: OriginalView, t: Turn|
            #![trigger turned(o, t)]
            turned(o, t).width == (if t is Rotate90 || t is Rotate270 || t is Rotate90FlipH
                || t is Rotate270FlipH {
                o.height
            } else {
                o.width
            }) && turned(o, t).height == (if t is Rotate90 || t is Rotate270 || t is Rotate90FlipH
                || t is Rotate270FlipH {
                o.width
            } else {
                o.height
            }),
{
}

/// **A plane is read row by row.** Each row of the picture is the start of a row of the plane.
pub proof fn law_planes_are_read_by_rows(
    data: Seq<u8>,
    row: int,
    stride: int,
    rows: nat,
    r: int,
    c: int,
)
    requires
        0 <= row <= stride,
        0 <= r < rows,
        0 <= c < row,
        (rows - 1) * stride + row <= data.len(),
    ensures
        packed(data, row, stride, rows).len() == rows * row,
        packed(data, row, stride, rows)[r * row + c] == data[r * stride + c],
    decreases rows,
{
    let start = (rows - 1) * stride;
    let front = packed(data, row, stride, (rows - 1) as nat);
    assert(start >= 0) by (nonlinear_arith)
        requires
            start == (rows - 1) * stride,
            rows >= 1,
            stride >= 0,
    ;
    assert((rows - 2) * stride + row <= data.len()) by (nonlinear_arith)
        requires
            (rows - 1) * stride + row <= data.len(),
            stride >= 0,
    ;
    lemma_packed_length(data, row, stride, (rows - 1) as nat);
    assert(rows * row == (rows - 1) * row + row) by (nonlinear_arith);
    if r < rows - 1 {
        law_planes_are_read_by_rows(data, row, stride, (rows - 1) as nat, r, c);
        assert(r * row + c < (rows - 1) * row) by (nonlinear_arith)
            requires
                0 <= r < rows - 1,
                0 <= c < row,
        ;
        assert(r * row + c >= 0) by (nonlinear_arith)
            requires
                0 <= r,
                0 <= c < row,
        ;
    } else {
        assert(r * row + c - (rows - 1) * row == c);
    }
}

proof fn lemma_packed_length(data: Seq<u8>, row: int, stride: int, rows: nat)
    requires
        0 <= row <= stride,
        rows > 0 ==> (rows - 1) * stride + row <= data.len(),
    ensures
        packed(data, row, stride, rows).len() == rows * row,
    decreases rows,
{
    if rows > 0 {
        if rows > 1 {
            assert((rows - 2) * stride + row <= data.len()) by (nonlinear_arith)
                requires
                    (rows - 1) * stride + row <= data.len(),
                    stride >= 0,
            ;
        }
        lemma_packed_length(data, row, stride, (rows - 1) as nat);
        let start = (rows - 1) * stride;
        assert(start >= 0) by (nonlinear_arith)
            requires
                start == (rows - 1) * stride,
                rows >= 1,
                stride >= 0,
        ;
        assert(rows * row == (rows - 1) * row + row) by (nonlinear_arith);
    } else {
        assert(rows * row == 0) by (nonlinear_arith)
            requires
                rows == 0,
        ;
    }
}

/// **Alpha is left out, and only alpha.** Of each four bytes the last three stay.
pub proof fn law_alpha_is_left_out(argb: Seq<u8>, n: nat, k: int)
    requires
        0 <= k < n,
        4 * n <= argb.len(),
    ensures
        opaque_pixels(argb, n).len() == 3 * n,
        opaque_pixels(argb, n)[3 * k] == argb[4 * k + 1],
        opaque_pixels(argb, n)[3 * k + 1] == argb[4 * k + 2],
        opaque_pixels(argb, n)[3 * k + 2] == argb[4 * k + 3],
    decreases n,
{
    lemma_opaque_length(argb, (n - 1) as nat);
    if k < n - 1 {
        law_alpha_is_left_out(argb, (n - 1) as nat, k);
    }
}

proof fn lemma_opaque_length(argb: Seq<u8>, n: nat)
    ensures
        opaque_pixels(argb, n).len() == 3 * n,
    decreases n,
{
    if n > 0 {
        lemma_opaque_length(argb, (n - 1) as nat);
    }
}

/// **A cut-out shows the picture at its place.** The pixel at a place of the cut-out is the one as
/// far from the rectangle's corner in the picture.
pub proof fn law_cut_outs_show_the_picture(p: PixelsView, r: Rect, x: int, y: int, c: int)
    requires
        p.wf(),
        r.x + r.width <= p.width,
        r.y + r.height <= p.height,
        0 <= x < r.width,
        0 <= y < r.height,
        0 <= c < 3,
    ensures
        cropped(p, r).width == r.width,
        cropped(p, r).height == r.height,
        cropped(p, r).data[(y * r.width + x) * 3 + c] == p.data[((r.y + y) * p.width + r.x + x) * 3
            + c],
{
    lemma_cut(p, r.x as int, r.y as int, r.width as int, r.height as nat, x, y, c);
}

proof fn lemma_cut(
    p: PixelsView,
    left: int,
    top: int,
    width: int,
    rows: nat,
    x: int,
    y: int,
    c: int,
)
    requires
        p.wf(),
        0 <= left,
        0 <= top,
        left + width <= p.width,
        top + rows <= p.height,
        0 <= x < width,
        0 <= y < rows,
        0 <= c < 3,
    ensures
        cut_rows(p, left, top, width, rows).len() == rows * width * 3,
        cut_rows(p, left, top, width, rows)[(y * width + x) * 3 + c] == p.data[((top + y) * p.width
            + left + x) * 3 + c],
    decreases rows,
{
    let last = rows - 1;
    let start = ((top + rows - 1) * p.width + left) * 3;
    let front = cut_rows(p, left, top, width, last as nat);
    let w = p.width as int;
    assert(0 <= start && start + width * 3 <= p.data.len()) by {
        let r = top + rows - 1;
        let high = p.height as int;
        assert(r * w + w <= high * w) by (nonlinear_arith)
            requires
                0 <= r,
                r + 1 <= high,
                w >= 0,
        ;
        assert(high * w == p.width * p.height) by (nonlinear_arith)
            requires
                high == p.height,
                w == p.width,
        ;
        assert(r * w >= 0) by (nonlinear_arith)
            requires
                r >= 0,
                w >= 0,
        ;
    }
    lemma_cut_length(p, left, top, width, last as nat);
    assert(rows * width * 3 == last * width * 3 + width * 3) by (nonlinear_arith)
        requires
            last == rows - 1,
    ;
    if y < last {
        lemma_cut(p, left, top, width, last as nat, x, y, c);
        assert(0 <= (y * width + x) * 3 + c < last * width * 3) by (nonlinear_arith)
            requires
                0 <= y < last,
                0 <= x < width,
                0 <= c < 3,
        ;
    } else {
        assert((y * width + x) * 3 + c - last * width * 3 == x * 3 + c) by (nonlinear_arith)
            requires
                y == last,
        ;
        assert(0 <= x * 3 + c < width * 3);
        assert(start + x * 3 + c == ((top + y) * p.width + left + x) * 3 + c) by (nonlinear_arith)
            requires
                start == ((top + rows - 1) * p.width + left) * 3,
                y == rows - 1,
        ;
    }
}

proof fn lemma_cut_length(p: PixelsView, left: int, top: int, width: int, rows: nat)
    requires
        p.wf(),
        0 <= left,
        0 <= top,
        0 <= width,
        left + width <= p.width,
        top + rows <= p.height,
    ensures
        cut_rows(p, left, top, width, rows).len() == rows * width * 3,
    decreases rows,
{
    if rows > 0 {
        let last = rows - 1;
        let start = ((top + rows - 1) * p.width + left) * 3;
        let w = p.width as int;
        lemma_cut_length(p, left, top, width, last as nat);
        let r = top + rows - 1;
        let high = p.height as int;
        assert(r * w + w <= high * w) by (nonlinear_arith)
            requires
                0 <= r,
                r + 1 <= high,
                w >= 0,
        ;
        assert(high * w == p.width * p.height) by (nonlinear_arith)
            requires
                high == p.height,
                w == p.width,
        ;
        assert(r * w >= 0) by (nonlinear_arith)
            requires
                r >= 0,
                w >= 0,
        ;
        assert(rows * width * 3 == last * width * 3 + width * 3) by (nonlinear_arith)
            requires
                last == rows - 1,
        ;
    } else {
        assert(rows * width * 3 == 0) by (nonlinear_arith)
            requires
                rows == 0,
        ;
    }
}

/// **A cover shows the whole face.** For a box in the picture, the cut-out starts at or before the
/// box and ends at or behind it, to the pixel, in both directions.
pub proof fn law_cover_shows_the_face(b: FaceBox, width: int, height: int)
    requires
        0 <= b.x1 <= b.x2 <= 1_000_000,
        0 <= b.y1 <= b.y2 <= 1_000_000,
        0 < width,
        0 < height,
    ensures
        ({
            let (x, y, w, h) = crop_rect(b, width, height);
            &&& x * 1_000_000 <= b.x1 * width
            &&& y * 1_000_000 <= b.y1 * height
            &&& b.x2 * width < (x + w + 1) * 1_000_000
            &&& b.y2 * height < (y + h + 1) * 1_000_000
        }),
{
    let side = long_side(b, width, height);
    let (wx, wy) = ((b.x2 - b.x1) * width, (b.y2 - b.y1) * height);
    assert(side >= wx && side >= wy);
    lemma_span(b.x1 as int, b.x2 as int, side, width);
    lemma_span(b.y1 as int, b.y2 as int, side, height);
}

proof fn lemma_span(a: int, b: int, side: int, edge: int)
    requires
        0 <= a <= b <= 1_000_000,
        side >= (b - a) * edge,
        edge > 0,
    ensures
        ({
            let (lo, n) = clipped(crop_span(a + b, side, edge), edge);
            &&& lo * 1_000_000 <= a * edge
            &&& b * edge < (lo + n + 1) * 1_000_000
        }),
{
    let sum = a + b;
    let (p, q) = (5 * sum * edge - 7 * side, 5 * sum * edge + 7 * side);
    let (ae, be) = (a * edge, b * edge);
    assert((b - a) * edge == be - ae) by (nonlinear_arith)
        requires
            ae == a * edge,
            be == b * edge,
    ;
    assert(5 * sum * edge == 5 * ae + 5 * be) by (nonlinear_arith)
        requires
            sum == a + b,
            ae == a * edge,
            be == b * edge,
    ;
    assert(0 <= ae && ae <= be) by (nonlinear_arith)
        requires
            0 <= a <= b,
            edge > 0,
            ae == a * edge,
            be == b * edge,
    ;
    assert(be <= 1_000_000 * edge) by (nonlinear_arith)
        requires
            b <= 1_000_000,
            edge > 0,
            be == b * edge,
    ;
    // The start is at or before the box, the end at or behind it.
    assert(p <= 10 * ae);
    assert(q >= 10 * be);
    let lo = whole(p, 10_000_000);
    let end = whole(q, 10_000_000);
    assert(lo * 10_000_000 <= 10 * ae) by {
        if p > 0 {
            assert(lo == p / 10_000_000);
        }
    }
    assert(10 * be < (end + 1) * 10_000_000) by {
        if q > 0 {
            assert(end == q / 10_000_000);
        }
    }
    assert(lo <= edge);
}

/// **A cover is square, with a margin.** Where neither edge of the picture is in the way, the
/// cut-out is 1.4 times the longer side of the box, to the pixel, in both directions.
pub proof fn law_cover_is_square(b: FaceBox, width: int, height: int)
    requires
        0 <= b.x1 <= b.x2 <= 1_000_000,
        0 <= b.y1 <= b.y2 <= 1_000_000,
        0 < width,
        0 < height,
        ({
            let side = long_side(b, width, height);
            &&& 7 * side <= 5 * (b.x1 + b.x2) * width
            &&& 7 * side <= 5 * (b.y1 + b.y2) * height
            &&& 5 * (b.x1 + b.x2) * width + 7 * side <= 10_000_000 * width
            &&& 5 * (b.y1 + b.y2) * height + 7 * side <= 10_000_000 * height
        }),
    ensures
        ({
            let (x, y, w, h) = crop_rect(b, width, height);
            let side = long_side(b, width, height);
            &&& 14 * side - 10_000_000 < w * 10_000_000 < 14 * side + 10_000_000 || w == 1
            &&& 14 * side - 10_000_000 < h * 10_000_000 < 14 * side + 10_000_000 || h == 1
        }),
        long_side(b, width, height) >= (b.x2 - b.x1) * width,
        long_side(b, width, height) >= (b.y2 - b.y1) * height,
        long_side(b, width, height) == (b.x2 - b.x1) * width || long_side(b, width, height) == (b.y2
            - b.y1) * height,
{
    let side = long_side(b, width, height);
    let wide = (b.x2 - b.x1) * width;
    assert(wide >= 0) by (nonlinear_arith)
        requires
            wide == (b.x2 - b.x1) * width,
            b.x1 <= b.x2,
            width > 0,
    ;
    lemma_square(b.x1 + b.x2, side, width);
    lemma_square(b.y1 + b.y2, side, height);
}

proof fn lemma_square(sum: int, side: int, edge: int)
    requires
        edge > 0,
        side >= 0,
        7 * side <= 5 * sum * edge,
        5 * sum * edge + 7 * side <= 10_000_000 * edge,
    ensures
        ({
            let (lo, n) = clipped(crop_span(sum, side, edge), edge);
            14 * side - 10_000_000 < n * 10_000_000 < 14 * side + 10_000_000 || n == 1 || n == 0
                && edge == lo
        }),
        ({
            let (lo, n) = clipped(crop_span(sum, side, edge), edge);
            n == 0 ==> 14 * side - 10_000_000 < 0 < 14 * side + 10_000_000
        }),
{
    let m = 5 * sum * edge;
    let lo = whole(m - 7 * side, 10_000_000);
    let end = whole(m + 7 * side, 10_000_000);
    assert(end <= edge) by {
        if m + 7 * side > 0 {
            assert(end == (m + 7 * side) / 10_000_000);
        }
    }
}

/// **A small original is its own preview, a large one is scaled.** The limit is 2,560 pixels on
/// either side.
pub proof fn law_previews(o: OriginalView)
    ensures
        o.width <= 2560 && o.height <= 2560 ==> previewed(o) == reduced(o),
        o.width > 2560 || o.height > 2560 ==> previewed(o) == scaled(o, 2560),
        reduced(o).width == o.width && reduced(o).height == o.height,
{
}

/// **The sizes and qualities of what is cached.**
pub proof fn law_cached_sizes()
    ensures
        THUMB_EDGE == 256,
        PREVIEW_EDGE == 2560,
        FACE_CROP == 256,
        THUMB_QUALITY == 80,
        PREVIEW_QUALITY == 85,
{
}

/// **A JPEG holds a picture that is not empty and not too long.**
pub proof fn law_what_a_jpeg_holds(p: PixelsView, quality: u8)
    ensures
        jpeg_of(p, quality) == (if p.wf() && 1 <= p.width && p.width <= 65535 && 1 <= p.height
            && p.height <= 65535 {
            Some(jpeg(p, quality))
        } else {
            None
        }),
        p.wf() <==> p.data.len() == p.width * p.height * 3 && p.width * p.height <= 2_147_483_648,
{
}

} // verus!
