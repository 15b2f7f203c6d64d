//! Pictures: thumbnails, previews and face crops.
//!
//! Every original is decoded once, and everything cached is derived from that: the grid
//! thumbnail and the viewer preview, from which faces are found later.

use image::metadata::Orientation;
use image::{ColorType, DynamicImage, ImageBuffer, ImageDecoder};
use vstd::prelude::*;

use crate::library::FaceBox;
use crate::paths::{extension, extension_in};
use crate::text::{lowered, same_lower};

verus! {

/// Longest edge of a thumbnail, in pixels.
pub const THUMB_EDGE: u32 = 256;

/// JPEG quality of cached thumbnails.
pub const THUMB_QUALITY: u8 = 80;

/// Longest edge of a viewer preview, in pixels. Big enough to look crisp on a full screen,
/// small enough to open instantly.
pub const PREVIEW_EDGE: u32 = 2560;

/// JPEG quality of previews and face crops.
pub const PREVIEW_QUALITY: u8 = 85;

/// Edge length of a cached face crop, in pixels.
pub const FACE_CROP: u32 = 256;

/// The largest picture that is scaled, in pixels. The scaler adds up what makes one pixel in
/// 32 bits, which eight-bit samples of a picture of this size cannot exceed.
pub const MAX_PIXELS: u64 = 0x8000_0000;

/// The most sixteen-bit samples that can be added up in 32 bits.
pub const MAX_DEEP_BLOCK: u64 = 65_536;

/// A picture: eight bits each of red, green and blue per pixel, row by row.
pub struct Pixels {
    pub width: u32,
    pub height: u32,
    pub data: Vec<u8>,
}

/// A picture, mathematically.
pub struct PixelsView {
    pub width: u32,
    pub height: u32,
    pub data: Seq<u8>,
}

impl View for Pixels {
    type V = PixelsView;

    open spec fn view(&self) -> PixelsView {
        PixelsView { width: self.width, height: self.height, data: self.data@ }
    }
}

impl PixelsView {
    /// The data is that of a picture of its size, which is not too large.
    pub open spec fn wf(self) -> bool {
        &&& self.data.len() == self.width * self.height * 3
        &&& self.width * self.height <= MAX_PIXELS
    }
}

impl Pixels {
    /// Whether the data is that of a picture of its size, which is not too large.
    pub fn is_wf(&self) -> (r: bool)
        ensures
            r == self@.wf(),
    {
        proof {
            let (w, h) = (self.width as int, self.height as int);
            assert(0 <= w * h <= 0xffff_ffff_0000_0000) by (nonlinear_arith)
                requires
                    0 <= w <= 0xffff_ffff,
                    0 <= h <= 0xffff_ffff,
            ;
        }
        let n: u64 = self.width as u64 * self.height as u64;
        n <= MAX_PIXELS && self.data.len() as u64 == n * 3
    }
}

/// The samples of an original: red, green and blue of each pixel, row by row, in as many
/// bits as its file has.
pub enum Samples {
    Eight(Vec<u8>),
    Sixteen(Vec<u16>),
}

/// The samples of an original, mathematically.
pub enum SamplesView {
    Eight(Seq<u8>),
    Sixteen(Seq<u16>),
}

/// A decoded original.
pub struct Original {
    pub width: u32,
    pub height: u32,
    pub samples: Samples,
}

/// A decoded original, mathematically.
pub struct OriginalView {
    pub width: u32,
    pub height: u32,
    pub samples: SamplesView,
}

impl View for Original {
    type V = OriginalView;

    open spec fn view(&self) -> OriginalView {
        OriginalView {
            width: self.width,
            height: self.height,
            samples: match self.samples {
                Samples::Eight(d) => SamplesView::Eight(d@),
                Samples::Sixteen(d) => SamplesView::Sixteen(d@),
            },
        }
    }
}

/// The shorter side, in pixels, of a thumbnail 256 pixels long; a half is rounded down.
pub open spec fn short_side(long: int, short: int) -> int {
    let n = (512 * short + long - 1) / (2 * long);
    if n < 1 {
        1
    } else {
        n
    }
}

/// At least as many pixels along one side as make one of `to` pixels, with room for what a
/// fraction of 24 bits leaves out.
pub open spec fn share(from: int, to: int) -> int {
    (from + to - 1) / to + from / 1_000_000 + 1
}

/// At least as many pixels as make one pixel of a thumbnail 256 pixels long or longer.
pub open spec fn block(width: int, height: int) -> int {
    let long = if width > height {
        width
    } else {
        height
    };
    let short = if width > height {
        height
    } else {
        width
    };
    if short <= 0 {
        0
    } else {
        let across = share(short, short_side(long, short));
        share(long, 256) * if short < across {
            short
        } else {
            across
        }
    }
}

impl OriginalView {
    /// The samples are those of a picture of its size, which is not too large to be scaled.
    pub open spec fn wf(self) -> bool {
        &&& self.width * self.height <= MAX_PIXELS
        &&& match self.samples {
            SamplesView::Eight(d) => d.len() == self.width * self.height * 3,
            SamplesView::Sixteen(d) => d.len() == self.width * self.height * 3 && block(
                self.width as int,
                self.height as int,
            ) <= MAX_DEEP_BLOCK,
        }
    }
}

fn block_size(width: u32, height: u32) -> (n: u64)
    ensures
        n == block(width as int, height as int),
{
    let (long, short): (u64, u64) = if width > height {
        (width as u64, height as u64)
    } else {
        (height as u64, width as u64)
    };
    if short == 0 {
        return 0;
    }
    let rounded: u64 = (512 * short + long - 1) / (2 * long);
    let side: u64 = if rounded < 1 {
        1
    } else {
        rounded
    };
    assert(rounded <= 512 * short + long - 1) by (nonlinear_arith)
        requires
            rounded == (512 * short + long - 1) / (2 * long),
            short >= 1,
            long >= 1,
    ;
    let along: u64 = (long + 255) / 256 + long / 1_000_000 + 1;
    let parts: u64 = (short + side - 1) / side;
    assert(parts <= short + side - 1) by (nonlinear_arith)
        requires
            parts == (short + side - 1) / (side as int),
            short >= 1,
            side >= 1,
    ;
    let across: u64 = parts + short / 1_000_000 + 1;
    let least: u64 = if short < across {
        short
    } else {
        across
    };
    assert(0 <= along * least <= 0x200_0000 * 0x1_0000_0000) by (nonlinear_arith)
        requires
            0 <= along <= 0x200_0000,
            0 <= least <= 0x1_0000_0000,
    ;
    along * least
}

impl Original {
    /// Whether the samples are those of a picture of its size, which is not too large to be
    /// scaled.
    pub fn is_wf(&self) -> (r: bool)
        ensures
            r == self@.wf(),
    {
        proof {
            let (w, h) = (self.width as int, self.height as int);
            assert(0 <= w * h <= 0xffff_ffff_0000_0000) by (nonlinear_arith)
                requires
                    0 <= w <= 0xffff_ffff,
                    0 <= h <= 0xffff_ffff,
            ;
        }
        let n: u64 = self.width as u64 * self.height as u64;
        n <= MAX_PIXELS && match &self.samples {
            Samples::Eight(d) => d.len() as u64 == n * 3,
            Samples::Sixteen(d) => d.len() as u64 == n * 3 && block_size(self.width, self.height)
                <= MAX_DEEP_BLOCK,
        }
    }

    /// An original in eight bits.
    pub fn from_pixels(p: Pixels) -> (o: Self)
        ensures
            o@ == (OriginalView {
                width: p.width,
                height: p.height,
                samples: SamplesView::Eight(p.data@),
            }),
            p@.wf() ==> o@.wf(),
    {
        Original { width: p.width, height: p.height, samples: Samples::Eight(p.data) }
    }

    /// The original in eight bits of red, green and blue.
    pub fn to_rgb8(&self) -> (p: Pixels)
        requires
            self@.wf(),
        ensures
            p@ == reduced(self@),
            p@.wf(),
    {
        let data = match &self.samples {
            Samples::Eight(d) => copy_bytes(d),
            Samples::Sixteen(d) => narrow(d),
        };
        Pixels { width: self.width, height: self.height, data }
    }
}

/// Sixteen-bit samples in eight bits, each rounded to the nearest.
pub open spec fn narrowed(data: Seq<u16>) -> Seq<u8> {
    data.map_values(|c: u16| ((c + 128) / 257) as u8)
}

/// The original in eight bits of red, green and blue.
pub open spec fn reduced(o: OriginalView) -> PixelsView {
    PixelsView {
        width: o.width,
        height: o.height,
        data: match o.samples {
            SamplesView::Eight(d) => d,
            SamplesView::Sixteen(d) => narrowed(d),
        },
    }
}

fn copy_bytes(v: &Vec<u8>) -> (c: Vec<u8>)
    ensures
        c@ == v@,
{
    let mut c: Vec<u8> = Vec::with_capacity(v.len());
    for i in 0..v.len()
        invariant
            c@ == v@.take(i as int),
    {
        c.push(v[i]);
        assert(c@ =~= v@.take(i + 1));
    }
    assert(c@ =~= v@);
    c
}

fn narrow(data: &Vec<u16>) -> (out: Vec<u8>)
    ensures
        out@ == narrowed(data@),
{
    let mut out: Vec<u8> = Vec::with_capacity(data.len());
    for i in 0..data.len()
        invariant
            out@ == narrowed(data@.take(i as int)),
    {
        out.push(((data[i] as u32 + 128) / 257) as u8);
        assert(out@ =~= narrowed(data@.take(i + 1)));
    }
    assert(data@.take(data@.len() as int) =~= data@);
    out
}

/// The picture in the bytes of an image file, as it is stored there; none where they cannot
/// be decoded.
pub uninterp spec fn raw(bytes: Seq<u8>) -> Option<OriginalView>;

/// `image::DynamicImage::from_decoder`: the picture in the bytes of an image file, of the
/// format the bytes show, in red, green and blue of as many bits as the file has.
#[verifier::external_body]
fn decode_bytes(bytes: &[u8]) -> (o: Option<Original>)
    ensures
        match raw(bytes@) {
            Some(v) => o matches Some(x) && x@ == v,
            None => o is None,
        },
{
    let reader = image::ImageReader::new(std::io::Cursor::new(bytes)).with_guessed_format().ok()?;
    let img = DynamicImage::from_decoder(reader.into_decoder().ok()?).ok()?;
    let (width, height) = (img.width(), img.height());
    let samples = match img.color() {
        ColorType::L16 | ColorType::La16 | ColorType::Rgb16 | ColorType::Rgba16 => {
            Samples::Sixteen(img.into_rgb16().into_raw())
        },
        _ => Samples::Eight(img.into_rgb8().into_raw()),
    };
    Some(Original { width, height, samples })
}

/// How a stored picture is to be turned to stand upright.
#[derive(Clone, Copy, PartialEq, Eq, Structural, Debug)]
pub enum Turn {
    NoTransforms,
    Rotate90,
    Rotate180,
    Rotate270,
    FlipHorizontal,
    FlipVertical,
    Rotate90FlipH,
    Rotate270FlipH,
}

/// How the picture in the bytes of an image file is to be turned; none where they do not
/// tell.
pub uninterp spec fn orientation_of(bytes: Seq<u8>) -> Option<Turn>;

/// `image::ImageDecoder::orientation`: how the picture in the bytes of an image file is to
/// be turned, as the file's metadata says.
#[verifier::external_body]
fn read_orientation(bytes: &[u8]) -> (t: Option<Turn>)
    ensures
        t == orientation_of(bytes@),
{
    let reader = image::ImageReader::new(std::io::Cursor::new(bytes)).with_guessed_format().ok()?;
    Some(match reader.into_decoder().ok()?.orientation().ok()? {
        Orientation::NoTransforms => Turn::NoTransforms,
        Orientation::Rotate90 => Turn::Rotate90,
        Orientation::Rotate180 => Turn::Rotate180,
        Orientation::Rotate270 => Turn::Rotate270,
        Orientation::FlipHorizontal => Turn::FlipHorizontal,
        Orientation::FlipVertical => Turn::FlipVertical,
        Orientation::Rotate90FlipH => Turn::Rotate90FlipH,
        Orientation::Rotate270FlipH => Turn::Rotate270FlipH,
    })
}

/// The turn stands the picture on its side.
pub open spec fn swaps_sides(t: Turn) -> bool {
    t is Rotate90 || t is Rotate270 || t is Rotate90FlipH || t is Rotate270FlipH
}

/// The pixel of a picture of the given size that a turn shows at `(x, y)`.
pub open spec fn pixel_shown(t: Turn, x: int, y: int, width: int, height: int) -> (int, int) {
    match t {
        Turn::NoTransforms => (x, y),
        Turn::Rotate90 => (y, height - 1 - x),
        Turn::Rotate180 => (width - 1 - x, height - 1 - y),
        Turn::Rotate270 => (width - 1 - y, x),
        Turn::FlipHorizontal => (width - 1 - x, y),
        Turn::FlipVertical => (x, height - 1 - y),
        Turn::Rotate90FlipH => (y, x),
        Turn::Rotate270FlipH => (width - 1 - y, height - 1 - x),
    }
}

/// The samples of a picture after a turn.
pub open spec fn turned_samples<T>(data: Seq<T>, t: Turn, width: int, height: int) -> Seq<T> {
    let across = if swaps_sides(t) {
        height
    } else {
        width
    };
    Seq::new(
        data.len(),
        |k: int|
            {
                let (x, y) = pixel_shown(t, k / 3 % across, k / 3 / across, width, height);
                data[(y * width + x) * 3 + k % 3]
            },
    )
}

/// A picture after a turn.
pub open spec fn turned(o: OriginalView, t: Turn) -> OriginalView {
    let (w, h) = (o.width as int, o.height as int);
    OriginalView {
        width: if swaps_sides(t) {
            o.height
        } else {
            o.width
        },
        height: if swaps_sides(t) {
            o.width
        } else {
            o.height
        },
        samples: match o.samples {
            SamplesView::Eight(d) => SamplesView::Eight(turned_samples(d, t, w, h)),
            SamplesView::Sixteen(d) => SamplesView::Sixteen(turned_samples(d, t, w, h)),
        },
    }
}

/// The number of a turn in an EXIF block.
pub open spec fn exif_number(t: Turn) -> u8 {
    match t {
        Turn::NoTransforms => 1,
        Turn::FlipHorizontal => 2,
        Turn::Rotate180 => 3,
        Turn::FlipVertical => 4,
        Turn::Rotate90FlipH => 5,
        Turn::Rotate90 => 6,
        Turn::Rotate270FlipH => 7,
        Turn::Rotate270 => 8,
    }
}

fn number_of(t: Turn) -> (n: u8)
    ensures
        n == exif_number(t),
        1 <= n <= 8,
{
    match t {
        Turn::NoTransforms => 1,
        Turn::FlipHorizontal => 2,
        Turn::Rotate180 => 3,
        Turn::FlipVertical => 4,
        Turn::Rotate90FlipH => 5,
        Turn::Rotate90 => 6,
        Turn::Rotate270FlipH => 7,
        Turn::Rotate270 => 8,
    }
}

/// `image::DynamicImage::apply_orientation`: the picture after the turn of that number in an
/// EXIF block, each pixel in the place where the turn shows it.
#[verifier::external_body]
fn turn(o: Original, number: u8) -> (out: Original)
    requires
        o@.wf(),
        1 <= number <= 8,
    ensures
        forall|t: Turn| #[trigger] exif_number(t) == number ==> out@ == turned(o@, t),
{
    let (w, h) = (o.width, o.height);
    let mut img = match o.samples {
        Samples::Eight(d) => DynamicImage::ImageRgb8(ImageBuffer::from_raw(w, h, d).unwrap()),
        Samples::Sixteen(d) => DynamicImage::ImageRgb16(ImageBuffer::from_raw(w, h, d).unwrap()),
    };
    img.apply_orientation(Orientation::from_exif(number).unwrap());
    let (width, height) = (img.width(), img.height());
    let samples = match img {
        DynamicImage::ImageRgb16(x) => Samples::Sixteen(x.into_raw()),
        other => Samples::Eight(other.into_rgb8().into_raw()),
    };
    Original { width, height, samples }
}

proof fn lemma_turned_wf(o: OriginalView, t: Turn)
    requires
        o.wf(),
    ensures
        turned(o, t).wf(),
{
    let (w, h) = (o.width as int, o.height as int);
    assert(w * h == h * w) by (nonlinear_arith);
}

/// The picture in the bytes of an image file, as it is stored.
pub uninterp spec fn stored(bytes: Seq<u8>) -> Option<PixelsView>;

/// `image::load_from_memory`: the picture in the bytes of an image file, of the format the
/// bytes show, in eight bits of red, green and blue.
#[verifier::external_body]
fn load_bytes(bytes: &[u8]) -> (p: Option<Pixels>)
    ensures
        match stored(bytes@) {
            Some(v) => p matches Some(x) && x@ == v,
            None => p is None,
        },
{
    let rgb = image::load_from_memory(bytes).ok()?.into_rgb8();
    Some(Pixels { width: rgb.width(), height: rgb.height(), data: rgb.into_raw() })
}

/// The original scaled to fit a square, its aspect ratio kept, and then in eight bits.
pub uninterp spec fn scaled(o: OriginalView, edge: u32) -> PixelsView;

/// `image::DynamicImage::thumbnail`: the original scaled to fit a square of `edge` pixels,
/// its aspect ratio kept, and then in eight bits. It has at least one pixel each way, and at
/// most `edge`.
#[verifier::external_body]
fn thumbnail(o: &Original, edge: u32) -> (out: Pixels)
    requires
        o@.wf(),
        256 <= edge <= 16384,
    ensures
        out@ == scaled(o@, edge),
        out@.wf(),
        1 <= out.width <= edge,
        1 <= out.height <= edge,
{
    let (w, h) = (o.width, o.height);
    let img = match &o.samples {
        Samples::Eight(d) => DynamicImage::ImageRgb8(ImageBuffer::from_raw(w, h, d.clone()).unwrap()),
        Samples::Sixteen(d) => DynamicImage::ImageRgb16(ImageBuffer::from_raw(w, h, d.clone()).unwrap()),
    };
    let rgb = img.thumbnail(edge, edge).into_rgb8();
    Pixels { width: rgb.width(), height: rgb.height(), data: rgb.into_raw() }
}

/// The picture resampled to another size.
pub uninterp spec fn resampled(p: PixelsView, width: u32, height: u32) -> PixelsView;

/// `image::imageops::resize` with the triangle filter: the picture resampled to another
/// size, which it then has.
#[verifier::external_body]
fn resize(p: &Pixels, width: u32, height: u32) -> (out: Pixels)
    requires
        p@.wf(),
        1 <= width <= 16384,
        1 <= height <= 16384,
    ensures
        out@ == resampled(p@, width, height),
        out@.wf(),
        out.width == width,
        out.height == height,
{
    let img = image::RgbImage::from_raw(p.width, p.height, p.data.clone()).unwrap();
    let rgb = image::imageops::resize(&img, width, height, image::imageops::FilterType::Triangle);
    Pixels { width: rgb.width(), height: rgb.height(), data: rgb.into_raw() }
}

/// The picture as the bytes of a JPEG file.
pub uninterp spec fn jpeg(p: PixelsView, quality: u8) -> Seq<u8>;

/// A JPEG file can hold the picture: it is not empty, and not too long either way.
pub open spec fn encodable(p: PixelsView) -> bool {
    p.wf() && 1 <= p.width <= 65535 && 1 <= p.height <= 65535
}

/// The file starts with the magic bytes of JPEG.
pub open spec fn is_jpeg(bytes: Seq<u8>) -> bool {
    bytes.len() >= 2 && bytes[0] == 0xFF && bytes[1] == 0xD8
}

/// `image::codecs::jpeg::JpegEncoder::encode`: the picture as the bytes of a JPEG file,
/// which start with its magic bytes. Only the size of a picture can make it fail.
#[verifier::external_body]
fn encode_bytes(p: &Pixels, quality: u8) -> (bytes: Vec<u8>)
    requires
        encodable(p@),
    ensures
        bytes@ == jpeg(p@, quality),
        is_jpeg(bytes@),
{
    let mut buf = Vec::new();
    let out = std::io::Cursor::new(&mut buf);
    let mut encoder = image::codecs::jpeg::JpegEncoder::new_with_quality(out, quality);
    encoder.encode(&p.data, p.width, p.height, image::ExtendedColorType::Rgb8).unwrap();
    buf
}

/// A picture that came from outside, if it is one.
pub open spec fn checked(p: Option<PixelsView>) -> Option<PixelsView> {
    match p {
        Some(v) if v.wf() => Some(v),
        _ => None,
    }
}

/// The picture is the one given.
pub open spec fn is_picture(p: Option<Pixels>, v: Option<PixelsView>) -> bool {
    match v {
        Some(w) => p matches Some(x) && x@ == w,
        None => p is None,
    }
}

/// Only a picture whose data has its size.
pub fn check(p: Option<Pixels>) -> (out: Option<Pixels>)
    ensures
        is_picture(
            out,
            checked(
                match p {
                    Some(x) => Some(x@),
                    None => None,
                },
            ),
        ),
{
    match p {
        Some(x) => if x.is_wf() {
            Some(x)
        } else {
            None
        },
        None => None,
    }
}

/// The upright picture in the bytes of an image file: as it is stored, turned as the file
/// says (not at all, where it does not tell); none where the bytes hold none.
pub open spec fn upright(bytes: Seq<u8>) -> Option<OriginalView> {
    match raw(bytes) {
        Some(o) if o.wf() => Some(
            turned(
                o,
                match orientation_of(bytes) {
                    Some(t) => t,
                    None => Turn::NoTransforms,
                },
            ),
        ),
        _ => None,
    }
}

/// Turn an original, each pixel in the place where the turn shows it.
pub fn apply_turn(o: Original, t: Turn) -> (out: Original)
    requires
        o@.wf(),
    ensures
        out@ == turned(o@, t),
        out@.wf(),
{
    proof {
        lemma_turned_wf(o@, t);
    }
    turn(o, number_of(t))
}

/// Decode an original, upright, so nothing is ever sideways.
pub fn load_oriented(bytes: &[u8]) -> (o: Option<Original>)
    ensures
        match upright(bytes@) {
            Some(v) => o matches Some(x) && x@ == v && v.wf(),
            None => o is None,
        },
{
    let o = match decode_bytes(bytes) {
        Some(o) => o,
        None => return None,
    };
    if !o.is_wf() {
        return None;
    }
    let t = match read_orientation(bytes) {
        Some(t) => t,
        None => Turn::NoTransforms,
    };
    Some(apply_turn(o, t))
}

/// Decode a cached preview.
pub fn load_preview(bytes: &[u8]) -> (p: Option<Pixels>)
    ensures
        is_picture(p, checked(stored(bytes@))),
{
    check(load_bytes(bytes))
}

/// Whether the file starts with the magic bytes of JPEG.
pub fn has_jpeg_magic(bytes: &[u8]) -> (r: bool)
    ensures
        r == is_jpeg(bytes@),
{
    bytes.len() >= 2 && bytes[0] == 0xFF && bytes[1] == 0xD8
}

/// A genuine HEIC, by its extension; not a JPEG file that carries it, which
/// photo-management tools sometimes produce.
pub open spec fn is_heic(path: Seq<char>, bytes: Seq<u8>) -> bool {
    &&& extension_in(path) matches Some(e) && (lowered(e) == lowered("heic"@) || lowered(e)
        == lowered("heif"@))
    &&& !is_jpeg(bytes)
}

/// Whether an original needs the HEIC decoder.
pub fn needs_heic_decoder(path: &str, bytes: &[u8]) -> (r: bool)
    ensures
        r == is_heic(path@, bytes@),
{
    match extension(path) {
        Some(e) => (same_lower(e.as_str(), "heic") || same_lower(e.as_str(), "heif"))
            && !has_jpeg_magic(bytes),
        None => false,
    }
}

/// The preview of an original: scaled down, never up.
pub open spec fn previewed(o: OriginalView) -> PixelsView {
    if o.width > PREVIEW_EDGE || o.height > PREVIEW_EDGE {
        scaled(o, PREVIEW_EDGE)
    } else {
        reduced(o)
    }
}

/// Downscale an original to a viewer preview, never upscaling a small one.
pub fn to_preview(o: &Original) -> (out: Pixels)
    requires
        o@.wf(),
    ensures
        out@ == previewed(o@),
        out@.wf(),
        out.width <= PREVIEW_EDGE,
        out.height <= PREVIEW_EDGE,
        o.width > 0 && o.height > 0 ==> out.width > 0 && out.height > 0,
{
    if o.width > PREVIEW_EDGE || o.height > PREVIEW_EDGE {
        thumbnail(o, PREVIEW_EDGE)
    } else {
        o.to_rgb8()
    }
}

/// The bytes are the ones given, of a JPEG file.
pub open spec fn is_bytes(b: Option<Vec<u8>>, v: Option<Seq<u8>>) -> bool {
    match v {
        Some(w) => b matches Some(x) && x@ == w && is_jpeg(w),
        None => b is None,
    }
}

/// A picture as a JPEG, if it can be one.
pub open spec fn jpeg_of(p: PixelsView, quality: u8) -> Option<Seq<u8>> {
    if encodable(p) {
        Some(jpeg(p, quality))
    } else {
        None
    }
}

/// A picture as the bytes of a JPEG file, if it can be one.
pub fn encode_jpeg(p: &Pixels, quality: u8) -> (bytes: Option<Vec<u8>>)
    ensures
        is_bytes(bytes, jpeg_of(p@, quality)),
{
    if p.is_wf() && 1 <= p.width && p.width <= 65535 && 1 <= p.height && p.height <= 65535 {
        Some(encode_bytes(p, quality))
    } else {
        None
    }
}

/// What is cached of an original.
pub struct Cached {
    pub thumb: Vec<u8>,
    /// None if there was one already, or the original is empty.
    pub preview: Option<Vec<u8>>,
}

/// The preview of an original as a JPEG.
pub open spec fn preview_jpeg(o: OriginalView) -> Option<Seq<u8>> {
    jpeg_of(previewed(o), PREVIEW_QUALITY)
}

/// Derive both cached pictures from a decoded original: the grid thumbnail, and the viewer
/// preview unless there is one already.
pub fn generate(original: &Original, has_preview: bool) -> (made: Cached)
    requires
        original@.wf(),
    ensures
        made.thumb@ == jpeg(scaled(original@, THUMB_EDGE), THUMB_QUALITY),
        is_jpeg(made.thumb@),
        is_bytes(
            made.preview,
            if has_preview {
                None
            } else {
                preview_jpeg(original@)
            },
        ),
{
    let thumb = encode_bytes(&thumbnail(original, THUMB_EDGE), THUMB_QUALITY);
    let preview = if has_preview {
        None
    } else {
        generate_preview(original)
    };
    Cached { thumb, preview }
}

/// The large viewer preview of an original, as a JPEG; none for an empty one.
pub fn generate_preview(original: &Original) -> (bytes: Option<Vec<u8>>)
    requires
        original@.wf(),
    ensures
        is_bytes(bytes, preview_jpeg(original@)),
        bytes is None ==> original.width == 0 || original.height == 0,
{
    encode_jpeg(&to_preview(original), PREVIEW_QUALITY)
}

/// The picture faces are found in, where no preview is cached: the preview of the original,
/// with its JPEG to cache so that the original is not decoded again.
pub fn face_source(original: &Original) -> (r: (Pixels, Option<Vec<u8>>))
    requires
        original@.wf(),
    ensures
        r.0@ == previewed(original@),
        r.0@.wf(),
        is_bytes(r.1, preview_jpeg(original@)),
{
    let preview = to_preview(original);
    let bytes = encode_jpeg(&preview, PREVIEW_QUALITY);
    (preview, bytes)
}

/// The first `rows` rows of a plane whose rows start `stride` bytes apart, without what
/// fills them up.
pub open spec fn packed(data: Seq<u8>, row: int, stride: int, rows: nat) -> Seq<u8>
    decreases rows,
{
    if rows == 0 {
        Seq::empty()
    } else {
        let start = (rows - 1) * stride;
        packed(data, row, stride, (rows - 1) as nat) + data.subrange(start, start + row)
    }
}

/// Every row of a plane lies within its data.
pub open spec fn rows_fit(len: int, row: int, stride: int, rows: int) -> bool {
    rows > 0 ==> (rows - 1) * stride + row <= len
}

proof fn lemma_packed_len(data: Seq<u8>, row: int, stride: int, rows: nat, n: nat)
    requires
        n <= rows,
        0 <= row,
        0 <= stride,
        rows_fit(data.len() as int, row, stride, rows as int),
    ensures
        packed(data, row, stride, n).len() == n * row,
    decreases n,
{
    if n > 0 {
        lemma_packed_len(data, row, stride, rows, (n - 1) as nat);
        assert(0 <= (n - 1) * stride <= (rows - 1) * stride) by (nonlinear_arith)
            requires
                1 <= n <= rows,
                0 <= stride,
        ;
        assert(n * row == (n - 1) * row + row) by (nonlinear_arith);
    } else {
        assert(n * row == 0) by (nonlinear_arith)
            requires
                n == 0,
        ;
    }
}

/// The picture in an interleaved plane of red, green and blue, whose rows may be wider than
/// the picture; none where the plane is too short, or too large to be a picture.
pub fn from_plane(width: u32, height: u32, stride: usize, data: &[u8]) -> (p: Option<Pixels>)
    ensures
        p is Some <==> rows_fit(data@.len() as int, width * 3, stride as int, height as int)
            && width * height <= MAX_PIXELS,
        p matches Some(x) ==> x@.wf() && x@ == (PixelsView {
            width,
            height,
            data: packed(data@, width * 3, stride as int, height as nat),
        }),
{
    let row: u64 = width as u64 * 3;
    let step: u128 = stride as u128;
    if height > 0 {
        proof {
            let (h, s) = (height - 1int, stride as int);
            assert(0 <= h * s <= 0xffff_ffff * 0xffff_ffff_ffff_ffff) by (nonlinear_arith)
                requires
                    0 <= h <= 0xffff_ffff,
                    0 <= s <= 0xffff_ffff_ffff_ffff,
            ;
        }
        if (height as u128 - 1) * step + row as u128 > data.len() as u128 {
            return None;
        }
    }
    let mut out: Vec<u8> = Vec::new();
    for y in 0..height
        invariant
            row == width * 3,
            step == stride,
            rows_fit(data@.len() as int, row as int, stride as int, height as int),
            out@ == packed(data@, row as int, stride as int, y as nat),
    {
        proof {
            let (a, b, s) = (y as int, height - 1int, stride as int);
            assert(0 <= a * s <= b * s) by (nonlinear_arith)
                requires
                    0 <= a <= b,
                    0 <= s,
            ;
            assert((y + 1 - 1) * stride == a * s);
            assert(data.len() <= usize::MAX);
        }
        let start: usize = (y as u128 * step) as usize;
        let ghost held = out@;
        for k in 0..row
            invariant
                start + row <= data@.len(),
                data@.len() <= usize::MAX,
                out@ == held + data@.subrange(start as int, start + k),
        {
            out.push(data[start + k as usize]);
            assert(out@ =~= held + data@.subrange(start as int, start + k + 1));
        }
    }
    proof {
        lemma_packed_len(data@, row as int, stride as int, height as nat, height as nat);
        let (w, h) = (width as int, height as int);
        assert(h * (w * 3) == w * h * 3) by (nonlinear_arith);
    }
    let p = Pixels { width, height, data: out };
    if p.is_wf() {
        Some(p)
    } else {
        None
    }
}

/// The first `n` pixels of alpha, red, green and blue, without alpha.
pub open spec fn opaque_pixels(argb: Seq<u8>, n: nat) -> Seq<u8>
    decreases n,
{
    if n == 0 {
        Seq::empty()
    } else {
        opaque_pixels(argb, (n - 1) as nat).push(argb[4 * n - 3]).push(argb[4 * n - 2]).push(
            argb[4 * n - 1],
        )
    }
}

/// The pixels of alpha, red, green and blue without alpha, which is constant for photos.
pub fn strip_alpha(argb: &[u8]) -> (rgb: Vec<u8>)
    ensures
        rgb@ == opaque_pixels(argb@, (argb@.len() / 4) as nat),
{
    let mut rgb: Vec<u8> = Vec::new();
    let n: usize = argb.len() / 4;
    for i in 0..n
        invariant
            n == argb@.len() / 4,
            rgb@ == opaque_pixels(argb@, i as nat),
    {
        assert(argb.len() <= usize::MAX);
        rgb.push(argb[4 * i + 1]);
        rgb.push(argb[4 * i + 2]);
        rgb.push(argb[4 * i + 3]);
    }
    rgb
}

/// The part of a picture that a face's cover shows.
#[derive(Clone, Copy, PartialEq, Eq, Structural, Debug)]
pub struct Rect {
    pub x: u32,
    pub y: u32,
    pub width: u32,
    pub height: u32,
}

/// A coordinate as whole pixels: rounded down, and not below zero.
pub open spec fn whole(num: int, den: int) -> int {
    if num <= 0 {
        0
    } else {
        num / den
    }
}

/// The start and the length of a crop along one axis. `sum` is the sum of the box's ends in
/// millionths, `side` the longer side of the box in millionths of a pixel, `edge` the
/// picture's edge: the crop is centered on the box, with a margin of 40%, and ends at the
/// edge. It is never empty.
pub open spec fn crop_span(sum: int, side: int, edge: int) -> (int, int) {
    let lo = whole(5 * sum * edge - 7 * side, 10_000_000);
    let end = whole(5 * sum * edge + 7 * side, 10_000_000);
    let hi = if end > edge {
        edge
    } else {
        end
    };
    (
        lo,
        if hi > lo {
            hi - lo
        } else {
            1
        },
    )
}

/// The longer side of a box in a picture, in millionths of a pixel.
pub open spec fn long_side(b: FaceBox, width: int, height: int) -> int {
    let w = (b.x2 - b.x1) * width;
    let h = (b.y2 - b.y1) * height;
    if w > h {
        w
    } else {
        h
    }
}

/// The span cut to the picture.
pub open spec fn clipped(span: (int, int), edge: int) -> (int, int) {
    let lo = if span.0 > edge {
        edge
    } else {
        span.0
    };
    (
        lo,
        if span.1 > edge - lo {
            edge - lo
        } else {
            span.1
        },
    )
}

/// The part of a picture that shows a face.
pub open spec fn crop_rect(b: FaceBox, width: int, height: int) -> (int, int, int, int) {
    let side = long_side(b, width, height);
    let x = clipped(crop_span(b.x1 + b.x2, side, width), width);
    let y = clipped(crop_span(b.y1 + b.y2, side, height), height);
    (x.0, y.0, x.1, y.1)
}

fn whole_pixels(num: i128) -> (n: i128)
    ensures
        n == whole(num as int, 10_000_000),
{
    if num <= 0 {
        0
    } else {
        num / 10_000_000
    }
}

fn span(sum: i64, side: i128, edge: u32) -> (r: (u32, u32))
    requires
        -0x1_0000_0000 <= sum <= 0x1_0000_0000,
        -0x2_0000_0000_0000_0000 <= side <= 0x2_0000_0000_0000_0000,
    ensures
        (r.0 as int, r.1 as int) == clipped(
            crop_span(sum as int, side as int, edge as int),
            edge as int,
        ),
{
    proof {
        let (s, e) = (sum as int, edge as int);
        assert(-0x1_0000_0000_0000_0000 <= s * e <= 0x1_0000_0000_0000_0000) by (nonlinear_arith)
            requires
                -0x1_0000_0000 <= s <= 0x1_0000_0000,
                0 <= e <= 0xffff_ffff,
        ;
        assert(5 * s * e == 5 * (s * e)) by (nonlinear_arith);
    }
    let at: i128 = sum as i128 * edge as i128;
    let lo: i128 = whole_pixels(5 * at - 7 * side);
    let end: i128 = whole_pixels(5 * at + 7 * side);
    let e: i128 = edge as i128;
    let hi: i128 = if end > e {
        e
    } else {
        end
    };
    let len: i128 = if hi > lo {
        hi - lo
    } else {
        1
    };
    let x: i128 = if lo > e {
        e
    } else {
        lo
    };
    let n: i128 = if len > e - x {
        e - x
    } else {
        len
    };
    (x as u32, n as u32)
}

/// The part of a picture that shows a face: square, centered on its box, with a margin of
/// 40%, cut to the picture.
pub fn face_rect(b: FaceBox, width: u32, height: u32) -> (r: Rect)
    ensures
        (r.x as int, r.y as int, r.width as int, r.height as int) == crop_rect(
            b,
            width as int,
            height as int,
        ),
{
    proof {
        let (dx, dy) = (b.x2 - b.x1, b.y2 - b.y1);
        let (w, h) = (width as int, height as int);
        assert(-0x2_0000_0000_0000_0000 <= dx * w <= 0x2_0000_0000_0000_0000) by (nonlinear_arith)
            requires
                -0xffff_ffff <= dx <= 0xffff_ffff,
                0 <= w <= 0xffff_ffff,
        ;
        assert(-0x2_0000_0000_0000_0000 <= dy * h <= 0x2_0000_0000_0000_0000) by (nonlinear_arith)
            requires
                -0xffff_ffff <= dy <= 0xffff_ffff,
                0 <= h <= 0xffff_ffff,
        ;
    }
    let w: i128 = (b.x2 as i128 - b.x1 as i128) * width as i128;
    let h: i128 = (b.y2 as i128 - b.y1 as i128) * height as i128;
    let side: i128 = if w > h {
        w
    } else {
        h
    };
    let (x, cw) = span(b.x1 as i64 + b.x2 as i64, side, width);
    let (y, ch) = span(b.y1 as i64 + b.y2 as i64, side, height);
    Rect { x, y, width: cw, height: ch }
}

/// A part of a picture: the first `rows` rows of the rectangle.
pub open spec fn cut_rows(p: PixelsView, x: int, y: int, width: int, rows: nat) -> Seq<u8>
    decreases rows,
{
    if rows == 0 {
        Seq::empty()
    } else {
        let start = ((y + rows - 1) * p.width + x) * 3;
        cut_rows(p, x, y, width, (rows - 1) as nat) + p.data.subrange(start, start + width * 3)
    }
}

/// A part of a picture.
pub open spec fn cropped(p: PixelsView, r: Rect) -> PixelsView {
    PixelsView {
        width: r.width,
        height: r.height,
        data: cut_rows(p, r.x as int, r.y as int, r.width as int, r.height as nat),
    }
}

proof fn lemma_cut_len(p: PixelsView, x: int, y: int, width: int, rows: nat)
    requires
        p.wf(),
        0 <= x,
        0 <= y,
        0 <= width,
        x + width <= p.width,
        y + rows <= p.height,
    ensures
        cut_rows(p, x, y, width, rows).len() == rows * width * 3,
    decreases rows,
{
    if rows > 0 {
        lemma_cut_len(p, x, y, width, (rows - 1) as nat);
        lemma_row_fits(p, x, y + rows - 1, width);
        assert(rows * width * 3 == (rows - 1) * width * 3 + width * 3) by (nonlinear_arith)
            requires
                rows > 0,
        ;
    } else {
        assert(rows * width * 3 == 0) by (nonlinear_arith)
            requires
                rows == 0,
        ;
    }
}

proof fn lemma_row_fits(p: PixelsView, x: int, row: int, width: int)
    requires
        p.wf(),
        0 <= x,
        0 <= width,
        x + width <= p.width,
        0 <= row < p.height,
    ensures
        0 <= (row * p.width + x) * 3,
        (row * p.width + x) * 3 + width * 3 <= p.data.len(),
        0 <= row * p.width + x <= MAX_PIXELS,
        0 <= row * p.width <= MAX_PIXELS,
{
    let (w, h) = (p.width as int, p.height as int);
    assert(0 <= row * w && row * w + w <= w * h) by (nonlinear_arith)
        requires
            0 <= row < h,
            0 <= w,
    ;
}

/// A part of a picture.
pub fn crop(p: &Pixels, r: Rect) -> (out: Pixels)
    requires
        p@.wf(),
        r.x + r.width <= p.width,
        r.y + r.height <= p.height,
    ensures
        out@ == cropped(p@, r),
        out@.wf(),
{
    let mut data: Vec<u8> = Vec::new();
    for j in 0..r.height
        invariant
            p@.wf(),
            r.x + r.width <= p.width,
            r.y + r.height <= p.height,
            data@ == cut_rows(p@, r.x as int, r.y as int, r.width as int, j as nat),
    {
        proof {
            lemma_row_fits(p@, r.x as int, r.y + j, r.width as int);
        }
        let ghost held = data@;
        let at: u64 = (r.y as u64 + j as u64) * p.width as u64 + r.x as u64;
        assert(at == (r.y + j) * p.width + r.x);
        let ghost start = at * 3;
        let n: u64 = r.width as u64 * 3;
        for k in 0..n
            invariant
                at <= MAX_PIXELS,
                n == r.width * 3,
                start == at * 3,
                start + n <= p.data@.len(),
                data@ == held + p.data@.subrange(start, start + k),
        {
            assert(p.data.len() <= usize::MAX);
            data.push(p.data[(at * 3 + k) as usize]);
            assert(data@ =~= held + p.data@.subrange(start, start + k + 1));
        }
        assert(p@.data == p.data@);
    }
    proof {
        lemma_cut_len(p@, r.x as int, r.y as int, r.width as int, r.height as nat);
        let (w, h) = (r.width as int, r.height as int);
        let (pw, ph) = (p.width as int, p.height as int);
        assert(w * h <= pw * ph) by (nonlinear_arith)
            requires
                0 <= w <= pw,
                0 <= h <= ph,
        ;
        assert(h * w * 3 == w * h * 3) by (nonlinear_arith);
    }
    Pixels { width: r.width, height: r.height, data }
}

/// The cover of a face.
pub open spec fn face_jpeg(p: PixelsView, b: FaceBox) -> Seq<u8> {
    let (x, y, width, height) = crop_rect(b, p.width as int, p.height as int);
    let r = Rect { x: x as u32, y: y as u32, width: width as u32, height: height as u32 };
    jpeg(resampled(cropped(p, r), FACE_CROP, FACE_CROP), PREVIEW_QUALITY)
}

/// Crop a square, margined face from a picture and return it as a JPEG. Cropping from the
/// original keeps cover faces sharp even when small in frame.
pub fn crop_face_jpeg(p: &Pixels, b: FaceBox) -> (bytes: Vec<u8>)
    requires
        p@.wf(),
    ensures
        bytes@ == face_jpeg(p@, b),
        is_jpeg(bytes@),
{
    let r = face_rect(b, p.width, p.height);
    let part = crop(p, r);
    encode_bytes(&resize(&part, FACE_CROP, FACE_CROP), PREVIEW_QUALITY)
}

/// A face's cover lies within the picture, and is not empty unless the face is outside.
pub proof fn law_cover_lies_in_the_picture(b: FaceBox, width: u32, height: u32)
    ensures
        ({
            let (x, y, w, h) = crop_rect(b, width as int, height as int);
            &&& 0 <= x && 0 <= y
            &&& x + w <= width && y + h <= height
            &&& x < width ==> w >= 1
            &&& y < height ==> h >= 1
        }),
{
}

/// A small original is its own preview: its size is kept, and so is every sample that has
/// eight bits.
pub proof fn law_small_originals_are_not_upscaled(o: OriginalView)
    requires
        o.width <= PREVIEW_EDGE,
        o.height <= PREVIEW_EDGE,
    ensures
        previewed(o).width == o.width,
        previewed(o).height == o.height,
        o.samples matches SamplesView::Eight(d) ==> previewed(o).data == d,
{
}

/// Nothing is lost by a turn: the pixel that is shown is one of the picture, and a turn and
/// the one that takes it back leave every pixel where it was.
pub proof fn law_turns_move_pixels(t: Turn, x: int, y: int, width: int, height: int)
    requires
        0 <= x < if swaps_sides(t) {
            height
        } else {
            width
        },
        0 <= y < if swaps_sides(t) {
            width
        } else {
            height
        },
    ensures
        ({
            let (sx, sy) = pixel_shown(t, x, y, width, height);
            &&& 0 <= sx < width
            &&& 0 <= sy < height
            &&& pixel_shown(
                turned_back(t),
                sx,
                sy,
                if swaps_sides(t) {
                    height
                } else {
                    width
                },
                if swaps_sides(t) {
                    width
                } else {
                    height
                },
            ) == (x, y)
        }),
{
}

/// The turn that takes a turn back.
pub open spec fn turned_back(t: Turn) -> Turn {
    match t {
        Turn::Rotate90 => Turn::Rotate270,
        Turn::Rotate270 => Turn::Rotate90,
        other => other,
    }
}

} // verus!
