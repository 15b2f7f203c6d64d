//! Pictures: thumbnails, previews, face crops and what the detector's candidates make.

use solar::detect::{letterbox, nms, Candidate};
use solar::images::{
    apply_turn, crop, crop_face_jpeg, encode_jpeg, face_rect, face_source, from_plane, generate,
    generate_preview, has_jpeg_magic, load_oriented, load_preview, needs_heic_decoder,
    strip_alpha, to_preview, Original, Pixels, Rect, Samples, Turn, PREVIEW_EDGE, THUMB_EDGE,
};
use solar::library::FaceBox;

/// The samples of an original in eight bits.
fn bytes_of(o: &Original) -> &Vec<u8> {
    match &o.samples {
        Samples::Eight(d) => d,
        Samples::Sixteen(_) => panic!("sixteen bits"),
    }
}

/// An original in eight bits.
fn original(width: u32, height: u32) -> Original {
    Original::from_pixels(ramp(width, height))
}

/// A picture whose red grows to the right and whose green grows downward.
fn ramp(width: u32, height: u32) -> Pixels {
    let mut data = Vec::new();
    for y in 0..height {
        for x in 0..width {
            data.push((x * 255 / width) as u8);
            data.push((y * 255 / height) as u8);
            data.push(7);
        }
    }
    Pixels { width, height, data }
}

#[test]
fn a_jpeg_reads_back() {
    let bytes = encode_jpeg(&ramp(64, 32), 90).unwrap();
    assert!(has_jpeg_magic(&bytes));
    let p = load_oriented(&bytes).unwrap();
    assert_eq!((p.width, p.height, bytes_of(&p).len()), (64, 32, 64 * 32 * 3));
    let q = load_preview(&bytes).unwrap();
    assert_eq!(*bytes_of(&p), q.data);
    assert!(load_oriented(b"no picture").is_none());
    assert!(load_preview(&[]).is_none());
}

/// A JPEG with an orientation tag in its EXIF block.
fn with_orientation(jpeg: &[u8], orientation: u8) -> Vec<u8> {
    let mut exif = b"Exif\0\0II\x2a\x00\x08\x00\x00\x00".to_vec();
    exif.extend([1, 0, 0x12, 0x01, 3, 0, 1, 0, 0, 0, orientation, 0, 0, 0, 0, 0, 0, 0]);
    let mut out = jpeg[..2].to_vec();
    out.extend([0xff, 0xe1]);
    out.extend((exif.len() as u16 + 2).to_be_bytes());
    out.extend(&exif);
    out.extend(&jpeg[2..]);
    out
}

#[test]
fn nothing_is_ever_sideways() {
    let jpeg = encode_jpeg(&ramp(64, 32), 90).unwrap();
    for number in 1..=8u8 {
        let file = with_orientation(&jpeg, number);
        let p = load_oriented(&file).unwrap();
        // A cached preview is shown as it is stored.
        let q = load_preview(&file).unwrap();
        assert_eq!((q.width, q.height), (64, 32));
        let (w, h): (usize, usize) = if number >= 5 { (32, 64) } else { (64, 32) };
        assert_eq!((p.width as usize, p.height as usize), (w, h));
        for y in 0..h {
            for x in 0..w {
                let (sx, sy) = match number {
                    1 => (x, y),
                    2 => (63 - x, y),
                    3 => (63 - x, 31 - y),
                    4 => (x, 31 - y),
                    5 => (y, x),
                    6 => (y, 31 - x),
                    7 => (63 - y, 31 - x),
                    _ => (63 - y, x),
                };
                let (at, from) = ((y * w + x) * 3, (sy * 64 + sx) * 3);
                assert_eq!(bytes_of(&p)[at..at + 3], q.data[from..from + 3], "turn {number}");
            }
        }
    }
    // A file that does not tell is not turned.
    assert_eq!(load_oriented(&jpeg).unwrap().width, 64);
}

#[test]
fn turns_can_be_taken_back() {
    let there = apply_turn(original(5, 3), Turn::Rotate90);
    assert_eq!((there.width, there.height), (3, 5));
    let back = apply_turn(there, Turn::Rotate270);
    assert_eq!(*bytes_of(&back), ramp(5, 3).data);
}

/// A PNG of one row with sixteen bits per sample, gray.
fn deep_png(samples: &[u16]) -> Vec<u8> {
    let data: Vec<u8> = samples.iter().flat_map(|s| s.to_ne_bytes()).collect();
    let mut out = std::io::Cursor::new(Vec::new());
    image::write_buffer_with_format(
        &mut out,
        &data,
        samples.len() as u32,
        1,
        image::ColorType::L16,
        image::ImageFormat::Png,
    )
    .unwrap();
    out.into_inner()
}

#[test]
fn deep_originals_keep_their_bits() {
    let file = deep_png(&[0, 128, 129, 65_535]);
    let o = load_oriented(&file).unwrap();
    match &o.samples {
        Samples::Sixteen(d) => {
            assert_eq!(*d, vec![0, 0, 0, 128, 128, 128, 129, 129, 129, 65_535, 65_535, 65_535])
        }
        Samples::Eight(_) => panic!("eight bits"),
    }
    assert_eq!(o.to_rgb8().data, vec![0, 0, 0, 0, 0, 0, 1, 1, 1, 255, 255, 255]);
    // Scaled first, and then in eight bits, as the decoder's own picture is.
    let samples: Vec<u16> = (0..1024u32).map(|k| (k * 64) as u16).collect();
    let file = deep_png(&samples);
    let made = generate(&load_oriented(&file).unwrap(), true);
    let rgb = image::load_from_memory(&file).unwrap().thumbnail(256, 256).to_rgb8();
    let p = Pixels { width: rgb.width(), height: rgb.height(), data: rgb.into_raw() };
    assert_eq!(made.thumb, encode_jpeg(&p, 80).unwrap());
}

/// A white picture with sixteen bits per sample.
fn deep_white(width: u32, height: u32) -> Original {
    let n = width as usize * height as usize * 3;
    Original { width, height, samples: Samples::Sixteen(vec![65_535; n]) }
}

#[test]
fn long_deep_originals_are_scaled() {
    let o = Original {
        width: 53_000,
        height: 1_000,
        samples: Samples::Sixteen(vec![0; 53_000 * 1_000 * 3]),
    };
    assert!(o.is_wf());
    let o = deep_white(53_000, 320);
    assert!(o.is_wf());
    let thumb = load_preview(&generate(&o, true).thumb).unwrap();
    assert_eq!((thumb.width, thumb.height), (256, 2));
    assert!(thumb.data.iter().all(|b| *b == 255));
    // More samples than can be added up for one pixel.
    let o = Original {
        width: 64,
        height: 1_000_000,
        samples: Samples::Sixteen(vec![0; 64 * 1_000_000 * 3]),
    };
    assert!(!o.is_wf());
    // None at all.
    assert!(Original { width: 0, height: 0, samples: Samples::Sixteen(vec![]) }.is_wf());
}

#[test]
fn thumbnails_and_previews() {
    let big = original(3000, 1500);
    let made = generate(&big, false);
    let thumb = load_preview(&made.thumb).unwrap();
    assert_eq!((thumb.width, thumb.height), (THUMB_EDGE, THUMB_EDGE / 2));
    let preview = load_preview(&made.preview.unwrap()).unwrap();
    assert_eq!((preview.width, preview.height), (PREVIEW_EDGE, PREVIEW_EDGE / 2));
    // One that is there is not made again.
    assert!(generate(&original(300, 300), true).preview.is_none());
}

#[test]
fn small_originals_are_not_upscaled() {
    let small = original(300, 200);
    let p = to_preview(&small);
    assert_eq!((p.width, p.height), (300, 200));
    assert_eq!(p.data, *bytes_of(&small));
    let bytes = generate_preview(&small).unwrap();
    let (source, cached) = face_source(&small);
    assert_eq!(source.data, *bytes_of(&small));
    assert_eq!(cached.unwrap(), bytes);
}

#[test]
fn a_broken_picture_is_refused() {
    assert!(encode_jpeg(&Pixels { width: 2, height: 2, data: vec![0; 11] }, 80).is_none());
    assert!(encode_jpeg(&Pixels { width: 2, height: 2, data: vec![0; 12] }, 80).is_some());
    assert!(encode_jpeg(&Pixels { width: 0, height: 2, data: vec![] }, 80).is_none());
    let long = Pixels { width: 65_536, height: 1, data: vec![0; 65_536 * 3] };
    assert!(encode_jpeg(&long, 80).is_none());
}

#[test]
fn heic_files_that_are_jpegs_are_decoded_as_such() {
    assert!(needs_heic_decoder("/p/a.HEIC", b"\0\0\0\x18ftypheic"));
    assert!(needs_heic_decoder("/p/a.heif", b""));
    assert!(!needs_heic_decoder("/p/a.heic", &[0xff, 0xd8, 0xff]));
    assert!(!needs_heic_decoder("/p/a.jpg", b"\0\0\0\x18ftypheic"));
    assert!(!has_jpeg_magic(&[0xff]));
}

#[test]
fn planes_are_packed() {
    let plane = [1, 2, 3, 4, 5, 6, 99, 99, 7, 8, 9, 10, 11, 12];
    let p = from_plane(2, 2, 8, &plane).unwrap();
    assert_eq!(p.data, vec![1, 2, 3, 4, 5, 6, 7, 8, 9, 10, 11, 12]);
    assert!(from_plane(2, 3, 8, &plane).is_none());
    assert_eq!(strip_alpha(&[255, 1, 2, 3, 255, 4, 5, 6, 9]), vec![1, 2, 3, 4, 5, 6]);
}

#[test]
fn a_crop_is_the_rectangle() {
    let p = ramp(10, 10);
    let c = crop(&p, Rect { x: 3, y: 4, width: 2, height: 3 });
    assert_eq!((c.width, c.height), (2, 3));
    for y in 0..3usize {
        for x in 0..2usize {
            let from = ((y + 4) * 10 + x + 3) * 3;
            assert_eq!(c.data[(y * 2 + x) * 3..][..3], p.data[from..][..3]);
        }
    }
}

#[test]
fn a_cover_is_square_with_a_margin() {
    let bbox = FaceBox { x1: 400_000, y1: 400_000, x2: 600_000, y2: 600_000 };
    // Half of 100 + 40% on each side of the center.
    assert_eq!(face_rect(bbox, 500, 500), Rect { x: 180, y: 180, width: 140, height: 140 });
    // At the edge it is cut.
    let corner = FaceBox { x1: 0, y1: 0, x2: 200_000, y2: 200_000 };
    assert_eq!(face_rect(corner, 500, 500), Rect { x: 0, y: 0, width: 120, height: 120 });
    let bytes = crop_face_jpeg(&ramp(500, 500), bbox);
    let cover = load_preview(&bytes).unwrap();
    assert_eq!((cover.width, cover.height), (256, 256));
    // The middle of the cover is the middle of the box.
    let middle = &cover.data[(128 * 256 + 128) * 3..][..2];
    assert!(middle.iter().all(|&v| (120..=136).contains(&v)));
}

#[test]
fn images_are_letterboxed() {
    let l = letterbox(4000, 3000);
    assert_eq!((l.width, l.height, l.pad_x, l.pad_y), (640, 480, 0, 80));
    let l = letterbox(1, 100_000);
    assert_eq!((l.width, l.height, l.pad_x, l.pad_y), (1, 640, 319, 0));
    let l = letterbox(320, 320);
    assert_eq!((l.width, l.height), (640, 640));
}

#[test]
fn overlapping_candidates_are_suppressed() {
    let at = |x: i32, score: i64| Candidate {
        bbox: FaceBox { x1: x, y1: 0, x2: x + 100, y2: 100 },
        score,
    };
    // The second overlaps the better third; the first stands alone.
    let cands = vec![at(1_000, 610_000), at(0, 700_000), at(10, 900_000), at(80, 800_000)];
    assert_eq!(nms(&cands), vec![2, 3, 0]);
    assert!(nms(&vec![]).is_empty());
}
