//! Capture dates, from file names and from EXIF.

use solar::capture::{parse_exif_datetime, parse_filename_date};
use solar::dates::{civil_to_unix, date_of};
use solar::exif_meta::{gps_of, read_exif_meta, taken_ts_of, ExifContext, ExifField, ExifValue};

fn ymd(ts: i64) -> (i64, i64, i64) {
    let d = date_of(ts);
    (d.year, d.month, d.day)
}

#[test]
fn filename_dates() {
    assert_eq!(ymd(parse_filename_date("PXL_20240614_155210823.jpg").unwrap()), (2024, 6, 14));
    assert_eq!(ymd(parse_filename_date("IMG_20230101.jpg").unwrap()), (2023, 1, 1));
    assert_eq!(ymd(parse_filename_date("2024-06-14 12.30.00.jpg").unwrap()), (2024, 6, 14));
    assert_eq!(ymd(parse_filename_date("VID_2022_12_25.mp4").unwrap()), (2022, 12, 25));
    assert_eq!(parse_filename_date("DSC_0042.jpg"), None);
    assert_eq!(parse_filename_date("99999999.jpg"), None);
}

#[test]
fn filename_times() {
    assert_eq!(parse_filename_date("PXL_20240614_155210823.jpg"), Some(1_718_380_330));
    assert_eq!(parse_filename_date("IMG_20230101.jpg"), Some(1_672_531_200));
    assert_eq!(parse_filename_date(""), None);
}

#[test]
fn civil_dates_are_unix_seconds() {
    assert_eq!(civil_to_unix(1970, 1, 1, 0, 0, 0), 0);
    assert_eq!(civil_to_unix(2000, 2, 29, 12, 0, 1), 951_825_601);
    assert_eq!(civil_to_unix(1969, 12, 31, 23, 59, 59), -1);
    assert_eq!(ymd(951_825_601), (2000, 2, 29));
    assert_eq!(ymd(-1), (1969, 12, 31));
}

#[test]
fn exif_datetimes() {
    assert_eq!(parse_exif_datetime("2024:06:14 15:52:10"), Some(1_718_380_330));
    assert_eq!(parse_exif_datetime(" 2024-06-14 "), Some(1_718_323_200));
    assert_eq!(parse_exif_datetime("0000:00:00 00:00:00"), None);
    assert_eq!(parse_exif_datetime("2024:13:01 00:00:00"), None);
    assert_eq!(parse_exif_datetime("yesterday"), None);
    assert_eq!(parse_exif_datetime(""), None);
}

fn ascii(context: ExifContext, number: u16, text: &str) -> ExifField {
    ExifField { context, number, ifd: 0, value: ExifValue::Ascii(vec![text.as_bytes().to_vec()]) }
}

fn rational(number: u16, parts: Vec<(u32, u32)>) -> ExifField {
    ExifField { context: ExifContext::Gps, number, ifd: 0, value: ExifValue::Rational(parts) }
}

#[test]
fn original_date_comes_first() {
    let date = ascii(ExifContext::Tiff, 0x132, "2020:01:01 00:00:00");
    let original = ascii(ExifContext::Exif, 0x9003, "2019:01:01 00:00:00");
    assert_eq!(taken_ts_of(&vec![date]), Some(1_577_836_800));
    let date = ascii(ExifContext::Tiff, 0x132, "2020:01:01 00:00:00");
    assert_eq!(taken_ts_of(&vec![original, date]), Some(1_546_300_800));
    // An original date that cannot be read is none.
    let date = ascii(ExifContext::Tiff, 0x132, "2020:01:01 00:00:00");
    let broken = ExifField {
        context: ExifContext::Exif,
        number: 0x9003,
        ifd: 0,
        value: ExifValue::Ascii(vec![vec![0xff, 0xfe]]),
    };
    assert_eq!(taken_ts_of(&vec![broken, date]), None);
    // A thumbnail's date is not the photo's.
    let mut thumb = ascii(ExifContext::Tiff, 0x132, "2020:01:01 00:00:00");
    thumb.ifd = 1;
    assert_eq!(taken_ts_of(&vec![thumb]), None);
}

#[test]
fn positions_are_exact() {
    let fields = vec![
        ascii(ExifContext::Gps, 1, "N"),
        rational(2, vec![(40, 1), (30, 1), (0, 1)]),
        ascii(ExifContext::Gps, 3, "w"),
        rational(4, vec![(73, 1), (15, 1)]),
    ];
    let p = gps_of(&fields).unwrap();
    assert_eq!(p.lat.num as f64 / p.lat.den as f64, 40.5);
    assert_eq!(p.lon.num as f64 / p.lon.den as f64, -73.25);
}

#[test]
fn implausible_positions_are_rejected() {
    let at = |lat: (u32, u32), lon: (u32, u32)| {
        gps_of(&vec![rational(2, vec![lat]), rational(4, vec![lon])])
    };
    assert!(at((10, 1), (20, 1)).is_some());
    assert!(at((91, 1), (20, 1)).is_none());
    assert!(at((10, 1), (181, 1)).is_none());
    assert!(at((0, 1), (0, 1)).is_none());
    assert!(at((10, 0), (20, 1)).is_none());
    assert!(gps_of(&vec![rational(2, vec![(10, 1)])]).is_none());
    assert!(gps_of(&vec![rational(2, vec![]), rational(4, vec![(1, 1)])]).is_none());
}

/// A little-endian TIFF block with one text field in its first directory.
fn tiff_with_date(text: &[u8]) -> Vec<u8> {
    let mut b = b"II\x2a\x00\x08\x00\x00\x00".to_vec();
    b.extend([1, 0]);
    b.extend([0x32, 0x01, 2, 0]);
    b.extend((text.len() as u32).to_le_bytes());
    b.extend(26u32.to_le_bytes());
    b.extend([0, 0, 0, 0]);
    b.extend(text);
    b
}

#[test]
fn exif_is_read_from_a_file() {
    let file = tiff_with_date(b"2024:06:14 15:52:10\0");
    let meta = read_exif_meta(&file);
    assert_eq!(meta.taken_ts, Some(1_718_380_330));
    assert!(meta.gps.is_none());
    let meta = read_exif_meta(b"not an image");
    assert!(meta.taken_ts.is_none() && meta.gps.is_none());
}
