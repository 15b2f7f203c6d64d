//! When a photo was taken: capture dates from file names and from EXIF text.

use vstd::prelude::*;
use vstd::string::*;

use crate::dates::{civil_seconds, civil_to_unix, lemma_unix_time_fits, unix_time};
use crate::text::{chars_of, trim, trim_chars, trimmed};

verus! {

/// An ASCII digit.
pub open spec fn is_digit(b: u8) -> bool {
    48 <= b <= 57
}

/// What may separate the parts of a date in a file name: `-`, `_`, `.`, space, `T`, `:`
/// or `/`.
pub open spec fn is_separator(b: u8) -> bool {
    b == 45 || b == 95 || b == 46 || b == 32 || b == 84 || b == 58 || b == 47
}

/// There are `len` digits at `start`.
pub open spec fn digits_at(c: Seq<u8>, start: int, len: int) -> bool {
    &&& start + len <= c.len()
    &&& forall|k: int| 0 <= k < len ==> is_digit(#[trigger] c[start + k])
}

/// The number that two digits write.
pub open spec fn two_digits(c: Seq<u8>, start: int) -> int {
    (c[start] - 48) * 10 + (c[start + 1] - 48)
}

/// The number that four digits write.
pub open spec fn four_digits(c: Seq<u8>, start: int) -> int {
    two_digits(c, start) * 100 + two_digits(c, start + 2)
}

/// The place after an optional separator.
pub open spec fn past_separator(c: Seq<u8>, p: int) -> int {
    if p < c.len() && is_separator(c[p]) {
        p + 1
    } else {
        p
    }
}

/// The optional time of day at a place: hours, minutes, and optional seconds. Midnight
/// where there is none, or none that can be.
pub open spec fn time_at(c: Seq<u8>, p: int) -> (int, int, int) {
    let h = past_separator(c, p);
    let m = past_separator(c, h + 2);
    let s = past_separator(c, m + 2);
    if digits_at(c, h, 2) && digits_at(c, m, 2) {
        let sec = if digits_at(c, s, 2) {
            two_digits(c, s)
        } else {
            0
        };
        if two_digits(c, h) <= 23 && two_digits(c, m) <= 59 && sec <= 59 {
            (two_digits(c, h), two_digits(c, m), sec)
        } else {
            (0, 0, 0)
        }
    } else {
        (0, 0, 0)
    }
}

/// The date written at a place, if it is a plausible one: year, month, day and an
/// optional time, with optional separators, and no digit before it.
pub open spec fn date_at(c: Seq<u8>, i: int) -> Option<int> {
    let m = past_separator(c, i + 4);
    let d = past_separator(c, m + 2);
    if (i == 0 || !is_digit(c[i - 1])) && digits_at(c, i, 4) && 1990 <= four_digits(c, i) <= 2035
        && digits_at(c, m, 2) && 1 <= two_digits(c, m) <= 12 && digits_at(c, d, 2) && 1
        <= two_digits(c, d) <= 31 {
        let (h, min, sec) = time_at(c, d + 2);
        Some(unix_time(four_digits(c, i), two_digits(c, m), two_digits(c, d), h, min, sec))
    } else {
        None
    }
}

/// The first plausible date from a place on.
pub open spec fn first_date(c: Seq<u8>, i: int) -> Option<int>
    decreases c.len() - i,
{
    if i >= c.len() {
        None
    } else if date_at(c, i) is Some {
        date_at(c, i)
    } else {
        first_date(c, i + 1)
    }
}

fn digit(b: u8) -> (r: bool)
    ensures
        r == is_digit(b),
{
    48 <= b && b <= 57
}

fn skip_sep(c: &[u8], p: usize) -> (q: usize)
    requires
        p <= c@.len(),
    ensures
        q == past_separator(c@, p as int),
        p <= q <= c@.len(),
{
    if p < c.len() {
        let b = c[p];
        if b == 45 || b == 95 || b == 46 || b == 32 || b == 84 || b == 58 || b == 47 {
            return p + 1;
        }
    }
    p
}

/// The two digits at `start`, if there are two.
fn take_two(c: &[u8], start: usize) -> (v: Option<i64>)
    requires
        start <= c@.len(),
    ensures
        v is Some <==> digits_at(c@, start as int, 2),
        v matches Some(n) ==> n == two_digits(c@, start as int) && 0 <= n <= 99 && start + 2
            <= c@.len(),
{
    if c.len() - start < 2 {
        return None;
    }
    if !digit(c[start]) {
        assert(!is_digit(c@[start as int + 0]));
        return None;
    }
    if !digit(c[start + 1]) {
        assert(!is_digit(c@[start as int + 1]));
        return None;
    }
    Some((c[start] as i64 - 48) * 10 + (c[start + 1] as i64 - 48))
}

/// The time of day at a place.
fn take_time(c: &[u8], p: usize) -> (t: (i64, i64, i64))
    requires
        p <= c@.len(),
    ensures
        (t.0 as int, t.1 as int, t.2 as int) == time_at(c@, p as int),
        0 <= t.0 <= 23,
        0 <= t.1 <= 59,
        0 <= t.2 <= 59,
{
    let n: usize = c.len();
    let h: usize = skip_sep(c, p);
    if let Some(hh) = take_two(c, h) {
        let m: usize = skip_sep(c, h + 2);
        if let Some(mm) = take_two(c, m) {
            let s: usize = skip_sep(c, m + 2);
            let ss: i64 = match take_two(c, s) {
                Some(v) => v,
                None => 0,
            };
            if hh <= 23 && mm <= 59 && ss <= 59 {
                return (hh, mm, ss);
            }
        }
    }
    (0, 0, 0)
}

/// The date written at a place.
fn take_date(c: &[u8], i: usize) -> (ts: Option<i64>)
    requires
        i < c@.len(),
    ensures
        match date_at(c@, i as int) {
            Some(t) => ts matches Some(r) && r == t,
            None => ts is None,
        },
{
    if i > 0 && digit(c[i - 1]) {
        return None;
    }
    let (y1, y2) = match take_two(c, i) {
        Some(hi) => match take_two(c, i + 2) {
            Some(lo) => (hi, lo),
            None => {
                proof {
                    assert(!digits_at(c@, i as int, 4)) by {
                        if digits_at(c@, i as int, 4) {
                            assert forall|k: int| 0 <= k < 2 implies is_digit(
                                #[trigger] c@[i + 2 + k],
                            ) by {
                                assert(is_digit(c@[i + (2 + k)]));
                            }
                        }
                    }
                }
                return None;
            },
        },
        None => {
            proof {
                assert(!digits_at(c@, i as int, 4)) by {
                    if digits_at(c@, i as int, 4) {
                        assert(digits_at(c@, i as int, 2));
                    }
                }
            }
            return None;
        },
    };
    proof {
        assert(digits_at(c@, i as int, 4)) by {
            assert forall|k: int| 0 <= k < 4 implies is_digit(#[trigger] c@[i + k]) by {
                if k >= 2 {
                    assert(is_digit(c@[i + 2 + (k - 2)]));
                }
            }
        }
    }
    let year: i64 = y1 * 100 + y2;
    if year < 1990 || year > 2035 {
        return None;
    }
    let mp: usize = skip_sep(c, i + 4);
    if let Some(month) = take_two(c, mp) {
        if 1 <= month && month <= 12 {
            let dp: usize = skip_sep(c, mp + 2);
            if let Some(day) = take_two(c, dp) {
                if 1 <= day && day <= 31 {
                    let (h, m, s) = take_time(c, dp + 2);
                    proof {
                        lemma_unix_time_fits(
                            year as int,
                            month as int,
                            day as int,
                            h as int,
                            m as int,
                            s as int,
                        );
                    }
                    return Some(civil_to_unix(year, month, day, h, m, s));
                }
            }
        }
    }
    None
}

/// Best-effort capture date from a filename, e.g. `PXL_20240614_155210.jpg`,
/// `IMG_20230101.jpg`, `2024-06-14 12.30.00.jpg`. Free (no file read), so it's the date
/// fallback for cloud-only photos. Returns the first plausible `YYYYMMDD` (optionally
/// with `HHMMSS`).
pub fn parse_filename_date(name: &str) -> (ts: Option<i64>)
    ensures
        match first_date(name.spec_bytes(), 0) {
            Some(t) => ts matches Some(r) && r == t,
            None => ts is None,
        },
{
    let c = name.as_bytes();
    for i in 0..c.len()
        invariant
            c@ == name.spec_bytes(),
            first_date(c@, 0) == first_date(c@, i as int),
    {
        if let Some(t) = take_date(c, i) {
            return Some(t);
        }
    }
    None
}

/// The value of a run of decimal digits.
pub open spec fn digits_value(s: Seq<char>) -> int
    decreases s.len(),
{
    if s.len() == 0 {
        0
    } else {
        digits_value(s.drop_last()) * 10 + (s.last() as int - 48)
    }
}

/// Nothing but decimal digits, and at least one.
pub open spec fn all_digits(s: Seq<char>) -> bool {
    s.len() > 0 && forall|k: int| 0 <= k < s.len() ==> '0' <= #[trigger] s[k] <= '9'
}

/// The integer a text writes: decimal digits with an optional sign, within `i64`.
pub open spec fn integer_value(s: Seq<char>) -> Option<i64> {
    let signed = s.len() > 0 && (s[0] == '-' || s[0] == '+');
    let digits = if signed {
        s.skip(1)
    } else {
        s
    };
    let v = if signed && s[0] == '-' {
        -digits_value(digits)
    } else {
        digits_value(digits)
    };
    if all_digits(digits) && i64::MIN <= v <= i64::MAX {
        Some(v as i64)
    } else {
        None
    }
}

proof fn lemma_digits_grow(s: Seq<char>, n: nat)
    requires
        n <= s.len(),
        forall|k: int| 0 <= k < s.len() ==> '0' <= #[trigger] s[k] <= '9',
    ensures
        0 <= digits_value(s.take(n as int)) <= digits_value(s),
    decreases s.len() - n,
{
    if n < s.len() {
        lemma_digits_grow(s, n + 1);
        let now = s.take(n as int + 1);
        assert(now.drop_last() =~= s.take(n as int));
        assert('0' <= s[n as int] <= '9');
        lemma_digits_nonnegative(s, n);
    } else {
        assert(s.take(n as int) =~= s);
        lemma_digits_nonnegative(s, n);
    }
}

proof fn lemma_digits_nonnegative(s: Seq<char>, n: nat)
    requires
        n <= s.len(),
        forall|k: int| 0 <= k < s.len() ==> '0' <= #[trigger] s[k] <= '9',
    ensures
        0 <= digits_value(s.take(n as int)),
    decreases n,
{
    if n > 0 {
        lemma_digits_nonnegative(s, (n - 1) as nat);
        let now = s.take(n as int);
        assert(now.drop_last() =~= s.take(n - 1));
        assert('0' <= s[n - 1] <= '9');
    }
}

/// The integer that a run of characters writes, as [`str::parse`] reads it.
pub fn parse_integer(s: &[char]) -> (v: Option<i64>)
    ensures
        v == integer_value(s@),
{
    let n: usize = s.len();
    let signed = n > 0 && (s[0] == '-' || s[0] == '+');
    let negative = n > 0 && s[0] == '-';
    let from: usize = if signed {
        1
    } else {
        0
    };
    let ghost digits = s@.skip(from as int);
    assert(s@.skip(0) =~= s@);
    if from == n {
        return None;
    }
    let mut i: usize = from;
    while i < n
        invariant
            n == s@.len(),
            from <= i <= n,
            signed == (s@.len() > 0 && (s@[0] == '-' || s@[0] == '+')),
            from == if signed {
                1int
            } else {
                0
            },
            s@.skip(0) == s@,
            digits == s@.skip(from as int),
            forall|k: int| 0 <= k < i - from ==> '0' <= #[trigger] digits[k] <= '9',
        decreases n - i,
    {
        let c = s[i];
        assert(digits[i - from] == c);
        if !('0' <= c && c <= '9') {
            return None;
        }
        i = i + 1;
    }
    let mut value: i128 = 0;
    let mut j: usize = from;
    assert(digits.take(0) =~= Seq::empty());
    while j < n
        invariant
            n == s@.len(),
            from <= j <= n,
            signed == (s@.len() > 0 && (s@[0] == '-' || s@[0] == '+')),
            from == if signed {
                1int
            } else {
                0
            },
            s@.skip(0) == s@,
            digits == s@.skip(from as int),
            all_digits(digits),
            0 <= value <= 0x8000_0000_0000_0000,
            value == digits_value(digits.take(j - from)),
        decreases n - j,
    {
        let c = s[j];
        proof {
            assert(digits[j - from] == c);
            assert(digits.take(j - from + 1).drop_last() =~= digits.take(j - from));
            assert(digits.take(j - from + 1).last() == c);
            lemma_digits_grow(digits, (j - from + 1) as nat);
        }
        let d: i128 = (c as u32 - 48) as i128;
        value = value * 10 + d;
        if value > 0x8000_0000_0000_0000 {
            return None;
        }
        j = j + 1;
    }
    assert(digits.take(n - from) =~= digits);
    let v: i128 = if negative {
        -value
    } else {
        value
    };
    if v > i64::MAX as i128 {
        None
    } else {
        Some(v as i64)
    }
}

/// Where the first of the separators stands from place `k` on; the text's length if
/// there is none.
pub open spec fn cut(s: Seq<char>, a: char, b: char, k: int) -> int
    decreases s.len() - k,
{
    if k >= s.len() {
        s.len() as int
    } else if s[k] == a || s[k] == b {
        k
    } else {
        cut(s, a, b, k + 1)
    }
}

/// The `n`-th piece of a text that is split at either of two separators.
pub open spec fn piece(s: Seq<char>, a: char, b: char, n: nat) -> Option<Seq<char>>
    decreases n,
{
    let at = cut(s, a, b, 0);
    if n == 0 {
        Some(s.take(at))
    } else if at >= s.len() {
        None
    } else {
        piece(s.skip(at + 1), a, b, (n - 1) as nat)
    }
}

proof fn lemma_cut(s: Seq<char>, a: char, b: char, k: int)
    requires
        0 <= k <= s.len(),
    ensures
        k <= cut(s, a, b, k) <= s.len(),
    decreases s.len() - k,
{
    if k < s.len() && !(s[k] == a || s[k] == b) {
        lemma_cut(s, a, b, k + 1);
    }
}

/// Where the first of the separators stands.
fn find_cut(s: &Vec<char>, a: char, b: char) -> (at: usize)
    ensures
        at == cut(s@, a, b, 0),
        at <= s@.len(),
{
    for k in 0..s.len()
        invariant
            cut(s@, a, b, 0) == cut(s@, a, b, k as int),
    {
        if s[k] == a || s[k] == b {
            return k;
        }
    }
    s.len()
}

/// The characters from `from` up to `to`.
fn range(s: &Vec<char>, from: usize, to: usize) -> (out: Vec<char>)
    requires
        from <= to <= s@.len(),
    ensures
        out@ == s@.subrange(from as int, to as int),
{
    let mut out: Vec<char> = Vec::with_capacity(to - from);
    for k in from..to
        invariant
            from <= to <= s@.len(),
            out@ == s@.subrange(from as int, k as int),
    {
        out.push(s[k]);
        assert(out@ =~= s@.subrange(from as int, k + 1));
    }
    out
}

/// The `n`-th piece of a text.
fn take_piece(s: &Vec<char>, a: char, b: char, n: u8) -> (p: Option<Vec<char>>)
    ensures
        match piece(s@, a, b, n as nat) {
            Some(x) => p matches Some(v) && v@ == x,
            None => p is None,
        },
    decreases n,
{
    let at = find_cut(s, a, b);
    if n == 0 {
        let head = range(s, 0, at);
        assert(head@ =~= s@.take(at as int));
        return Some(head);
    }
    if at >= s.len() {
        return None;
    }
    let rest = range(s, at + 1, s.len());
    assert(rest@ =~= s@.skip(at + 1));
    take_piece(&rest, a, b, n - 1)
}

/// The integer the `n`-th piece writes, after trimming where asked.
pub open spec fn piece_value(s: Seq<char>, a: char, b: char, n: nat, trims: bool) -> Option<i64> {
    match piece(s, a, b, n) {
        Some(p) => integer_value(
            if trims {
                trimmed(p)
            } else {
                p
            },
        ),
        None => None,
    }
}

/// The integer, or zero.
pub open spec fn or_zero(v: Option<i64>) -> i64 {
    match v {
        Some(n) => n,
        None => 0,
    }
}

/// The moment an EXIF date text means, once trimmed: `YYYY:MM:DD HH:MM:SS`, also with `-`
/// in the date. A time that is missing or cannot be read is zero.
pub open spec fn exif_moment(s: Seq<char>) -> Option<i64> {
    let at = cut(s, ' ', ' ', 0);
    let date = s.take(at);
    let time = if at < s.len() {
        s.skip(at + 1)
    } else {
        "00:00:00"@
    };
    let year = piece_value(date, ':', '-', 0, true);
    let month = piece_value(date, ':', '-', 1, false);
    let day = piece_value(date, ':', '-', 2, false);
    if year is None || month is None || day is None || year->0 < 1900 || !(1 <= month->0 <= 12)
        || !(1 <= day->0 <= 31) {
        None
    } else {
        let t = unix_time(
            year->0 as int,
            month->0 as int,
            day->0 as int,
            or_zero(piece_value(time, ':', ':', 0, false)) as int,
            or_zero(piece_value(time, ':', ':', 1, false)) as int,
            or_zero(piece_value(time, ':', ':', 2, false)) as int,
        );
        if i64::MIN <= t <= i64::MAX {
            Some(t as i64)
        } else {
            None
        }
    }
}

fn read_piece(s: &Vec<char>, a: char, b: char, n: u8) -> (v: Option<i64>)
    ensures
        v == piece_value(s@, a, b, n as nat, false),
{
    match take_piece(s, a, b, n) {
        Some(p) => parse_integer(p.as_slice()),
        None => None,
    }
}

fn unwrap_or_zero(v: Option<i64>) -> (n: i64)
    ensures
        n == or_zero(v),
{
    match v {
        Some(n) => n,
        None => 0,
    }
}

/// Parse "YYYY:MM:DD HH:MM:SS" (also tolerates '-' separators). Treated as UTC: EXIF
/// carries no timezone, and the calendar date is what the timeline sorts on. A moment too
/// far away to be counted in an `i64` is none.
pub fn parse_exif_datetime(s: &str) -> (ts: Option<i64>)
    ensures
        ts == exif_moment(trimmed(s@)),
{
    let text = trim(s);
    let c = chars_of(text.as_str());
    let at = find_cut(&c, ' ', ' ');
    let date = range(&c, 0, at);
    assert(date@ =~= c@.take(at as int));
    let time = if at < c.len() {
        let t = range(&c, at + 1, c.len());
        assert(t@ =~= c@.skip(at + 1));
        t
    } else {
        chars_of("00:00:00")
    };
    let year = match take_piece(&date, ':', '-', 0) {
        Some(p) => parse_integer(trim_chars(&p).as_slice()),
        None => None,
    };
    let month = read_piece(&date, ':', '-', 1);
    let day = read_piece(&date, ':', '-', 2);
    if let (Some(y), Some(m), Some(d)) = (year, month, day) {
        if y < 1900 || m < 1 || m > 12 || d < 1 || d > 31 {
            return None;
        }
        let h: i64 = unwrap_or_zero(read_piece(&time, ':', ':', 0));
        let min: i64 = unwrap_or_zero(read_piece(&time, ':', ':', 1));
        let sec: i64 = unwrap_or_zero(read_piece(&time, ':', ':', 2));
        let t: i128 = civil_seconds(y, m, d, h, min, sec);
        if i64::MIN as i128 <= t && t <= i64::MAX as i128 {
            return Some(t as i64);
        }
    }
    None
}

} // verus!
