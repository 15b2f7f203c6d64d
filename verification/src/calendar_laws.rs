//! The calendar, and the dates that names and texts write.

use vstd::prelude::*;

use crate::capture::{
    cut, date_at, digits_at, digits_value, exif_moment, first_date, four_digits, integer_value,
    is_digit, past_separator, piece, time_at, two_digits,
};
use crate::dates::{
    day_number, day_of, days_to_month, is_date, law_dates_are_ordered, lemma_year_step,
    month_len, unix_time,
};
use crate::places::{falls_on, is_anniversary};
use crate::text::{is_space, leading, lemma_leading, lemma_trailing, lower, trailing, trimmed};

verus! {

/// The days of a month.
pub open spec fn days_in(year: int, month: int) -> int {
    if month == 2 {
        if year % 400 == 0 || (year % 4 == 0 && year % 100 != 0) {
            29
        } else {
            28
        }
    } else if month == 4 || month == 6 || month == 9 || month == 11 {
        30
    } else {
        31
    }
}

/// **Days follow one another.** The first day of 1970 is day zero. The day after a date is the
/// next of its month, or the first of the next month, or the first of the next year.
pub proof fn law_days_follow(year: int, month: int, day: int)
    requires
        1 <= month <= 12,
        1 <= day <= days_in(year, month),
    ensures
        day_number(1970, 1, 1) == 0,
        is_date(year, month, day),
        !is_date(year, month, days_in(year, month) + 1),
        !is_date(year, month, 0),
        day < days_in(year, month) ==> day_number(year, month, day + 1) == day_number(
            year,
            month,
            day,
        ) + 1,
        day == days_in(year, month) && month < 12 ==> day_number(year, month + 1, 1)
            == day_number(year, month, day) + 1,
        day == days_in(year, month) && month == 12 ==> day_number(year + 1, 1, 1) == day_number(
            year,
            month,
            day,
        ) + 1,
{
    lemma_year_step(year);
    assert(days_in(year, month) == month_len(year, month));
    reveal_with_fuel(days_to_month, 13);
}

/// **A day has its seconds.** Midnight of the first day of 1970 is zero; a day is 86,400 seconds,
/// an hour 3,600 and a minute 60.
pub proof fn law_moments_add_up(y: int, m: int, d: int, h: int, min: int, sec: int)
    ensures
        unix_time(1970, 1, 1, 0, 0, 0) == 0,
        unix_time(y, m, d, 0, 0, 0) == 86_400 * day_number(y, m, d),
        unix_time(y, m, d, h, min, sec) == unix_time(y, m, d, 0, 0, 0) + 3_600 * h + 60 * min + sec,
        day_of(unix_time(y, m, d, 0, 0, 0)) == day_number(y, m, d),
{
    reveal_with_fuel(days_to_month, 2);
    let n = day_number(y, m, d);
    assert(n * 86400 / 86400 == n) by (nonlinear_arith);
}

/// **On this day means the same day of another year.** A moment is an anniversary of today if
/// it falls on the same day of the same month in an earlier year; today itself is none.
pub proof fn law_anniversaries(y: int, y2: int, m: int, d: int, ts: int, today: int)
    requires
        is_date(y, m, d),
        day_number(y, m, d) == today / 86_400,
    ensures
        y2 < y && is_date(y2, m, d) && day_number(y2, m, d) == ts / 86_400 ==> is_anniversary(
            ts,
            today,
        ),
        ts / 86_400 >= today / 86_400 ==> !is_anniversary(ts, today),
        is_anniversary(ts, today) ==> exists|past: int| #[trigger]
            is_date(past, m, d) && past < y && day_number(past, m, d) == ts / 86_400,
{
    assert(falls_on(today, y, m, d));
    if y2 < y && is_date(y2, m, d) && day_number(y2, m, d) == ts / 86_400 {
        assert(falls_on(ts, y2, m, d));
    }
    if is_anniversary(ts, today) {
        let (y1, y3, m1, d1) = choose|y1: int, y3: int, m1: int, d1: int| #[trigger]
            falls_on(ts, y1, m1, d1) && #[trigger] falls_on(today, y3, m1, d1) && y1 < y3;
        law_dates_are_ordered(y1, m1, d1, y3, m1, d1);
        if (y, m, d) != (y3, m1, d1) {
            if y < y3 || (y == y3 && (m < m1 || (m == m1 && d < d1))) {
                law_dates_are_ordered(y, m, d, y3, m1, d1);
            } else {
                law_dates_are_ordered(y3, m1, d1, y, m, d);
            }
        }
        assert(is_date(y1, m, d));
    }
}

/// The number that the two digits at a place write.
pub open spec fn two_at(c: Seq<u8>, p: int) -> int {
    10 * (c[p] - 48) + (c[p + 1] - 48)
}

/// Two digits stand at a place.
pub open spec fn two_digits_stand(c: Seq<u8>, p: int) -> bool {
    p + 2 <= c.len() && 48 <= c[p] <= 57 && 48 <= c[p + 1] <= 57
}

proof fn lemma_two(c: Seq<u8>, p: int)
    requires
        0 <= p,
        two_digits_stand(c, p),
    ensures
        digits_at(c, p, 2),
        two_digits(c, p) == two_at(c, p),
        past_separator(c, p) == p,
{
    assert forall|k: int| 0 <= k < 2 implies is_digit(#[trigger] c[p + k]) by {
        if k == 0 {
            assert(c[p + k] == c[p]);
        } else {
            assert(c[p + k] == c[p + 1]);
        }
    }
}

proof fn lemma_four(c: Seq<u8>, p: int)
    requires
        0 <= p,
        two_digits_stand(c, p),
        two_digits_stand(c, p + 2),
    ensures
        digits_at(c, p, 4),
        four_digits(c, p) == 100 * two_at(c, p) + two_at(c, p + 2),
{
    assert forall|k: int| 0 <= k < 4 implies is_digit(#[trigger] c[p + k]) by {
        if k == 0 {
            assert(c[p + k] == c[p]);
        } else if k == 1 {
            assert(c[p + k] == c[p + 1]);
        } else if k == 2 {
            assert(c[p + k] == c[p + 2]);
        } else {
            assert(c[p + k] == c[p + 3]);
        }
    }
}

/// Before a place no digit stands, so no date does.
proof fn lemma_first_date(c: Seq<u8>, i: int, k: int)
    requires
        0 <= k <= i < c.len(),
        forall|j: int| 0 <= j < i ==> !(48 <= #[trigger] c[j] <= 57),
        date_at(c, i) is Some,
    ensures
        first_date(c, k) == date_at(c, i),
    decreases i - k,
{
    if k < i {
        assert(!digits_at(c, k, 4)) by {
            if digits_at(c, k, 4) {
                assert(is_digit(c[k + 0]));
            }
        }
        lemma_first_date(c, i, k + 1);
    }
}

/// **A name that holds a date dates its photo.** `20240614_155210` and the like: four digits of
/// the year, two each of month and day, a separator, and two each of hours, minutes and
/// seconds, with no digit before, are that moment.
pub proof fn law_compact_names_are_dated(c: Seq<u8>, i: int)
    requires
        0 <= i,
        two_digits_stand(c, i),
        two_digits_stand(c, i + 2),
        two_digits_stand(c, i + 4),
        two_digits_stand(c, i + 6),
        i + 8 < c.len() && (c[i + 8] == 95 || c[i + 8] == 45 || c[i + 8] == 32),
        two_digits_stand(c, i + 9),
        two_digits_stand(c, i + 11),
        two_digits_stand(c, i + 13),
        forall|j: int| 0 <= j < i ==> !(48 <= #[trigger] c[j] <= 57),
        1990 <= 100 * two_at(c, i) + two_at(c, i + 2) <= 2035,
        1 <= two_at(c, i + 4) <= 12,
        1 <= two_at(c, i + 6) <= 31,
        two_at(c, i + 9) <= 23,
        two_at(c, i + 11) <= 59,
        two_at(c, i + 13) <= 59,
    ensures
        first_date(c, 0) == Some(
            unix_time(
                100 * two_at(c, i) + two_at(c, i + 2),
                two_at(c, i + 4),
                two_at(c, i + 6),
                two_at(c, i + 9),
                two_at(c, i + 11),
                two_at(c, i + 13),
            ),
        ),
{
    lemma_four(c, i);
    lemma_two(c, i + 4);
    lemma_two(c, i + 6);
    lemma_two(c, i + 9);
    lemma_two(c, i + 11);
    lemma_two(c, i + 13);
    assert(past_separator(c, i + 8) == i + 9);
    if i > 0 {
        assert(!(48 <= c[i - 1] <= 57));
    }
    lemma_first_date(c, i, 0);
}

/// **A name with separators is dated too.** `2024-06-14 12.30.00`: a separator between any two
/// parts.
pub proof fn law_spaced_names_are_dated(c: Seq<u8>, i: int)
    requires
        0 <= i,
        two_digits_stand(c, i),
        two_digits_stand(c, i + 2),
        two_digits_stand(c, i + 5),
        two_digits_stand(c, i + 8),
        two_digits_stand(c, i + 11),
        two_digits_stand(c, i + 14),
        two_digits_stand(c, i + 17),
        c[i + 4] == 45 && c[i + 7] == 45,
        c[i + 10] == 32 || c[i + 10] == 95 || c[i + 10] == 84,
        c[i + 13] == 46 || c[i + 13] == 58 || c[i + 13] == 45,
        c[i + 16] == 46 || c[i + 16] == 58 || c[i + 16] == 45,
        forall|j: int| 0 <= j < i ==> !(48 <= #[trigger] c[j] <= 57),
        1990 <= 100 * two_at(c, i) + two_at(c, i + 2) <= 2035,
        1 <= two_at(c, i + 5) <= 12,
        1 <= two_at(c, i + 8) <= 31,
        two_at(c, i + 11) <= 23,
        two_at(c, i + 14) <= 59,
        two_at(c, i + 17) <= 59,
    ensures
        first_date(c, 0) == Some(
            unix_time(
                100 * two_at(c, i) + two_at(c, i + 2),
                two_at(c, i + 5),
                two_at(c, i + 8),
                two_at(c, i + 11),
                two_at(c, i + 14),
                two_at(c, i + 17),
            ),
        ),
{
    lemma_four(c, i);
    lemma_two(c, i + 5);
    lemma_two(c, i + 8);
    lemma_two(c, i + 11);
    lemma_two(c, i + 14);
    lemma_two(c, i + 17);
    assert(past_separator(c, i + 4) == i + 5);
    assert(past_separator(c, i + 7) == i + 8);
    assert(past_separator(c, i + 10) == i + 11);
    assert(past_separator(c, i + 13) == i + 14);
    assert(past_separator(c, i + 16) == i + 17);
    if i > 0 {
        assert(!(48 <= c[i - 1] <= 57));
    }
    lemma_first_date(c, i, 0);
}

/// **A name with a day alone is dated at midnight.** Eight digits with nothing behind them.
pub proof fn law_day_names_are_dated_at_midnight(c: Seq<u8>, i: int)
    requires
        0 <= i,
        c.len() == i + 8 || (c.len() > i + 9 && c[i + 8] == 46 && !(48 <= c[i + 9] <= 57)),
        two_digits_stand(c, i),
        two_digits_stand(c, i + 2),
        two_digits_stand(c, i + 4),
        two_digits_stand(c, i + 6),
        forall|j: int| 0 <= j < i ==> !(48 <= #[trigger] c[j] <= 57),
        1990 <= 100 * two_at(c, i) + two_at(c, i + 2) <= 2035,
        1 <= two_at(c, i + 4) <= 12,
        1 <= two_at(c, i + 6) <= 31,
    ensures
        first_date(c, 0) == Some(
            unix_time(
                100 * two_at(c, i) + two_at(c, i + 2),
                two_at(c, i + 4),
                two_at(c, i + 6),
                0,
                0,
                0,
            ),
        ),
{
    lemma_four(c, i);
    lemma_two(c, i + 4);
    lemma_two(c, i + 6);
    if i > 0 {
        assert(!(48 <= c[i - 1] <= 57));
    }
    let h = past_separator(c, i + 8);
    assert(!digits_at(c, h, 2)) by {
        if digits_at(c, h, 2) {
            assert(is_digit(c[h + 0]));
        }
    }
    lemma_first_date(c, i, 0);
}

/// **A date in a name is a plausible one.** It starts with four digits that nothing but a
/// non-digit precedes, of a year from 1990 to 2035, with a month and a day that can be; and
/// no place before it holds one.
pub proof fn law_dates_in_names_are_plausible(c: Seq<u8>, k: int) -> (i: int)
    requires
        0 <= k,
        first_date(c, k) is Some,
    ensures
        k <= i < c.len(),
        two_digits_stand(c, i),
        two_digits_stand(c, i + 2),
        1990 <= 100 * two_at(c, i) + two_at(c, i + 2) <= 2035,
        i == 0 || !(48 <= c[i - 1] <= 57),
        first_date(c, k) == date_at(c, i),
        exists|m: int, d: int, h: int, min: int, sec: int|
            1 <= m <= 12 && 1 <= d <= 31 && 0 <= h <= 23 && 0 <= min <= 59 && 0 <= sec <= 59
                && first_date(c, k) == Some(
                #[trigger] unix_time(100 * two_at(c, i) + two_at(c, i + 2), m, d, h, min, sec),
            ),
    decreases c.len() - k,
{
    if date_at(c, k) is Some {
        assert(is_digit(c[k + 0]) && is_digit(c[k + 1]) && is_digit(c[k + 2]) && is_digit(
            c[k + 3],
        ));
        let m = past_separator(c, k + 4);
        let d = past_separator(c, m + 2);
        let (h, min, sec) = time_at(c, d + 2);
        lemma_four(c, k);
        let p = d + 2;
        let hh = past_separator(c, p);
        let mm = past_separator(c, hh + 2);
        let ss = past_separator(c, mm + 2);
        if digits_at(c, hh, 2) {
            assert(is_digit(c[hh + 0]) && is_digit(c[hh + 1]));
        }
        if digits_at(c, mm, 2) {
            assert(is_digit(c[mm + 0]) && is_digit(c[mm + 1]));
        }
        if digits_at(c, ss, 2) {
            assert(is_digit(c[ss + 0]) && is_digit(c[ss + 1]));
        }
        assert(first_date(c, k) == Some(
            unix_time(four_digits(c, k), two_digits(c, m), two_digits(c, d), h, min, sec),
        ));
        k
    } else {
        law_dates_in_names_are_plausible(c, k + 1)
    }
}

proof fn lemma_cut_at(s: Seq<char>, a: char, b: char, k: int, at: int)
    requires
        0 <= k <= at <= s.len(),
        forall|j: int| k <= j < at ==> #[trigger] s[j] != a && s[j] != b,
        at < s.len() ==> s[at] == a || s[at] == b,
    ensures
        cut(s, a, b, k) == at,
    decreases at - k,
{
    if k < at {
        assert(s[k] != a && s[k] != b);
        lemma_cut_at(s, a, b, k + 1, at);
    }
}

/// The piece between two separators.
proof fn lemma_piece(s: Seq<char>, a: char, b: char, n: nat, from: int, to: int)
    requires
        0 <= from <= to <= s.len(),
        n == 0 ==> from == 0,
        n > 0 ==> from > 0 && (s[from - 1] == a || s[from - 1] == b) && piece(
            s,
            a,
            b,
            (n - 1) as nat,
        ) is Some,
        forall|j: int| from <= j < to ==> #[trigger] s[j] != a && s[j] != b,
        to < s.len() ==> s[to] == a || s[to] == b,
        seps_before(s, a, b, from) == n,
    ensures
        piece(s, a, b, n) == Some(s.subrange(from, to)),
    decreases s.len(),
{
    if n == 0 {
        lemma_cut_at(s, a, b, 0, to);
        assert(s.take(to) =~= s.subrange(0, to));
    } else {
        let at = cut(s, a, b, 0);
        lemma_first_sep(s, a, b, from);
        let rest = s.skip(at + 1);
        lemma_seps_skip(s, a, b, at, from);
        if n == 1 {
            assert(at == from - 1) by {
                if at < from - 1 {
                    lemma_seps_count(s, a, b, at, from);
                }
            }
        } else {
            assert(piece(s, a, b, (n - 1) as nat) == piece(rest, a, b, (n - 2) as nat));
            assert(at + 1 < from) by {
                if at + 1 >= from {
                    lemma_seps_none(s, a, b, at);
                }
            }
            assert(rest[from - at - 2] == s[from - 1]);
        }
        assert forall|j: int| from - at - 1 <= j < to - at - 1 implies #[trigger] rest[j] != a
            && rest[j] != b by {
            assert(rest[j] == s[j + at + 1]);
        }
        if to < s.len() {
            assert(rest[to - at - 1] == s[to]);
        }
        lemma_piece(rest, a, b, (n - 1) as nat, from - at - 1, to - at - 1);
        assert(rest.subrange(from - at - 1, to - at - 1) =~= s.subrange(from, to));
    }
}

/// How many separators stand before a place.
spec fn seps_before(s: Seq<char>, a: char, b: char, p: int) -> int
    decreases p,
{
    if p <= 0 {
        0
    } else {
        seps_before(s, a, b, p - 1) + if s[p - 1] == a || s[p - 1] == b {
            1int
        } else {
            0
        }
    }
}

proof fn lemma_seps_none(s: Seq<char>, a: char, b: char, p: int)
    requires
        0 <= p <= cut(s, a, b, 0),
        cut(s, a, b, 0) <= s.len(),
    ensures
        seps_before(s, a, b, p) == 0,
    decreases p,
{
    if p > 0 {
        lemma_seps_none(s, a, b, p - 1);
        lemma_cut_clean(s, a, b, 0, p - 1);
    }
}

proof fn lemma_cut_clean(s: Seq<char>, a: char, b: char, k: int, j: int)
    requires
        0 <= k <= j < cut(s, a, b, k),
        cut(s, a, b, k) <= s.len(),
    ensures
        s[j] != a && s[j] != b,
    decreases j - k,
{
    if k < j {
        lemma_cut_clean(s, a, b, k + 1, j);
    }
}

proof fn lemma_first_sep(s: Seq<char>, a: char, b: char, from: int)
    requires
        0 < from <= s.len(),
        s[from - 1] == a || s[from - 1] == b,
    ensures
        0 <= cut(s, a, b, 0) < from,
        s[cut(s, a, b, 0)] == a || s[cut(s, a, b, 0)] == b,
{
    lemma_cut_bound(s, a, b, 0, from - 1);
}

proof fn lemma_cut_bound(s: Seq<char>, a: char, b: char, k: int, at: int)
    requires
        0 <= k <= at < s.len(),
        s[at] == a || s[at] == b,
    ensures
        k <= cut(s, a, b, k) <= at,
        s[cut(s, a, b, k)] == a || s[cut(s, a, b, k)] == b,
    decreases at - k,
{
    if k < at && !(s[k] == a || s[k] == b) {
        lemma_cut_bound(s, a, b, k + 1, at);
    }
}

proof fn lemma_seps_skip(s: Seq<char>, a: char, b: char, at: int, from: int)
    requires
        at == cut(s, a, b, 0),
        0 <= at < from <= s.len(),
        s[at] == a || s[at] == b,
    ensures
        seps_before(s.skip(at + 1), a, b, from - at - 1) == seps_before(s, a, b, from) - 1,
    decreases from,
{
    let rest = s.skip(at + 1);
    if from == at + 1 {
        lemma_seps_none(s, a, b, at);
    } else {
        lemma_seps_skip(s, a, b, at, from - 1);
        assert(rest[from - at - 2] == s[from - 1]);
    }
}

proof fn lemma_seps_count(s: Seq<char>, a: char, b: char, at: int, from: int)
    requires
        at == cut(s, a, b, 0),
        0 <= at < from - 1,
        from <= s.len(),
        s[at] == a || s[at] == b,
        s[from - 1] == a || s[from - 1] == b,
    ensures
        seps_before(s, a, b, from) >= 2,
{
    lemma_seps_skip(s, a, b, at, from);
    lemma_seps_positive(s.skip(at + 1), a, b, from - at - 1);
    assert(s.skip(at + 1)[from - at - 2] == s[from - 1]);
    lemma_seps_positive(s.skip(at + 1), a, b, from - at - 2);
}

proof fn lemma_seps_positive(s: Seq<char>, a: char, b: char, p: int)
    ensures
        seps_before(s, a, b, p) >= 0,
    decreases p,
{
    if p > 0 {
        lemma_seps_positive(s, a, b, p - 1);
    }
}

/// The number that the digits of a text from one place to another write.
pub open spec fn number_in(s: Seq<char>, from: int, to: int) -> int
    decreases to - from,
{
    if to <= from {
        0
    } else {
        10 * number_in(s, from, to - 1) + (s[to - 1] as int - 48)
    }
}

/// Nothing but digits stands between two places.
pub open spec fn digits_in(s: Seq<char>, from: int, to: int) -> bool {
    forall|k: int| from <= k < to ==> '0' <= #[trigger] s[k] <= '9'
}

proof fn lemma_digits(s: Seq<char>, from: int, to: int)
    requires
        0 <= from <= to <= s.len(),
        digits_in(s, from, to),
    ensures
        digits_value(s.subrange(from, to)) == number_in(s, from, to),
        0 <= number_in(s, from, to),
    decreases to - from,
{
    let v = s.subrange(from, to);
    if from < to {
        assert(v.drop_last() =~= s.subrange(from, to - 1));
        lemma_digits(s, from, to - 1);
        assert('0' <= s[to - 1] <= '9');
    }
}

proof fn lemma_number(s: Seq<char>, from: int, to: int)
    requires
        0 <= from < to <= s.len(),
        to - from <= 4,
        digits_in(s, from, to),
    ensures
        integer_value(s.subrange(from, to)) == Some(number_in(s, from, to) as i64),
        0 <= number_in(s, from, to) <= 9999,
        trimmed(s.subrange(from, to)) == s.subrange(from, to),
{
    let v = s.subrange(from, to);
    lemma_digits(s, from, to);
    reveal_with_fuel(number_in, 5);
    assert forall|k: int| 0 <= k < v.len() implies '0' <= #[trigger] v[k] <= '9' by {
        assert('0' <= s[from + k] <= '9');
    }
    assert(v[0] == s[from] && v.last() == s[to - 1]);
    assert('0' <= s[from] <= '9' && '0' <= s[to - 1] <= '9');
    assert(number_in(s, from, to) <= 9999) by {
        assert(forall|k: int| from <= k < to ==> '0' <= #[trigger] s[k] <= '9');
        if to - from >= 2 {
            assert('0' <= s[to - 2] <= '9');
        }
        if to - from >= 3 {
            assert('0' <= s[to - 3] <= '9');
        }
        if to - from >= 4 {
            assert('0' <= s[to - 4] <= '9');
        }
    }
    assert(!is_space(v[0]) && !is_space(v.last()));
    assert(v.skip(0) =~= v);
    assert(v.take(v.len() as int) =~= v);
}

/// **An EXIF date is read as it is written.** `YYYY:MM:DD HH:MM:SS`, also with dashes in the
/// date, is that moment; a year before 1900, or a month or day that cannot be, is none.
pub proof fn law_exif_dates_are_read(s: Seq<char>)
    requires
        s.len() == 19,
        digits_in(s, 0, 4),
        digits_in(s, 5, 7),
        digits_in(s, 8, 10),
        digits_in(s, 11, 13),
        digits_in(s, 14, 16),
        digits_in(s, 17, 19),
        s[4] == ':' || s[4] == '-',
        s[7] == ':' || s[7] == '-',
        s[10] == ' ',
        s[13] == ':',
        s[16] == ':',
    ensures
        number_in(s, 0, 4) >= 1900 && 1 <= number_in(s, 5, 7) <= 12 && 1 <= number_in(s, 8, 10)
            <= 31 && i64::MIN <= unix_time(
            number_in(s, 0, 4),
            number_in(s, 5, 7),
            number_in(s, 8, 10),
            number_in(s, 11, 13),
            number_in(s, 14, 16),
            number_in(s, 17, 19),
        ) <= i64::MAX ==> exif_moment(s) == Some(
            unix_time(
                number_in(s, 0, 4),
                number_in(s, 5, 7),
                number_in(s, 8, 10),
                number_in(s, 11, 13),
                number_in(s, 14, 16),
                number_in(s, 17, 19),
            ) as i64,
        ),
        number_in(s, 0, 4) < 1900 ==> exif_moment(s) is None,
        number_in(s, 5, 7) < 1 || number_in(s, 5, 7) > 12 ==> exif_moment(s) is None,
        number_in(s, 8, 10) < 1 || number_in(s, 8, 10) > 31 ==> exif_moment(s) is None,
{
    assert forall|j: int| 0 <= j < 10 implies #[trigger] s[j] != ' ' by {
        assert(j == 4 || j == 7 || '0' <= s[j] <= '9');
    }
    lemma_cut_at(s, ' ', ' ', 0, 10);
    let date = s.take(10);
    let time = s.skip(11);
    assert(digits_in(date, 0, 4)) by {
        assert forall|k: int| 0 <= k < 4 implies '0' <= #[trigger] date[k] <= '9' by {
            assert(date[k] == s[k]);
        }
    }
    assert(digits_in(date, 5, 7)) by {
        assert forall|k: int| 5 <= k < 7 implies '0' <= #[trigger] date[k] <= '9' by {
            assert(date[k] == s[k]);
        }
    }
    assert(digits_in(date, 8, 10)) by {
        assert forall|k: int| 8 <= k < 10 implies '0' <= #[trigger] date[k] <= '9' by {
            assert(date[k] == s[k]);
        }
    }
    assert(digits_in(time, 0, 2)) by {
        assert forall|k: int| 0 <= k < 2 implies '0' <= #[trigger] time[k] <= '9' by {
            assert(time[k] == s[k + 11]);
        }
    }
    assert(digits_in(time, 3, 5)) by {
        assert forall|k: int| 3 <= k < 5 implies '0' <= #[trigger] time[k] <= '9' by {
            assert(time[k] == s[k + 11]);
        }
    }
    assert(digits_in(time, 6, 8)) by {
        assert forall|k: int| 6 <= k < 8 implies '0' <= #[trigger] time[k] <= '9' by {
            assert(time[k] == s[k + 11]);
        }
    }
    assert(date[4] == s[4] && date[7] == s[7]);
    assert(time[2] == s[13] && time[5] == s[16]);
    reveal_with_fuel(seps_before, 12);
    lemma_piece(date, ':', '-', 0, 0, 4);
    lemma_piece(date, ':', '-', 1, 5, 7);
    lemma_piece(date, ':', '-', 2, 8, 10);
    lemma_piece(time, ':', ':', 0, 0, 2);
    lemma_piece(time, ':', ':', 1, 3, 5);
    lemma_piece(time, ':', ':', 2, 6, 8);
    lemma_number(date, 0, 4);
    lemma_number(date, 5, 7);
    lemma_number(date, 8, 10);
    lemma_number(time, 0, 2);
    lemma_number(time, 3, 5);
    lemma_number(time, 6, 8);
    reveal_with_fuel(number_in, 5);
    assert(number_in(date, 0, 4) == number_in(s, 0, 4));
    assert(number_in(date, 5, 7) == number_in(s, 5, 7));
    assert(number_in(date, 8, 10) == number_in(s, 8, 10));
    assert(number_in(time, 0, 2) == number_in(s, 11, 13));
    assert(number_in(time, 3, 5) == number_in(s, 14, 16));
    assert(number_in(time, 6, 8) == number_in(s, 17, 19));
}

/// **Trimming takes the white space at the ends, and only that.**
pub proof fn law_trimming(s: Seq<char>) -> (at: int)
    ensures
        0 <= at,
        at + trimmed(s).len() <= s.len(),
        trimmed(s) == s.subrange(at, at + trimmed(s).len()),
        forall|k: int| 0 <= k < at ==> is_space(#[trigger] s[k]),
        forall|k: int| at + trimmed(s).len() <= k < s.len() ==> is_space(#[trigger] s[k]),
        trimmed(s).len() > 0 ==> !is_space(trimmed(s)[0]) && !is_space(trimmed(s).last()),
{
    let l = leading(s) as int;
    lemma_leading(s);
    lemma_leading_spaces(s);
    let front = s.skip(l);
    lemma_trailing(front);
    lemma_trailing_spaces(front);
    let n = front.len() - trailing(front);
    assert(trimmed(s) =~= s.subrange(l, l + n));
    assert forall|k: int| l + trimmed(s).len() <= k < s.len() implies is_space(#[trigger] s[k]) by {
        assert(front[k - l] == s[k]);
    }
    if trimmed(s).len() > 0 {
        assert(trimmed(s)[0] == s[l]);
        assert(trimmed(s).last() == front[n - 1]);
    }
    l
}

proof fn lemma_leading_spaces(s: Seq<char>)
    ensures
        leading(s) <= s.len(),
        forall|k: int| 0 <= k < leading(s) ==> is_space(#[trigger] s[k]),
        leading(s) < s.len() ==> !is_space(s[leading(s) as int]),
    decreases s.len(),
{
    if s.len() > 0 && is_space(s[0]) {
        let rest = s.drop_first();
        lemma_leading_spaces(rest);
        assert forall|k: int| 0 <= k < leading(s) implies is_space(#[trigger] s[k]) by {
            if k > 0 {
                assert(rest[k - 1] == s[k]);
            }
        }
        if leading(s) < s.len() {
            assert(rest[leading(rest) as int] == s[leading(s) as int]);
        }
    }
}

proof fn lemma_trailing_spaces(s: Seq<char>)
    ensures
        trailing(s) <= s.len(),
        forall|k: int| s.len() - trailing(s) <= k < s.len() ==> is_space(#[trigger] s[k]),
        trailing(s) < s.len() ==> !is_space(s[s.len() - 1 - trailing(s)]),
    decreases s.len(),
{
    if s.len() > 0 && is_space(s.last()) {
        let front = s.drop_last();
        lemma_trailing_spaces(front);
        assert forall|k: int| s.len() - trailing(s) <= k < s.len() implies is_space(
            #[trigger] s[k],
        ) by {
            if k < s.len() - 1 {
                assert(front[k] == s[k]);
            }
        }
    }
}

/// **White space is what separates words.** Space, tab and line ends are; letters, digits and
/// signs are not.
pub proof fn law_white_space(c: char)
    ensures
        is_space(' ') && is_space('\t') && is_space('\n') && is_space('\r'),
        '!' <= c <= '~' ==> !is_space(c),
        c < '\t' ==> !is_space(c),
{
}

/// **Case is that of ASCII letters.** Capitals become the letters 32 further on; any other
/// character stays, and lowering twice is lowering once.
pub proof fn law_lower_case(c: char)
    ensures
        'A' <= c <= 'Z' ==> lower(c) as int == c as int + 32,
        !('A' <= c <= 'Z') ==> lower(c) == c,
        lower(lower(c)) == lower(c),
        lower('A') == 'a' && lower('Z') == 'z',
{
}

} // verus!
