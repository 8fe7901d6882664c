//! Calendar dates from counts of seconds and days.
use crate::text::{
    comes_before, dec, digits, lemma_digits_order, lemma_padded, parts_at, push_padded, ten_to,
    zero_padded,
};
use vstd::prelude::*;

verus! {

/// The year has a 29th of February.
pub open spec fn is_leap(y: int) -> bool {
    y % 4 == 0 && (y % 100 != 0 || y % 400 == 0)
}

/// How many days a month has.
pub open spec fn month_len(y: int, m: int) -> int {
    if m == 2 {
        if is_leap(y) {
            29
        } else {
            28
        }
    } else if m == 4 || m == 6 || m == 9 || m == 11 {
        30
    } else {
        31
    }
}

/// How many days of the year come before a month.
pub open spec fn days_before_month(y: int, m: int) -> int
    decreases m,
{
    if m <= 1 {
        0
    } else {
        days_before_month(y, m - 1) + month_len(y, m - 1)
    }
}

/// How many of the years `1..=y` are leap years; for `y < 0`, minus the number
/// of leap years that are left out.
pub open spec fn leaps(y: int) -> int {
    y / 4 - y / 100 + y / 400
}

/// How many days lie between the first day of 1970 and that of a year.
pub open spec fn days_before_year(y: int) -> int {
    365 * (y - 1970) + leaps(y - 1) - leaps(1969)
}

/// There is such a day in the calendar.
pub open spec fn is_date(y: int, m: int, d: int) -> bool {
    1 <= m <= 12 && 1 <= d <= month_len(y, m)
}

/// How many days lie between the first day of 1970 and a date.
pub open spec fn day_number(y: int, m: int, d: int) -> int {
    days_before_year(y) + days_before_month(y, m) + d - 1
}

/// Every fourth year has one more fourth year behind it.
proof fn lemma_fourth(y: int)
    ensures
        y / 4 - (y - 1) / 4 == if y % 4 == 0 {
            1int
        } else {
            0int
        },
{
}

/// Every hundredth year has one more hundredth year behind it.
proof fn lemma_hundredth(y: int)
    ensures
        y / 100 - (y - 1) / 100 == if y % 100 == 0 {
            1int
        } else {
            0int
        },
        y % 100 == 0 ==> y % 4 == 0,
{
}

/// Every 400th year has one more 400th year behind it.
proof fn lemma_400th(y: int)
    ensures
        y / 400 - (y - 1) / 400 == if y % 400 == 0 {
            1int
        } else {
            0int
        },
        y % 400 == 0 ==> y % 100 == 0,
{
}

/// One more leap year exactly where the year is one.
proof fn lemma_leaps_step(y: int)
    ensures
        leaps(y) - leaps(y - 1) == if is_leap(y) {
            1int
        } else {
            0int
        },
{
    lemma_fourth(y);
    lemma_hundredth(y);
    lemma_400th(y);
}

/// The days before each month, written out.
proof fn lemma_months(y: int)
    ensures
        days_before_month(y, 1) == 0,
        days_before_month(y, 2) == 31,
        ({
            let leap = if is_leap(y) {
                1int
            } else {
                0int
            };
            &&& days_before_month(y, 3) == 59 + leap
            &&& days_before_month(y, 4) == 90 + leap
            &&& days_before_month(y, 5) == 120 + leap
            &&& days_before_month(y, 6) == 151 + leap
            &&& days_before_month(y, 7) == 181 + leap
            &&& days_before_month(y, 8) == 212 + leap
            &&& days_before_month(y, 9) == 243 + leap
            &&& days_before_month(y, 10) == 273 + leap
            &&& days_before_month(y, 11) == 304 + leap
            &&& days_before_month(y, 12) == 334 + leap
        }),
{
    reveal_with_fuel(days_before_month, 13);
}

/// How the years of an era of 400 years add up.
proof fn lemma_era(era: int, century: int, quad: int, year: int)
    requires
        0 <= century <= 3,
        0 <= quad <= 24,
        0 <= year <= 3,
    ensures
        ({
            let n = 400 * era + 100 * century + 4 * quad + year;
            365 * n + leaps(n) == 146_097 * era + 36_524 * century + 1461 * quad + 365 * year
        }),
{
    let n = 400 * era + 100 * century + 4 * quad + year;
    assert(n / 4 == 100 * era + 25 * century + quad);
    assert(n / 100 == 4 * era + century);
    assert(n / 400 == era);
}

/// The last year of a century is a leap year only at the end of an era.
proof fn lemma_last_year(era: int, century: int, quad: int)
    requires
        0 <= century <= 3,
        0 <= quad <= 24,
        quad < 24 || century == 3,
    ensures
        is_leap(400 * era + 100 * century + 4 * quad + 4),
{
    let n = 400 * era + 100 * century + 4 * quad + 4;
    assert(n % 4 == 0);
    if quad < 24 {
        assert(n % 100 == 4 * quad + 4);
    } else {
        assert(n == 400 * (era + 1));
        assert(n % 400 == 0);
    }
}

/// The year that runs from March to February, and the day in it counted from
/// zero, that lies `z` days after the first day of 1970. A leap day comes last
/// in such a year.
fn march_year_of(z: i64) -> (r: (i64, i64))
    ensures
        z + 719_468 == 365 * r.0 + leaps(r.0 as int) + r.1,
        0 <= r.1 <= 365,
        r.1 == 365 ==> is_leap(r.0 + 1),
        -40_000_000_000_000_000 <= r.0 <= 40_000_000_000_000_000,
{
    let eras: i64 = z.checked_div_euclid(146_097).unwrap();
    assert(-64_000_000_000_000 <= eras <= 64_000_000_000_000);
    let from_march: i64 = z.checked_rem_euclid(146_097).unwrap() + 719_468;
    assert(z == eras * 146_097 + from_march - 719_468);
    assert(719_468 <= from_march < 719_468 + 146_097);
    let era: i64 = eras + from_march / 146_097;
    let of_era: i64 = from_march % 146_097;
    assert(z + 719_468 == era * 146_097 + of_era);
    let by_century: i64 = of_era / 36_524;
    let century: i64 = if by_century > 3 {
        3
    } else {
        by_century
    };
    let of_century: i64 = of_era - century * 36_524;
    assert(0 <= of_century <= 36_524);
    assert(century < 3 ==> of_century < 36_524);
    let quad: i64 = of_century / 1461;
    let of_quad: i64 = of_century - quad * 1461;
    assert(0 <= of_quad <= 1460);
    assert(0 <= quad <= 24);
    let by_year: i64 = of_quad / 365;
    let year: i64 = if by_year > 3 {
        3
    } else {
        by_year
    };
    let day: i64 = of_quad - year * 365;
    proof {
        lemma_era(era as int, century as int, quad as int, year as int);
        if day == 365 {
            assert(year == 3 && of_quad == 1460);
            lemma_last_year(era as int, century as int, quad as int);
        }
    }
    (era * 400 + century * 100 + quad * 4 + year, day)
}

/// The date that lies `z` days after the first day of 1970.
pub fn civil_from_days(z: i64) -> (r: (i64, u32, u32))
    ensures
        is_date(r.0 as int, r.1 as int, r.2 as int),
        day_number(r.0 as int, r.1 as int, r.2 as int) == z,
        i64::MIN < r.0,
{
    let (march_year, day): (i64, i64) = march_year_of(z);
    let month: i64 = (5 * day + 2) / 153;
    let d: i64 = day - (153 * month + 2) / 5 + 1;
    let m: i64 = if month < 10 {
        month + 3
    } else {
        month - 9
    };
    let y: i64 = if m <= 2 {
        march_year + 1
    } else {
        march_year
    };
    proof {
        lemma_month(z as int, march_year as int, day as int, month as int);
    }
    (y, m as u32, d as u32)
}

/// The date of a day in a year that runs from March to February.
proof fn lemma_month(z: int, n: int, day: int, month: int)
    requires
        z + 719_468 == 365 * n + leaps(n) + day,
        0 <= day <= 365,
        day == 365 ==> is_leap(n + 1),
        month == (5 * day + 2) / 153,
    ensures
        ({
            let d = day - (153 * month + 2) / 5 + 1;
            let m = if month < 10 {
                month + 3
            } else {
                month - 9
            };
            let y = if m <= 2 {
                n + 1
            } else {
                n
            };
            &&& 0 <= month <= 11
            &&& is_date(y, m, d)
            &&& day_number(y, m, d) == z
        }),
{
    lemma_leaps_step(n);
    lemma_leaps_step(n + 1);
    lemma_months(n);
    lemma_months(n + 1);
    assert(leaps(1969) == 477);
    assert(0 <= month <= 11);
    assert(month == 0 || month == 1 || month == 2 || month == 3 || month == 4 || month == 5 || month
        == 6 || month == 7 || month == 8 || month == 9 || month == 10 || month == 11);
}

/// A date comes before the first day of the next year.
proof fn lemma_date_in_year(y: int, m: int, d: int)
    requires
        is_date(y, m, d),
    ensures
        days_before_year(y) <= day_number(y, m, d) < days_before_year(y + 1),
{
    lemma_months(y);
    lemma_leaps_step(y);
    assert(m == 1 || m == 2 || m == 3 || m == 4 || m == 5 || m == 6 || m == 7 || m == 8 || m == 9
        || m == 10 || m == 11 || m == 12);
}

/// Later years begin later.
proof fn lemma_years_grow(a: int, b: int)
    requires
        a <= b,
    ensures
        days_before_year(a) <= days_before_year(b),
    decreases b - a,
{
    if a < b {
        lemma_leaps_step(b - 1);
        lemma_years_grow(a, b - 1);
    }
}

/// Two dates with the same day number are the same date.
pub proof fn law_dates_are_unique(y: int, m: int, d: int, y2: int, m2: int, d2: int)
    requires
        is_date(y, m, d),
        is_date(y2, m2, d2),
        day_number(y, m, d) == day_number(y2, m2, d2),
    ensures
        y == y2,
        m == m2,
        d == d2,
{
    lemma_date_in_year(y, m, d);
    lemma_date_in_year(y2, m2, d2);
    if y < y2 {
        lemma_years_grow(y + 1, y2);
    } else if y2 < y {
        lemma_years_grow(y2 + 1, y);
    } else {
        lemma_months(y);
        assert(m == 1 || m == 2 || m == 3 || m == 4 || m == 5 || m == 6 || m == 7 || m == 8 || m
            == 9 || m == 10 || m == 11 || m == 12);
        assert(m2 == 1 || m2 == 2 || m2 == 3 || m2 == 4 || m2 == 5 || m2 == 6 || m2 == 7 || m2 == 8
            || m2 == 9 || m2 == 10 || m2 == 11 || m2 == 12);
    }
}

/// A year with at least four characters, its sign among them.
pub open spec fn year_text(y: int) -> Seq<char> {
    if y < 0 {
        seq!['-'] + zero_padded(dec((-y) as nat), 3)
    } else {
        zero_padded(dec(y as nat), 4)
    }
}

/// A date as `YYYY-MM-DD`.
pub open spec fn date_text(y: int, m: int, d: int) -> Seq<char> {
    year_text(y) + "-"@ + zero_padded(dec(m as nat), 2) + "-"@ + zero_padded(dec(d as nat), 2)
}

/// `text` is the date of a point in time, as `YYYY-MM-DD`.
pub open spec fn is_date_of(secs: int, text: Seq<char>) -> bool {
    exists|y: int, m: int, d: int|
        is_date(y, m, d) && day_number(y, m, d) == secs / 86_400 && text == #[trigger] date_text(
            y,
            m,
            d,
        )
}

/// A date of the years 0 to 9999 has four, two and two digits.
proof fn lemma_date_digits(y: int, m: int, d: int)
    requires
        0 <= y <= 9999,
        is_date(y, m, d),
    ensures
        date_text(y, m, d) == digits(y as nat, 4) + seq!['-'] + digits(m as nat, 2) + seq!['-']
            + digits(d as nat, 2),
        digits(y as nat, 4).len() == 4,
        digits(m as nat, 2).len() == 2,
        digits(d as nat, 2).len() == 2,
{
    reveal_with_fuel(ten_to, 5);
    lemma_padded(y as nat, 4);
    lemma_padded(m as nat, 2);
    lemma_padded(d as nat, 2);
    reveal_strlit("-");
    assert("-"@ =~= seq!['-']);
}

/// An earlier day has the smaller year, or in the same year the smaller month, or
/// in the same month the smaller day.
proof fn lemma_earlier_date(y: int, m: int, d: int, y2: int, m2: int, d2: int)
    requires
        is_date(y, m, d),
        is_date(y2, m2, d2),
        day_number(y, m, d) < day_number(y2, m2, d2),
    ensures
        y < y2 || y == y2 && (m < m2 || m == m2 && d < d2),
{
    lemma_date_in_year(y, m, d);
    lemma_date_in_year(y2, m2, d2);
    if y2 < y {
        lemma_years_grow(y2 + 1, y);
    } else if y == y2 {
        lemma_months(y);
        assert(m == 1 || m == 2 || m == 3 || m == 4 || m == 5 || m == 6 || m == 7 || m == 8 || m
            == 9 || m == 10 || m == 11 || m == 12);
        assert(m2 == 1 || m2 == 2 || m2 == 3 || m2 == 4 || m2 == 5 || m2 == 6 || m2 == 7 || m2 == 8
            || m2 == 9 || m2 == 10 || m2 == 11 || m2 == 12);
    }
}

/// A day of the years 0 to 9999 lies in one of them.
proof fn lemma_year_range(y: int, m: int, d: int)
    requires
        is_date(y, m, d),
        -719_528 <= day_number(y, m, d) <= 2_932_896,
    ensures
        0 <= y <= 9999,
{
    lemma_date_in_year(y, m, d);
    assert(days_before_year(0) == -719_528);
    assert(days_before_year(10_000) == 2_932_897);
    if y < 0 {
        lemma_years_grow(y + 1, 0);
    }
    if y > 9999 {
        lemma_years_grow(10_000, y);
    }
}

/// The text of an earlier date comes first.
proof fn lemma_earlier_text(y: int, m: int, d: int, y2: int, m2: int, d2: int)
    requires
        0 <= y <= 9999,
        0 <= y2 <= 9999,
        is_date(y, m, d),
        is_date(y2, m2, d2),
        y < y2 || y == y2 && (m < m2 || m == m2 && d < d2),
    ensures
        comes_before(date_text(y, m, d), date_text(y2, m2, d2)),
{
    lemma_date_digits(y, m, d);
    lemma_date_digits(y2, m2, d2);
    reveal_with_fuel(ten_to, 5);
    let a = date_text(y, m, d);
    let b = date_text(y2, m2, d2);
    let k = if y < y2 {
        lemma_digits_order(y as nat, y2 as nat, 4)
    } else if m < m2 {
        5 + lemma_digits_order(m as nat, m2 as nat, 2)
    } else {
        8 + lemma_digits_order(d as nat, d2 as nat, 2)
    };
    if y < y2 {
        assert(a.take(k) =~= digits(y as nat, 4).take(k));
        assert(b.take(k) =~= digits(y2 as nat, 4).take(k));
    } else if m < m2 {
        assert(a.take(k) =~= a.take(5) + digits(m as nat, 2).take(k - 5));
        assert(b.take(k) =~= b.take(5) + digits(m2 as nat, 2).take(k - 5));
        assert(a.take(5) =~= b.take(5));
    } else {
        assert(a.take(k) =~= a.take(8) + digits(d as nat, 2).take(k - 8));
        assert(b.take(k) =~= b.take(8) + digits(d2 as nat, 2).take(k - 8));
        assert(a.take(8) =~= b.take(8));
    }
    assert(parts_at(a, b, k));
}

/// In the years 0 to 9999 dates have ten characters, a later point in time never
/// has the smaller text, and two points in time have the same text exactly where
/// they are on the same day.
pub proof fn law_later_dates_come_later(s1: int, s2: int, a: Seq<char>, b: Seq<char>)
    requires
        -62_167_219_200 <= s1 <= s2 <= 253_402_300_799,
        is_date_of(s1, a),
        is_date_of(s2, b),
    ensures
        a.len() == 10,
        b.len() == 10,
        a == b <==> s1 / 86_400 == s2 / 86_400,
        a == b || comes_before(a, b),
{
    let (y, m, d) = choose|y: int, m: int, d: int|
        is_date(y, m, d) && day_number(y, m, d) == s1 / 86_400 && a == #[trigger] date_text(y, m, d);
    let (y2, m2, d2) = choose|y: int, m: int, d: int|
        is_date(y, m, d) && day_number(y, m, d) == s2 / 86_400 && b == #[trigger] date_text(y, m, d);
    assert(-719_528 <= s1 / 86_400 <= s2 / 86_400 <= 2_932_896);
    lemma_year_range(y, m, d);
    lemma_year_range(y2, m2, d2);
    lemma_date_digits(y, m, d);
    lemma_date_digits(y2, m2, d2);
    if s1 / 86_400 == s2 / 86_400 {
        law_dates_are_unique(y, m, d, y2, m2, d2);
    } else {
        lemma_earlier_date(y, m, d, y2, m2, d2);
        lemma_earlier_text(y, m, d, y2, m2, d2);
        if a == b {
            let k = choose|k: int| #[trigger] parts_at(a, b, k);
            assert(a[k] == b[k]);
        }
    }
}

/// The date, in UTC, of a count of seconds since 1970.
pub fn format_unix_date(secs: i64) -> (r: String)
    ensures
        is_date_of(secs as int, r@),
{
    let days: i64 = secs.checked_div_euclid(86_400).unwrap();
    let (y, m, d): (i64, u32, u32) = civil_from_days(days);
    let mut out: String = String::new();
    if y < 0 {
        out.push('-');
        push_padded(&mut out, (-y) as u64, 3);
    } else {
        push_padded(&mut out, y as u64, 4);
    }
    assert(out@ =~= year_text(y as int));
    out.push('-');
    push_padded(&mut out, m as u64, 2);
    out.push('-');
    push_padded(&mut out, d as u64, 2);
    proof {
        reveal_strlit("-");
        assert("-"@ =~= seq!['-']);
        assert(out@ =~= date_text(y as int, m as int, d as int));
    }
    out
}

/// Days are counted from the first day of 1970, and each day of the calendar is
/// one more than the day before it: months have their usual lengths, and February
/// a 29th in years that four divides, but of full centuries only in those that 400
/// divides.
pub proof fn law_days_follow_each_other(y: int, m: int, d: int)
    ensures
        day_number(1970, 1, 1) == 0,
        ({
            let last = if m == 2 {
                if y % 400 == 0 || (y % 4 == 0 && y % 100 != 0) {
                    29int
                } else {
                    28
                }
            } else if m == 4 || m == 6 || m == 9 || m == 11 {
                30
            } else {
                31
            };
            &&& is_date(y, m, d) <==> 1 <= m <= 12 && 1 <= d <= last
            &&& is_date(y, m, d) && d < last ==> day_number(y, m, d + 1) == day_number(y, m, d) + 1
            &&& is_date(y, m, d) && d == last && m < 12 ==> day_number(y, m + 1, 1) == day_number(
                y,
                m,
                d,
            ) + 1
            &&& is_date(y, m, d) && d == last && m == 12 ==> day_number(y + 1, 1, 1) == day_number(
                y,
                m,
                d,
            ) + 1
        }),
{
    lemma_months(1970);
    lemma_months(y);
    lemma_months(y + 1);
    lemma_leaps_step(y);
    lemma_400th(y);
    lemma_hundredth(y);
}

/// The date of a point in time is that of its day, which begins at midnight: in
/// the years 0 to 9999 four digits of the year, two of the month and two of the
/// day, with dashes between them.
pub proof fn law_date_is_written(secs: int, y: int, m: int, d: int, text: Seq<char>)
    requires
        0 <= y <= 9999,
        is_date(y, m, d),
        86_400 * day_number(y, m, d) <= secs < 86_400 * (day_number(y, m, d) + 1),
        is_date_of(secs, text),
    ensures
        text.len() == 10,
        text[0] as int == 48 + y / 1000,
        text[1] as int == 48 + y / 100 % 10,
        text[2] as int == 48 + y / 10 % 10,
        text[3] as int == 48 + y % 10,
        text[4] == '-',
        text[5] as int == 48 + m / 10,
        text[6] as int == 48 + m % 10,
        text[7] == '-',
        text[8] as int == 48 + d / 10,
        text[9] as int == 48 + d % 10,
{
    let (y2, m2, d2) = choose|y: int, m: int, d: int|
        is_date(y, m, d) && day_number(y, m, d) == secs / 86_400 && text == #[trigger] date_text(
            y,
            m,
            d,
        );
    assert(secs / 86_400 == day_number(y, m, d));
    law_dates_are_unique(y, m, d, y2, m2, d2);
    lemma_date_digits(y, m, d);
    reveal_with_fuel(digits, 6);
}

/// A year before the year 0 has a minus sign in front.
pub proof fn law_early_years(y: int, m: int, d: int)
    requires
        y < 0,
    ensures
        date_text(y, m, d)[0] == '-',
{
}

} // verus!
