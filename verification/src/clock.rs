//! Times: what the clock says, and how a moment is written down.

use chrono::TimeZone;
use vstd::prelude::*;
use vstd::string::*;

use crate::number::{
    digits, integer, is_digit, law_minus_negates, law_natural_is_decimal, law_natural_round_trip,
    lemma_digits, natural,
};

verus! {

// ------------------------------------------------------------------- calendar
/// A time of the Gregorian calendar, without a zone.
pub struct CivilTime {
    pub year: int,
    pub month: int,
    pub day: int,
    pub hour: int,
    pub minute: int,
    pub second: int,
}

pub open spec fn is_leap(year: int) -> bool {
    year % 4 == 0 && (year % 100 != 0 || year % 400 == 0)
}

/// How many days the months of the year before `month` have.
pub open spec fn days_before_month(year: int, month: int) -> int {
    let extra: int = if month > 2 && is_leap(year) {
        1
    } else {
        0
    };
    extra + if month <= 1 {
        0int
    } else if month == 2 {
        31
    } else if month == 3 {
        59
    } else if month == 4 {
        90
    } else if month == 5 {
        120
    } else if month == 6 {
        151
    } else if month == 7 {
        181
    } else if month == 8 {
        212
    } else if month == 9 {
        243
    } else if month == 10 {
        273
    } else if month == 11 {
        304
    } else if month == 12 {
        334
    } else {
        365
    }
}

/// How many days lie between the first day of the year 0 and that of `year`.
pub open spec fn days_before_year(year: int) -> int {
    365 * year + (year + 3) / 4 - (year + 99) / 100 + (year + 399) / 400
}

impl CivilTime {
    /// The calendar and the clock have this time.
    pub open spec fn is_valid(self) -> bool {
        &&& 1 <= self.month <= 12
        &&& 1 <= self.day <= days_before_month(self.year, self.month + 1) - days_before_month(
            self.year,
            self.month,
        )
        &&& 0 <= self.hour < 24
        &&& 0 <= self.minute < 60
        &&& 0 <= self.second < 60
    }

    /// The days since the first day of 1970.
    pub open spec fn day_number(self) -> int {
        days_before_year(self.year) - days_before_year(1970) + days_before_month(
            self.year,
            self.month,
        ) + self.day - 1
    }

    /// The seconds since the beginning of 1970.
    pub open spec fn seconds(self) -> int {
        self.day_number() * 86400 + self.hour * 3600 + self.minute * 60 + self.second
    }
}

/// `t` is the time `seconds` seconds after the beginning of 1970.
pub open spec fn is_time_at(t: CivilTime, seconds: int) -> bool {
    t.is_valid() && t.seconds() == seconds
}

/// A moment of the years -262143 to 262142, in seconds since the beginning of
/// 1970.
pub open spec fn in_calendar(seconds: int) -> bool {
    -8_334_601_228_800 <= seconds <= 8_210_266_876_799
}

/// A difference between local time and universal time: less than a day.
pub open spec fn is_offset(offset: int) -> bool {
    -86_400 < offset < 86_400
}

// -------------------------------------------------------------------- writing
/// `n` in decimal, with zeros before it up to `width` digits.
pub open spec fn padded(n: nat, width: nat) -> Seq<char> {
    let d = digits(n);
    if d.len() < width {
        Seq::new((width - d.len()) as nat, |i: int| '0') + d
    } else {
        d
    }
}

/// A year: four digits, and a sign where four digits do not hold it.
pub open spec fn year_text(year: int) -> Seq<char> {
    if 0 <= year <= 9999 {
        padded(year as nat, 4)
    } else if year < 0 {
        seq!['-'] + padded((-year) as nat, 4)
    } else {
        seq!['+'] + padded(year as nat, 4)
    }
}

/// What the letter `c` of a pattern stands for.
pub open spec fn part_text(t: CivilTime, c: char) -> Seq<char> {
    if c == 'Y' {
        year_text(t.year)
    } else if c == 'm' {
        padded(t.month as nat, 2)
    } else if c == 'd' {
        padded(t.day as nat, 2)
    } else if c == 'H' {
        padded(t.hour as nat, 2)
    } else if c == 'M' {
        padded(t.minute as nat, 2)
    } else {
        padded(t.second as nat, 2)
    }
}

pub open spec fn is_part(c: char) -> bool {
    c == 'Y' || c == 'm' || c == 'd' || c == 'H' || c == 'M' || c == 'S'
}

/// In `pattern`, a part of the time follows each per cent sign.
pub open spec fn is_pattern(pattern: Seq<char>) -> bool
    decreases pattern.len(),
{
    if pattern.len() == 0 {
        true
    } else if pattern[0] == '%' {
        pattern.len() > 1 && is_part(pattern[1]) && is_pattern(pattern.skip(2))
    } else {
        is_pattern(pattern.skip(1))
    }
}

/// `pattern` with the parts of `t` in their places.
pub open spec fn stamped(t: CivilTime, pattern: Seq<char>) -> Seq<char>
    decreases pattern.len(),
{
    if pattern.len() == 0 {
        Seq::empty()
    } else if pattern[0] == '%' && pattern.len() > 1 {
        part_text(t, pattern[1]) + stamped(t, pattern.skip(2))
    } else {
        seq![pattern[0]] + stamped(t, pattern.skip(1))
    }
}

/// `text` is `pattern` with the parts of the time at `seconds` in their places.
pub open spec fn shows(text: Seq<char>, seconds: int, pattern: Seq<char>) -> bool {
    exists|t: CivilTime| is_time_at(t, seconds) && text == #[trigger] stamped(t, pattern)
}

/// The id of a run that begins at `t`: date and time of day.
pub open spec fn run_id_text(t: CivilTime) -> Seq<char> {
    year_text(t.year) + padded(t.month as nat, 2) + padded(t.day as nat, 2) + seq!['-'] + padded(
        t.hour as nat,
        2,
    ) + padded(t.minute as nat, 2) + padded(t.second as nat, 2)
}

/// The date of `t`.
pub open spec fn date_text(t: CivilTime) -> Seq<char> {
    year_text(t.year) + seq!['-'] + padded(t.month as nat, 2) + seq!['-'] + padded(t.day as nat, 2)
}

/// Date and time of day, to the minute.
pub open spec fn minute_text(t: CivilTime) -> Seq<char> {
    date_text(t) + seq![' '] + padded(t.hour as nat, 2) + seq![':'] + padded(t.minute as nat, 2)
}

/// Date and time of day, to the second.
pub open spec fn second_text(t: CivilTime) -> Seq<char> {
    minute_text(t) + seq![':'] + padded(t.second as nat, 2)
}

// ----------------------------------------------------------------------- laws
proof fn lemma_year_length(year: int)
    ensures
        days_before_year(year + 1) == days_before_year(year) + days_before_month(year, 13),
{
}

proof fn lemma_years_grow(a: int, b: int)
    requires
        a <= b,
    ensures
        days_before_year(a) <= days_before_year(b),
    decreases b - a,
{
    if a < b {
        lemma_years_grow(a, b - 1);
        lemma_year_length(b - 1);
    }
}

proof fn lemma_months_grow(year: int, a: int, b: int)
    requires
        1 <= a <= b <= 13,
    ensures
        days_before_month(year, a) <= days_before_month(year, b),
{
}

proof fn lemma_day_order(a: CivilTime, b: CivilTime)
    requires
        a.is_valid(),
        b.is_valid(),
        a.year < b.year || (a.year == b.year && a.month < b.month),
    ensures
        a.day_number() < b.day_number(),
{
    lemma_months_grow(a.year, a.month + 1, 13);
    lemma_months_grow(b.year, 1, b.month);
    if a.year < b.year {
        lemma_year_length(a.year);
        lemma_years_grow(a.year + 1, b.year);
    } else {
        lemma_months_grow(a.year, a.month + 1, b.month);
    }
}

/// A moment is one time of the calendar.
pub proof fn law_time_is_unique(a: CivilTime, b: CivilTime, seconds: int)
    requires
        is_time_at(a, seconds),
        is_time_at(b, seconds),
    ensures
        a == b,
{
    let x = a.hour * 3600 + a.minute * 60 + a.second;
    let y = b.hour * 3600 + b.minute * 60 + b.second;
    assert(0 <= x < 86400 && 0 <= y < 86400);
    assert(a.day_number() == b.day_number());
    if a.year < b.year || (a.year == b.year && a.month < b.month) {
        lemma_day_order(a, b);
    }
    if b.year < a.year || (a.year == b.year && b.month < a.month) {
        lemma_day_order(b, a);
    }
    assert(a.year == b.year && a.month == b.month && a.day == b.day);
    assert(x == y);
    assert(a.hour == b.hour && a.minute == b.minute && a.second == b.second);
}

proof fn lemma_padded(n: nat, width: nat)
    requires
        width == 2 && n < 100 || width == 4 && n < 10000,
    ensures
        padded(n, width).len() == width,
        forall|i: int| 0 <= i < width ==> is_digit(#[trigger] padded(n, width)[i]),
{
    lemma_digits(n);
    reveal_with_fuel(digits, 4);
    let p = padded(n, width);
    assert forall|i: int| 0 <= i < width implies is_digit(#[trigger] p[i]) by {
        let lead = width - digits(n).len();
        if i >= lead {
            assert(is_digit(digits(n)[i - lead]));
        }
    }
}

/// The id of a run is eight digits, a dash and six digits, as long as the year
/// has four digits.
pub proof fn law_run_id_shape(t: CivilTime, i: int)
    requires
        t.is_valid(),
        0 <= t.year <= 9999,
        0 <= i < 15,
    ensures
        run_id_text(t).len() == 15,
        i == 8 ==> run_id_text(t)[i] == '-',
        i != 8 ==> is_digit(run_id_text(t)[i]),
{
    lemma_padded(t.year as nat, 4);
    lemma_padded(t.month as nat, 2);
    lemma_padded(t.day as nat, 2);
    lemma_padded(t.hour as nat, 2);
    lemma_padded(t.minute as nat, 2);
    lemma_padded(t.second as nat, 2);
    let a = padded(t.year as nat, 4);
    let b = padded(t.month as nat, 2);
    let c = padded(t.day as nat, 2);
    let e = padded(t.hour as nat, 2);
    let f = padded(t.minute as nat, 2);
    let g = padded(t.second as nat, 2);
    let r = run_id_text(t);
    if i < 4 {
        assert(r[i] == a[i]);
    } else if i < 6 {
        assert(r[i] == b[i - 4]);
    } else if i < 8 {
        assert(r[i] == c[i - 6]);
    } else if i == 8 {
        assert(r[i] == '-');
    } else if i < 11 {
        assert(r[i] == e[i - 9]);
    } else if i < 13 {
        assert(r[i] == f[i - 11]);
    } else {
        assert(r[i] == g[i - 13]);
    }
}

/// A pattern with one more part behind it.
proof fn lemma_then_part(t: CivilTime, p: Seq<char>, c: char)
    requires
        is_pattern(p),
        is_part(c),
    ensures
        is_pattern(p + seq!['%', c]),
        stamped(t, p + seq!['%', c]) == stamped(t, p) + part_text(t, c),
    decreases p.len(),
{
    let q = p + seq!['%', c];
    if p.len() == 0 {
        assert(q.skip(2) =~= Seq::empty());
        assert(is_pattern(q.skip(2)) && stamped(t, q.skip(2)) =~= Seq::empty());
        assert(stamped(t, q) =~= stamped(t, p) + part_text(t, c));
    } else {
        let n: int = if p[0] == '%' {
            2
        } else {
            1
        };
        lemma_then_part(t, p.skip(n), c);
        assert(q.skip(n) =~= p.skip(n) + seq!['%', c]);
        assert(stamped(t, q) =~= stamped(t, p) + part_text(t, c));
    }
}

/// A pattern with one more character behind it.
proof fn lemma_then_char(t: CivilTime, p: Seq<char>, c: char)
    requires
        is_pattern(p),
        c != '%',
    ensures
        is_pattern(p + seq![c]),
        stamped(t, p + seq![c]) == stamped(t, p) + seq![c],
    decreases p.len(),
{
    let q = p + seq![c];
    if p.len() == 0 {
        assert(q.skip(1) =~= Seq::empty());
        assert(is_pattern(q.skip(1)) && stamped(t, q.skip(1)) =~= Seq::empty());
        assert(stamped(t, q) =~= stamped(t, p) + seq![c]);
    } else {
        let n: int = if p[0] == '%' {
            2
        } else {
            1
        };
        lemma_then_char(t, p.skip(n), c);
        assert(q.skip(n) =~= p.skip(n) + seq![c]);
        assert(stamped(t, q) =~= stamped(t, p) + seq![c]);
    }
}

proof fn lemma_run_id_pattern(t: CivilTime)
    ensures
        is_pattern("%Y%m%d-%H%M%S"@),
        stamped(t, "%Y%m%d-%H%M%S"@) == run_id_text(t),
{
    let p0 = Seq::<char>::empty();
    let p1 = p0 + seq!['%', 'Y'];
    let p2 = p1 + seq!['%', 'm'];
    let p3 = p2 + seq!['%', 'd'];
    let p4 = p3 + seq!['-'];
    let p5 = p4 + seq!['%', 'H'];
    let p6 = p5 + seq!['%', 'M'];
    let p7 = p6 + seq!['%', 'S'];
    lemma_then_part(t, p0, 'Y');
    lemma_then_part(t, p1, 'm');
    lemma_then_part(t, p2, 'd');
    lemma_then_char(t, p3, '-');
    lemma_then_part(t, p4, 'H');
    lemma_then_part(t, p5, 'M');
    lemma_then_part(t, p6, 'S');
    assert(p0 + year_text(t.year) =~= year_text(t.year));
    reveal_strlit("%Y%m%d-%H%M%S");
    assert("%Y%m%d-%H%M%S"@ =~= p7);
}

proof fn lemma_minute_pattern(t: CivilTime)
    ensures
        is_pattern("%Y-%m-%d %H:%M"@),
        stamped(t, "%Y-%m-%d %H:%M"@) == minute_text(t),
{
    let p0 = Seq::<char>::empty();
    let p1 = p0 + seq!['%', 'Y'];
    let p2 = p1 + seq!['-'];
    let p3 = p2 + seq!['%', 'm'];
    let p4 = p3 + seq!['-'];
    let p5 = p4 + seq!['%', 'd'];
    let p6 = p5 + seq![' '];
    let p7 = p6 + seq!['%', 'H'];
    let p8 = p7 + seq![':'];
    let p9 = p8 + seq!['%', 'M'];
    lemma_then_part(t, p0, 'Y');
    lemma_then_char(t, p1, '-');
    lemma_then_part(t, p2, 'm');
    lemma_then_char(t, p3, '-');
    lemma_then_part(t, p4, 'd');
    lemma_then_char(t, p5, ' ');
    lemma_then_part(t, p6, 'H');
    lemma_then_char(t, p7, ':');
    lemma_then_part(t, p8, 'M');
    assert(p0 + year_text(t.year) =~= year_text(t.year));
    reveal_strlit("%Y-%m-%d %H:%M");
    assert("%Y-%m-%d %H:%M"@ =~= p9);
}

proof fn lemma_second_pattern(t: CivilTime)
    ensures
        is_pattern("%Y-%m-%d %H:%M:%S"@),
        stamped(t, "%Y-%m-%d %H:%M:%S"@) == second_text(t),
{
    let p = "%Y-%m-%d %H:%M"@;
    lemma_minute_pattern(t);
    lemma_then_char(t, p, ':');
    lemma_then_part(t, p + seq![':'], 'S');
    reveal_strlit("%Y-%m-%d %H:%M");
    reveal_strlit("%Y-%m-%d %H:%M:%S");
    assert("%Y-%m-%d %H:%M:%S"@ =~= p + seq![':'] + seq!['%', 'S']);
}

/// The id of a run consists of digits and signs: it takes one field of one line
/// of the log.
pub proof fn law_run_id_fits_the_log(t: CivilTime, i: int)
    requires
        t.is_valid(),
        0 <= i < run_id_text(t).len(),
    ensures
        is_digit(run_id_text(t)[i]) || run_id_text(t)[i] == '-' || run_id_text(t)[i] == '+',
{
    let y = year_text(t.year);
    let n: nat = if t.year < 0 {
        (-t.year) as nat
    } else {
        t.year as nat
    };
    lemma_padded_digits(n, 4);
    lemma_padded_digits(t.month as nat, 2);
    lemma_padded_digits(t.day as nat, 2);
    lemma_padded_digits(t.hour as nat, 2);
    lemma_padded_digits(t.minute as nat, 2);
    lemma_padded_digits(t.second as nat, 2);
    assert forall|k: int| 0 <= k < y.len() implies is_digit(#[trigger] y[k]) || y[k] == '-' || y[k]
        == '+' by {
        if 0 <= t.year <= 9999 {
            assert(y[k] == padded(n, 4)[k]);
        } else if k > 0 {
            assert(y[k] == padded(n, 4)[k - 1]);
        }
    }
    let a = padded(t.month as nat, 2);
    let b = padded(t.day as nat, 2);
    let c = padded(t.hour as nat, 2);
    let d = padded(t.minute as nat, 2);
    let e = padded(t.second as nat, 2);
    let x = i - y.len();
    if x < 0 {
        assert(run_id_text(t)[i] == y[i]);
    } else if x < a.len() {
        assert(run_id_text(t)[i] == a[x]);
    } else if x < a.len() + b.len() {
        assert(run_id_text(t)[i] == b[x - a.len()]);
    } else if x == a.len() + b.len() {
        assert(run_id_text(t)[i] == '-');
    } else {
        let z = x - a.len() - b.len() - 1;
        if z < c.len() {
            assert(run_id_text(t)[i] == c[z]);
        } else if z < c.len() + d.len() {
            assert(run_id_text(t)[i] == d[z - c.len()]);
        } else {
            assert(run_id_text(t)[i] == e[z - c.len() - d.len()]);
        }
    }
}

proof fn lemma_padded_digits(n: nat, width: nat)
    ensures
        forall|i: int| 0 <= i < padded(n, width).len() ==> is_digit(#[trigger] padded(n, width)[i]),
{
    lemma_digits(n);
    let p = padded(n, width);
    let lead = p.len() - digits(n).len();
    assert forall|i: int| 0 <= i < p.len() implies is_digit(#[trigger] p[i]) by {
        if i >= lead {
            assert(p[i] == digits(n)[i - lead]);
        }
    }
}

/// 1970 begins at the moment 0.
pub proof fn law_moments_count_from_1970()
    ensures
        is_time_at(
            (CivilTime { year: 1970, month: 1, day: 1, hour: 0, minute: 0, second: 0 }),
            0,
        ),
{
}

/// April, June, September and November have thirty days, February has 28 or, in a
/// leap year, 29, and the other months have 31. A leap year is one that four
/// divides, but of those that a hundred divides only one that four hundred divides.
pub proof fn law_months_have_their_days(t: CivilTime)
    requires
        1 <= t.month <= 12,
        0 <= t.hour < 24 && 0 <= t.minute < 60 && 0 <= t.second < 60,
    ensures
        t.month == 4 || t.month == 6 || t.month == 9 || t.month == 11 ==> (t.is_valid() <==> 1
            <= t.day <= 30),
        t.month == 2 && (t.year % 4 != 0 || (t.year % 100 == 0 && t.year % 400 != 0)) ==> (
        t.is_valid() <==> 1 <= t.day <= 28),
        t.month == 2 && (t.year % 400 == 0 || (t.year % 4 == 0 && t.year % 100 != 0)) ==> (
        t.is_valid() <==> 1 <= t.day <= 29),
        t.month == 1 || t.month == 3 || t.month == 5 || t.month == 7 || t.month == 8 || t.month
            == 10 || t.month == 12 ==> (t.is_valid() <==> 1 <= t.day <= 31),
{
    if t.year % 400 == 0 {
        assert(t.year % 4 == 0);
    }
}

/// `b` is the time one second behind `a`: the second goes up by one, or the fields
/// that have come to their ends begin anew and the next one goes up by one.
pub open spec fn is_next(a: CivilTime, b: CivilTime) -> bool {
    let same_day = b.year == a.year && b.month == a.month && b.day == a.day;
    ||| same_day && b.hour == a.hour && b.minute == a.minute && b.second == a.second + 1
    ||| same_day && b.hour == a.hour && b.minute == a.minute + 1 && a.second == 59 && b.second == 0
    ||| same_day && b.hour == a.hour + 1 && a.minute == 59 && a.second == 59 && b.minute == 0
        && b.second == 0
    ||| {
        &&& a.hour == 23 && a.minute == 59 && a.second == 59
        &&& b.hour == 0 && b.minute == 0 && b.second == 0
        &&& {
            ||| b.year == a.year && b.month == a.month && b.day == a.day + 1
            ||| b.year == a.year && b.month == a.month + 1 && b.day == 1 && !(CivilTime {
                day: a.day + 1,
                ..a
            }).is_valid()
            ||| b.year == a.year + 1 && a.month == 12 && a.day == 31 && b.month == 1 && b.day == 1
        }
    }
}

/// The moments follow each other as the times of the calendar do.
pub proof fn law_next_second(a: CivilTime, b: CivilTime, seconds: int)
    requires
        is_time_at(a, seconds),
        b.is_valid(),
        is_next(a, b),
    ensures
        is_time_at(b, seconds + 1),
{
    lemma_year_length(a.year);
}

proof fn lemma_padded_reads(n: nat, width: nat)
    ensures
        natural(padded(n, width)) == Some(n),
        padded(n, width).len() >= width,
        padded(n, width).len() > 0 && is_digit(padded(n, width)[0]),
    decreases width,
{
    lemma_digits(n);
    law_natural_round_trip(n);
    assert(is_digit(digits(n)[0]));
    let d = digits(n);
    if d.len() < width {
        let less = padded(n, (width - 1) as nat);
        lemma_padded_reads(n, (width - 1) as nat);
        assert(padded(n, width) =~= seq!['0'] + less);
        law_natural_is_decimal(less, '0');
    }
}

/// A year reads back as its number, and takes four characters or more.
pub proof fn law_year_reads_back(year: int)
    ensures
        integer(year_text(year)) == Some(year),
        year_text(year).len() >= 4,
        0 <= year <= 9999 ==> year_text(year).len() == 4,
{
    if year < 0 {
        let p = padded((-year) as nat, 4);
        lemma_padded_reads((-year) as nat, 4);
        law_minus_negates(p);
    } else {
        let p = padded(year as nat, 4);
        lemma_padded_reads(year as nat, 4);
        law_natural_is_decimal(p, '0');
        law_minus_negates(p);
        law_minus_negates(seq!['+'] + p);
        if year <= 9999 {
            lemma_padded(year as nat, 4);
        }
    }
}

/// The id of a run tells the year, the month and the day, and behind a dash the
/// hour, the minute and the second, each but the year in two digits.
pub proof fn law_run_id_tells_the_time(t: CivilTime)
    requires
        t.is_valid(),
    ensures
        ({
            let s = run_id_text(t);
            let k = s.len() - 11;
            &&& k >= 4
            &&& integer(s.take(k)) == Some(t.year)
            &&& natural(s.subrange(k, k + 2)) == Some(t.month as nat)
            &&& natural(s.subrange(k + 2, k + 4)) == Some(t.day as nat)
            &&& s[k + 4] == '-'
            &&& natural(s.subrange(k + 5, k + 7)) == Some(t.hour as nat)
            &&& natural(s.subrange(k + 7, k + 9)) == Some(t.minute as nat)
            &&& natural(s.subrange(k + 9, k + 11)) == Some(t.second as nat)
        }),
{
    lemma_parts(t);
    let s = run_id_text(t);
    let k = year_text(t.year).len() as int;
    assert(s.take(k) =~= year_text(t.year));
    assert(s.subrange(k, k + 2) =~= padded(t.month as nat, 2));
    assert(s.subrange(k + 2, k + 4) =~= padded(t.day as nat, 2));
    assert(s.subrange(k + 5, k + 7) =~= padded(t.hour as nat, 2));
    assert(s.subrange(k + 7, k + 9) =~= padded(t.minute as nat, 2));
    assert(s.subrange(k + 9, k + 11) =~= padded(t.second as nat, 2));
}

/// A moment to the minute tells the year, the month and the day with dashes between
/// them, and behind a space the hour and the minute with a colon between them; a
/// moment to the second tells that, and the second behind another colon.
pub proof fn law_moment_tells_the_time(t: CivilTime)
    requires
        t.is_valid(),
    ensures
        ({
            let s = minute_text(t);
            let k = s.len() - 12;
            &&& k >= 4
            &&& integer(s.take(k)) == Some(t.year)
            &&& s[k] == '-'
            &&& natural(s.subrange(k + 1, k + 3)) == Some(t.month as nat)
            &&& s[k + 3] == '-'
            &&& natural(s.subrange(k + 4, k + 6)) == Some(t.day as nat)
            &&& s[k + 6] == ' '
            &&& natural(s.subrange(k + 7, k + 9)) == Some(t.hour as nat)
            &&& s[k + 9] == ':'
            &&& natural(s.subrange(k + 10, k + 12)) == Some(t.minute as nat)
        }),
        ({
            let s = second_text(t);
            let k = s.len() - 3;
            &&& s.take(k) == minute_text(t)
            &&& s[k] == ':'
            &&& natural(s.subrange(k + 1, k + 3)) == Some(t.second as nat)
        }),
{
    lemma_parts(t);
    let s = minute_text(t);
    let k = year_text(t.year).len() as int;
    assert(s.take(k) =~= year_text(t.year));
    assert(s.subrange(k + 1, k + 3) =~= padded(t.month as nat, 2));
    assert(s.subrange(k + 4, k + 6) =~= padded(t.day as nat, 2));
    assert(s.subrange(k + 7, k + 9) =~= padded(t.hour as nat, 2));
    assert(s.subrange(k + 10, k + 12) =~= padded(t.minute as nat, 2));
    let u = second_text(t);
    let m = s.len() as int;
    assert(u.take(m) =~= s);
    assert(u.subrange(m + 1, m + 3) =~= padded(t.second as nat, 2));
}

proof fn lemma_parts(t: CivilTime)
    requires
        t.is_valid(),
    ensures
        integer(year_text(t.year)) == Some(t.year),
        year_text(t.year).len() >= 4,
        natural(padded(t.month as nat, 2)) == Some(t.month as nat),
        natural(padded(t.day as nat, 2)) == Some(t.day as nat),
        natural(padded(t.hour as nat, 2)) == Some(t.hour as nat),
        natural(padded(t.minute as nat, 2)) == Some(t.minute as nat),
        natural(padded(t.second as nat, 2)) == Some(t.second as nat),
        padded(t.month as nat, 2).len() == 2,
        padded(t.day as nat, 2).len() == 2,
        padded(t.hour as nat, 2).len() == 2,
        padded(t.minute as nat, 2).len() == 2,
        padded(t.second as nat, 2).len() == 2,
{
    law_year_reads_back(t.year);
    lemma_padded_reads(t.month as nat, 2);
    lemma_padded_reads(t.day as nat, 2);
    lemma_padded_reads(t.hour as nat, 2);
    lemma_padded_reads(t.minute as nat, 2);
    lemma_padded_reads(t.second as nat, 2);
    lemma_padded(t.month as nat, 2);
    lemma_padded(t.day as nat, 2);
    lemma_padded(t.hour as nat, 2);
    lemma_padded(t.minute as nat, 2);
    lemma_padded(t.second as nat, 2);
}

/// Runs that begin at different moments have different ids.
pub proof fn law_run_ids_differ(a: CivilTime, b: CivilTime)
    requires
        a.is_valid(),
        b.is_valid(),
        a.seconds() != b.seconds(),
    ensures
        run_id_text(a) != run_id_text(b),
{
    law_run_id_tells_the_time(a);
    law_run_id_tells_the_time(b);
}

// ------------------------------------------------------------------ the clock
/// The seconds since 1970 that `std::time::SystemTime::elapsed` gives for
/// `UNIX_EPOCH`, or nothing where the clock stands before it. Nothing is
/// claimed of the number, which depends on the clock.
#[verifier::external_body]
fn epoch_elapsed() -> (r: Option<u64>) {
    match std::time::UNIX_EPOCH.elapsed() {
        Ok(span) => Some(span.as_secs()),
        Err(_) => None,
    }
}

/// The moment, in seconds since 1970, and the offset of local time from
/// universal time that `chrono::Local::now` gives. Claimed is only that chrono
/// has both: what they are depends on the clock and the zone of the machine.
/// The call panics where the clock stands outside chrono's years or before 1970,
/// or where the zone lies a day or more from universal time.
#[verifier::external_body]
fn local_now() -> (r: (i64, i32))
    ensures
        in_calendar(r.0 as int),
        is_offset(r.1 as int),
{
    let now = chrono::Local::now();
    (now.timestamp(), now.offset().local_minus_utc())
}

/// The offset of local time from universal time at a moment, as
/// `chrono::TimeZone::timestamp_opt` finds it for `chrono::Local`: there is one
/// exactly for the moments of chrono's years, and it is less than a day. Which
/// one depends on the zone of the machine. The call panics where that zone lies a
/// day or more from universal time.
#[verifier::external_body]
fn local_offset(seconds: i64) -> (r: Option<i32>)
    ensures
        r is Some <==> in_calendar(seconds as int),
        r matches Some(offset) ==> is_offset(offset as int),
{
    match chrono::Local.timestamp_opt(seconds, 0).single() {
        Some(time) => Some(time.offset().local_minus_utc()),
        None => None,
    }
}

/// A moment at an offset from universal time, written by
/// `chrono::DateTime::format`: the pattern with the parts of the time of the
/// calendar in their places. Claimed is what chrono documents of the specifiers
/// `%Y`, `%m`, `%d`, `%H`, `%M` and `%S`, and that other characters stand for
/// themselves.
#[verifier::external_body]
fn format_at(seconds: i64, offset: i32, pattern: &str) -> (r: String)
    requires
        in_calendar(seconds as int),
        is_offset(offset as int),
        is_pattern(pattern@),
    ensures
        shows(r@, seconds + offset, pattern@),
{
    let zone = chrono::FixedOffset::east_opt(offset).unwrap();
    zone.timestamp_opt(seconds, 0).unwrap().format(pattern).to_string()
}

// ------------------------------------------------------------------ functions
/// The seconds since 1970, where the clock stands `elapsed` seconds behind its
/// beginning; 0 where it stands before it.
pub fn ts_from(elapsed: Option<u64>) -> (r: u64)
    ensures
        elapsed matches Some(n) ==> r == n,
        elapsed is None ==> r == 0,
{
    match elapsed {
        Some(n) => n,
        None => 0,
    }
}

/// The seconds since 1970 that the clock shows; 0 where it stands before then.
pub fn now_ts() -> u64 {
    ts_from(epoch_elapsed())
}

/// The id of a run that begins at `seconds`, where local time is `offset`
/// seconds ahead.
pub fn run_id_at(seconds: i64, offset: i32) -> (r: String)
    requires
        in_calendar(seconds as int),
        is_offset(offset as int),
    ensures
        exists|t: CivilTime| is_time_at(t, seconds + offset) && r@ == #[trigger] run_id_text(t),
{
    let ghost p = "%Y%m%d-%H%M%S"@;
    proof {
        lemma_run_id_pattern(arbitrary());
    }
    let r = format_at(seconds, offset, "%Y%m%d-%H%M%S");
    proof {
        let t = choose|t: CivilTime|
            is_time_at(t, seconds + offset) && r@ == #[trigger] stamped(t, p);
        lemma_run_id_pattern(t);
    }
    r
}

/// A moment to the second.
pub fn second_text_at(seconds: i64, offset: i32) -> (r: String)
    requires
        in_calendar(seconds as int),
        is_offset(offset as int),
    ensures
        exists|t: CivilTime| is_time_at(t, seconds + offset) && r@ == #[trigger] second_text(t),
{
    let ghost p = "%Y-%m-%d %H:%M:%S"@;
    proof {
        lemma_second_pattern(arbitrary());
    }
    let r = format_at(seconds, offset, "%Y-%m-%d %H:%M:%S");
    proof {
        let t = choose|t: CivilTime|
            is_time_at(t, seconds + offset) && r@ == #[trigger] stamped(t, p);
        lemma_second_pattern(t);
    }
    r
}

/// A moment to the minute.
pub fn minute_text_at(seconds: i64, offset: i32) -> (r: String)
    requires
        in_calendar(seconds as int),
        is_offset(offset as int),
    ensures
        exists|t: CivilTime| is_time_at(t, seconds + offset) && r@ == #[trigger] minute_text(t),
{
    let ghost p = "%Y-%m-%d %H:%M"@;
    proof {
        lemma_minute_pattern(arbitrary());
    }
    let r = format_at(seconds, offset, "%Y-%m-%d %H:%M");
    proof {
        let t = choose|t: CivilTime|
            is_time_at(t, seconds + offset) && r@ == #[trigger] stamped(t, p);
        lemma_minute_pattern(t);
    }
    r
}

/// The id of a run that begins now, by local time.
pub fn make_run_id() -> (r: String)
    ensures
        exists|t: CivilTime, seconds: int, offset: int|
            in_calendar(seconds) && is_offset(offset) && #[trigger] is_time_at(t, seconds + offset)
                && r@ == run_id_text(t),
{
    let (seconds, offset) = local_now();
    let r = run_id_at(seconds, offset);
    proof {
        let t = choose|t: CivilTime|
            is_time_at(t, seconds + offset) && r@ == #[trigger] run_id_text(t);
        assert(is_time_at(t, (seconds as int) + (offset as int)));
    }
    r
}

/// Now, by local time, to the second.
pub fn now_text() -> (r: String)
    ensures
        exists|t: CivilTime, seconds: int, offset: int|
            in_calendar(seconds) && is_offset(offset) && #[trigger] is_time_at(t, seconds + offset)
                && r@ == second_text(t),
{
    let (seconds, offset) = local_now();
    let r = second_text_at(seconds, offset);
    proof {
        let t = choose|t: CivilTime|
            is_time_at(t, seconds + offset) && r@ == #[trigger] second_text(t);
        assert(is_time_at(t, (seconds as int) + (offset as int)));
    }
    r
}

/// The moment that the 64 bits of `started` stand for when they are read as a
/// signed number.
pub open spec fn signed(started: u64) -> int {
    if started <= i64::MAX {
        started as int
    } else {
        started - 0x1_0000_0000_0000_0000
    }
}

/// When a run that began at `started` began, to the minute, where local time was
/// then `offset` seconds ahead; empty where there is no such time.
pub fn started_text_at(started: u64, offset: Option<i32>) -> (r: String)
    requires
        offset matches Some(o) ==> in_calendar(signed(started)) && is_offset(o as int),
    ensures
        offset matches Some(o) ==> exists|t: CivilTime|
            is_time_at(t, signed(started) + o) && r@ == #[trigger] minute_text(t),
        offset is None ==> r@.len() == 0,
{
    match offset {
        Some(o) => {
            assert(started as i64 == signed(started)) by {
                lemma_signed(started);
            }
            minute_text_at(started as i64, o)
        },
        None => String::new(),
    }
}

/// The signed number differs from the unsigned one by a multiple of two to the 64,
/// and 64 bits hold it.
pub proof fn law_signed_is_the_same_bits(n: u64)
    ensures
        i64::MIN <= signed(n) <= i64::MAX,
        (n - signed(n)) % 0x1_0000_0000_0000_0000 == 0,
{
}

proof fn lemma_signed(n: u64)
    ensures
        n as i64 == signed(n),
{
    assert(n <= 0x7fff_ffff_ffff_ffff ==> n as i64 == n) by (bit_vector);
    assert(n > 0x7fff_ffff_ffff_ffff ==> n as i64 == n - 0x1_0000_0000_0000_0000) by (bit_vector);
}

/// When a run that began at `started` began, by local time to the minute; empty
/// where the calendar does not reach that far.
pub fn started_text(started: u64) -> (r: String)
    ensures
        in_calendar(signed(started)) ==> exists|t: CivilTime, offset: int|
            is_offset(offset) && #[trigger] is_time_at(t, signed(started) + offset) && r@
                == minute_text(t),
        !in_calendar(signed(started)) ==> r@.len() == 0,
{
    proof {
        lemma_signed(started);
    }
    let offset = local_offset(started as i64);
    let r = started_text_at(started, offset);
    proof {
        if let Some(o) = offset {
            let t = choose|t: CivilTime|
                is_time_at(t, signed(started) + o) && r@ == #[trigger] minute_text(t);
            assert(is_time_at(t, signed(started) + (o as int)));
        }
    }
    r
}

} // verus!
