//! Decimal numbers as text, in both directions.

use vstd::prelude::*;
use vstd::string::*;

use crate::text::chars_of;

verus! {

// -------------------------------------------------------------------- writing
/// The character of the digit `d`.
pub open spec fn digit_char(d: int) -> char {
    (48 + d) as char
}

/// `n` in decimal, without leading zeros.
pub open spec fn digits(n: nat) -> Seq<char>
    decreases n,
{
    if n < 10 {
        seq![digit_char(n as int)]
    } else {
        digits(n / 10).push(digit_char((n % 10) as int))
    }
}

/// `n` in decimal, with a minus sign where it is negative.
pub open spec fn decimal(n: int) -> Seq<char> {
    if n < 0 {
        seq!['-'] + digits((-n) as nat)
    } else {
        digits(n as nat)
    }
}

// -------------------------------------------------------------------- reading
pub open spec fn is_digit(c: char) -> bool {
    '0' <= c <= '9'
}

pub open spec fn all_digits(s: Seq<char>) -> bool {
    forall|i: int| 0 <= i < s.len() ==> is_digit(#[trigger] s[i])
}

/// The number that a row of digits stands for.
pub open spec fn value_of(s: Seq<char>) -> nat
    decreases s.len(),
{
    if s.len() == 0 {
        0
    } else {
        value_of(s.drop_last()) * 10 + (s.last() as int - 48) as nat
    }
}

/// The number that a non-empty row of digits stands for.
pub open spec fn plain(s: Seq<char>) -> Option<nat> {
    if s.len() > 0 && all_digits(s) {
        Some(value_of(s))
    } else {
        None
    }
}

/// The natural number that `s` stands for: digits, behind a plus sign or none.
pub open spec fn natural(s: Seq<char>) -> Option<nat> {
    if s.len() > 0 && s[0] == '+' {
        plain(s.skip(1))
    } else {
        plain(s)
    }
}

/// The integer that `s` stands for: digits, behind a sign or none.
pub open spec fn integer(s: Seq<char>) -> Option<int> {
    if s.len() > 0 && s[0] == '-' {
        match plain(s.skip(1)) {
            Some(n) => Some(-n),
            None => None,
        }
    } else {
        match natural(s) {
            Some(n) => Some(n as int),
            None => None,
        }
    }
}

/// The natural number that `s` stands for, where it is at most `max`.
pub open spec fn natural_up_to(s: Seq<char>, max: int) -> Option<int> {
    match natural(s) {
        Some(n) => if n <= max {
            Some(n as int)
        } else {
            None
        },
        None => None,
    }
}

/// The integer that `s` stands for, where an `i32` can hold it.
pub open spec fn integer_i32(s: Seq<char>) -> Option<int> {
    match integer(s) {
        Some(n) => if i32::MIN <= n <= i32::MAX {
            Some(n)
        } else {
            None
        },
        None => None,
    }
}

// ----------------------------------------------------------------------- laws
/// Decimal text is one or more digits.
pub proof fn lemma_digits(n: nat)
    ensures
        digits(n).len() > 0,
        all_digits(digits(n)),
        value_of(digits(n)) == n,
    decreases n,
{
    if n < 10 {
        assert(digits(n).drop_last() =~= Seq::<char>::empty());
        assert(value_of(Seq::<char>::empty()) == 0);
    } else {
        lemma_digits(n / 10);
        assert(digits(n).drop_last() =~= digits(n / 10));
        assert forall|i: int| 0 <= i < digits(n).len() implies is_digit(#[trigger] digits(n)[i]) by {
            if i < digits(n / 10).len() {
                assert(digits(n)[i] == digits(n / 10)[i]);
            }
        }
    }
}

/// Reading the decimal text of a natural number gives the number back.
pub proof fn law_natural_round_trip(n: nat)
    ensures
        natural(digits(n)) == Some(n),
{
    lemma_digits(n);
    assert(is_digit(digits(n)[0]));
}

/// A number is written with the digits of its tenth part and then its last digit,
/// and a number below ten with its one digit: so without zeros before it.
pub proof fn law_digits_are_decimal(n: nat, d: int)
    requires
        0 <= d < 10,
    ensures
        digits(d as nat).len() == 1,
        digits(d as nat)[0] as int == '0' as int + d,
        n > 0 ==> digits((10 * n + d) as nat) == digits(n).push(digits(d as nat)[0]),
        n > 0 ==> digits(n)[0] != '0',
    decreases n,
{
    if n > 0 {
        assert((10 * n + d) / 10 == n && (10 * n + d) % 10 == d);
        if n >= 10 {
            law_digits_are_decimal(n / 10, (n % 10) as int);
            lemma_digits(n / 10);
            assert(digits(n)[0] == digits(n / 10)[0]);
        }
    }
}

/// One or more characters from `0` to `9`.
pub open spec fn is_row(s: Seq<char>) -> bool {
    s.len() > 0 && forall|i: int| 0 <= i < s.len() ==> '0' <= #[trigger] s[i] <= '9'
}

/// `s` without a plus sign before it.
pub open spec fn without_plus(s: Seq<char>) -> Seq<char> {
    if s.len() > 0 && s[0] == '+' {
        s.skip(1)
    } else {
        s
    }
}

/// Exactly the rows of digits, behind a plus sign or none, stand for natural
/// numbers: one digit for itself, and one more digit for ten times as much and
/// itself. A plus sign and zeros before them change nothing.
pub proof fn law_natural_is_decimal(s: Seq<char>, c: char)
    ensures
        natural(s) is Some <==> is_row(without_plus(s)),
        '0' <= c <= '9' ==> natural(seq![c]) == Some((c as int - '0' as int) as nat),
        natural(s) is Some && '0' <= c <= '9' ==> natural(s.push(c)) == Some(
            (10 * natural(s)->0 + (c as int - '0' as int)) as nat,
        ),
        natural(s) is Some && s[0] != '+' ==> natural(seq!['+'] + s) == natural(s) && natural(
            seq!['0'] + s,
        ) == natural(s),
{
    let u = without_plus(s);
    if is_row(u) {
        assert forall|i: int| 0 <= i < u.len() implies is_digit(#[trigger] u[i]) by {}
    }
    if natural(s) is Some {
        assert forall|i: int| 0 <= i < u.len() implies '0' <= #[trigger] u[i] <= '9' by {
            assert(is_digit(u[i]));
        }
    }
    assert(seq![c].drop_last() =~= Seq::empty());
    assert(value_of(seq![c].drop_last()) == 0);
    if '0' <= c <= '9' {
        assert(all_digits(seq![c]));
        assert(value_of(seq![c]) == c as int - 48);
    }
    if natural(s) is Some {
        let t = if s[0] == '+' {
            s.skip(1)
        } else {
            s
        };
        if '0' <= c <= '9' {
            assert(t.push(c).drop_last() =~= t);
            if s[0] == '+' {
                assert(s.push(c).skip(1) =~= t.push(c));
            }
            assert forall|i: int| 0 <= i < t.push(c).len() implies is_digit(
                #[trigger] t.push(c)[i],
            ) by {
                if i < t.len() {
                    assert(is_digit(t[i]));
                }
            }
        }
        if s[0] != '+' {
            assert((seq!['+'] + s).skip(1) =~= s);
            lemma_zero_before(s);
            let z = seq!['0'] + s;
            assert forall|i: int| 0 <= i < z.len() implies is_digit(#[trigger] z[i]) by {
                if i > 0 {
                    assert(is_digit(s[i - 1]));
                }
            }
        }
    }
}

proof fn lemma_zero_before(s: Seq<char>)
    ensures
        value_of(seq!['0'] + s) == value_of(s),
    decreases s.len(),
{
    let z = seq!['0'] + s;
    if s.len() == 0 {
        assert(z.drop_last() =~= Seq::empty());
        assert(value_of(z.drop_last()) == 0);
    } else {
        assert(z.drop_last() =~= seq!['0'] + s.drop_last());
        lemma_zero_before(s.drop_last());
    }
}

/// The text of a number is read as that number where the number is not too large,
/// and else as none.
pub proof fn law_numbers_are_bounded(n: nat, max: int, k: int)
    ensures
        n <= max ==> natural_up_to(digits(n), max) == Some(n as int),
        n > max ==> natural_up_to(digits(n), max) is None,
        i32::MIN <= k <= i32::MAX ==> integer_i32(decimal(k)) == Some(k),
        !(i32::MIN <= k <= i32::MAX) ==> integer_i32(decimal(k)) is None,
{
    law_natural_round_trip(n);
    law_integer_round_trip(k);
}

/// What a text is read as does not depend on the limit, as long as it keeps it.
pub proof fn law_reading_is_bounded_reading(s: Seq<char>, max: int)
    ensures
        natural_up_to(s, max) is Some <==> natural(s) is Some && natural(s)->0 <= max,
        natural_up_to(s, max) matches Some(n) ==> natural(s) == Some(n as nat),
        integer_i32(s) is Some <==> integer(s) is Some && i32::MIN <= integer(s)->0 <= i32::MAX,
        integer_i32(s) matches Some(n) ==> integer(s) == Some(n),
{
}

/// A minus sign before the text of a natural number makes it negative; behind it
/// no other sign may stand.
pub proof fn law_minus_negates(s: Seq<char>)
    ensures
        s.len() > 0 && s[0] != '+' && s[0] != '-' ==> integer(seq!['-'] + s) == match natural(s) {
            Some(n) => Some(-(n as int)),
            None => None,
        },
        s.len() > 0 && (s[0] == '+' || s[0] == '-') ==> integer(seq!['-'] + s) is None,
        natural(s) matches Some(n) ==> integer(s) == Some(n as int),
{
    assert((seq!['-'] + s).skip(1) =~= s);
    if s.len() > 0 && (s[0] == '+' || s[0] == '-') {
        assert(!is_digit(s[0]));
    }
    if natural(s) is Some && s[0] == '-' {
        assert(!is_digit(s[0]));
    }
}

/// Reading the decimal text of an integer gives the integer back.
pub proof fn law_integer_round_trip(n: int)
    ensures
        integer(decimal(n)) == Some(n),
{
    if n < 0 {
        let d = digits((-n) as nat);
        lemma_digits((-n) as nat);
        assert(decimal(n).skip(1) =~= d);
    } else {
        law_natural_round_trip(n as nat);
        lemma_digits(n as nat);
        assert(is_digit(digits(n as nat)[0]));
    }
}

// ------------------------------------------------------------------ functions
/// The digit `d` as text.
fn digit_text(d: u64) -> (r: &'static str)
    requires
        d < 10,
    ensures
        r@ == seq![digit_char(d as int)],
{
    proof {
        reveal_strlit("0");
        reveal_strlit("1");
        reveal_strlit("2");
        reveal_strlit("3");
        reveal_strlit("4");
        reveal_strlit("5");
        reveal_strlit("6");
        reveal_strlit("7");
        reveal_strlit("8");
        reveal_strlit("9");
    }
    let r = if d == 0 {
        "0"
    } else if d == 1 {
        "1"
    } else if d == 2 {
        "2"
    } else if d == 3 {
        "3"
    } else if d == 4 {
        "4"
    } else if d == 5 {
        "5"
    } else if d == 6 {
        "6"
    } else if d == 7 {
        "7"
    } else if d == 8 {
        "8"
    } else {
        "9"
    };
    assert(r@ =~= seq![digit_char(d as int)]);
    r
}

/// `n` in decimal.
pub fn u64_text(n: u64) -> (r: String)
    ensures
        r@ == digits(n as nat),
    decreases n,
{
    if n < 10 {
        digit_text(n).to_string()
    } else {
        let mut out = u64_text(n / 10);
        let last = digit_text(n % 10);
        out.append(last);
        assert(out@ =~= digits(n as nat));
        out
    }
}

/// `n` in decimal.
pub fn i32_text(n: i32) -> (r: String)
    ensures
        r@ == decimal(n as int),
{
    if n < 0 {
        let mut out = "-".to_string();
        let rest = u64_text((-(n as i64)) as u64);
        out.append(rest.as_str());
        proof {
            reveal_strlit("-");
            assert("-"@ =~= seq!['-']);
        }
        out
    } else {
        u64_text(n as u64)
    }
}

/// Digits from `from` on keep a number at least as large.
proof fn lemma_value_grows(s: Seq<char>, k: int)
    requires
        0 <= k <= s.len(),
        all_digits(s),
    ensures
        value_of(s.take(k)) <= value_of(s),
    decreases s.len() - k,
{
    if k < s.len() {
        lemma_value_grows(s, k + 1);
        assert(s.take(k + 1).drop_last() =~= s.take(k));
        assert(is_digit(s[k]));
    } else {
        assert(s.take(k) =~= s);
    }
}

/// The number that the digits of `v` from `from` on stand for, where it is at
/// most `max`.
fn read_plain(v: &Vec<char>, from: usize, max: u64) -> (r: Option<u64>)
    requires
        from <= v.len(),
    ensures
        match r {
            Some(n) => plain(v@.skip(from as int)) == Some(n as nat) && n <= max,
            None => plain(v@.skip(from as int)) is None || plain(v@.skip(from as int))->0 > max,
        },
{
    let ghost s = v@.skip(from as int);
    if from == v.len() {
        return None;
    }
    let mut i: usize = from;
    let mut n: u64 = 0;
    assert(s.take(0) =~= Seq::<char>::empty());
    while i < v.len()
        invariant
            from <= i <= v.len(),
            from < v.len(),
            s == v@.skip(from as int),
            n == value_of(s.take(i - from)),
            n <= max,
            forall|j: int| 0 <= j < i - from ==> is_digit(#[trigger] s[j]),
        decreases v.len() - i,
    {
        let c = v[i];
        assert(s[i - from] == c);
        if !('0' <= c && c <= '9') {
            return None;
        }
        let d: u64 = (c as u32 - 48) as u64;
        let wide: u128 = (n as u128) * 10 + (d as u128);
        assert(s.take(i - from + 1).drop_last() =~= s.take(i - from));
        assert(wide == value_of(s.take(i - from + 1)));
        if wide > max as u128 {
            proof {
                if all_digits(s) {
                    lemma_value_grows(s, i - from + 1);
                }
            }
            return None;
        }
        n = wide as u64;
        i += 1;
    }
    assert(s.take(i - from) =~= s);
    Some(n)
}

/// The natural number that `s` stands for, where it is at most `max`.
pub fn parse_up_to(s: &str, max: u64) -> (r: Option<u64>)
    ensures
        match r {
            Some(n) => natural_up_to(s@, max as int) == Some(n as int),
            None => natural_up_to(s@, max as int) is None,
        },
{
    let v = chars_of(s);
    assert(s@.skip(0) =~= s@);
    if v.len() > 0 && v[0] == '+' {
        read_plain(&v, 1, max)
    } else {
        read_plain(&v, 0, max)
    }
}

/// The `u64` that `s` stands for.
pub fn parse_u64(s: &str) -> (r: Option<u64>)
    ensures
        match r {
            Some(n) => natural_up_to(s@, u64::MAX as int) == Some(n as int),
            None => natural_up_to(s@, u64::MAX as int) is None,
        },
{
    parse_up_to(s, u64::MAX)
}

/// The `usize` that `s` stands for.
pub fn parse_usize(s: &str) -> (r: Option<usize>)
    ensures
        match r {
            Some(n) => natural_up_to(s@, usize::MAX as int) == Some(n as int),
            None => natural_up_to(s@, usize::MAX as int) is None,
        },
{
    match parse_up_to(s, usize::MAX as u64) {
        Some(n) => Some(n as usize),
        None => None,
    }
}

/// The `u16` that `s` stands for.
pub fn parse_u16(s: &str) -> (r: Option<u16>)
    ensures
        match r {
            Some(n) => natural_up_to(s@, u16::MAX as int) == Some(n as int),
            None => natural_up_to(s@, u16::MAX as int) is None,
        },
{
    match parse_up_to(s, u16::MAX as u64) {
        Some(n) => Some(n as u16),
        None => None,
    }
}

/// The `i32` that `s` stands for.
pub fn parse_i32(s: &str) -> (r: Option<i32>)
    ensures
        match r {
            Some(n) => integer_i32(s@) == Some(n as int),
            None => integer_i32(s@) is None,
        },
{
    let v = chars_of(s);
    assert(s@.skip(0) =~= s@);
    if v.len() > 0 && v[0] == '-' {
        match read_plain(&v, 1, 0x8000_0000) {
            Some(n) => Some((-(n as i64)) as i32),
            None => None,
        }
    } else if v.len() > 0 && v[0] == '+' {
        match read_plain(&v, 1, 0x7fff_ffff) {
            Some(n) => Some(n as i32),
            None => None,
        }
    } else {
        match read_plain(&v, 0, 0x7fff_ffff) {
            Some(n) => Some(n as i32),
            None => None,
        }
    }
}

} // verus!
