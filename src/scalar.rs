use vstd::prelude::*;

use crate::value::{DateTime, Time};

verus! {

pub open spec fn is_digit(c: char) -> bool {
    '0' <= c <= '9'
}

pub open spec fn dig(c: char) -> int {
    c as int - '0' as int
}

/// `s[i..i + n]` lies inside `s` and holds only ASCII digits.
pub open spec fn digits_at(s: Seq<char>, i: int, n: int) -> bool {
    &&& 0 <= i
    &&& 0 <= n
    &&& i + n <= s.len()
    &&& forall|k: int| i <= k < i + n ==> is_digit(#[trigger] s[k])
}

/// The number that the digits `s[i..i + n]` spell.
pub open spec fn num_at(s: Seq<char>, i: int, n: int) -> int
    decreases n,
{
    if n <= 0 {
        0
    } else {
        num_at(s, i, n - 1) * 10 + dig(s[i + n - 1])
    }
}

/// The length of the run of digits that starts at `i`.
pub open spec fn digit_run(s: Seq<char>, i: int) -> int
    decreases s.len() - i,
{
    if 0 <= i < s.len() && is_digit(s[i]) {
        1 + digit_run(s, i + 1)
    } else {
        0
    }
}

pub open spec fn pow10(n: nat) -> int
    decreases n,
{
    if n == 0 {
        1
    } else {
        10 * pow10((n - 1) as nat)
    }
}

// ---- integers ----
/// Digits with single underscores between them.
pub open spec fn int_body(b: Seq<char>) -> bool {
    &&& b.len() > 0
    &&& is_digit(b[0])
    &&& is_digit(b.last())
    &&& forall|k: int|
        0 <= k < b.len() ==> is_digit(#[trigger] b[k]) || (b[k] == '_' && k + 1 < b.len()
            && is_digit(b[k + 1]))
}

/// The number that a digit run spells, underscores elided.
pub open spec fn digits_value(b: Seq<char>) -> int
    decreases b.len(),
{
    if b.len() == 0 {
        0
    } else if b.last() == '_' {
        digits_value(b.drop_last())
    } else {
        digits_value(b.drop_last()) * 10 + dig(b.last())
    }
}

pub open spec fn has_sign(s: Seq<char>) -> bool {
    s.len() > 0 && (s[0] == '+' || s[0] == '-')
}

pub open spec fn unsigned_part(s: Seq<char>) -> Seq<char> {
    if has_sign(s) {
        s.drop_first()
    } else {
        s
    }
}

/// An optional sign, then digits with single underscores between them.
pub open spec fn int_shape(s: Seq<char>) -> bool {
    int_body(unsigned_part(s))
}

pub open spec fn int_value(s: Seq<char>) -> int {
    if has_sign(s) && s[0] == '-' {
        -digits_value(unsigned_part(s))
    } else {
        digits_value(unsigned_part(s))
    }
}

// ---- floats ----
pub open spec fn exponent_ok(s: Seq<char>, j: int) -> bool {
    ||| j == s.len()
    ||| {
        &&& j < s.len()
        &&& (s[j] == 'e' || s[j] == 'E')
        &&& {
            let k = if j + 1 < s.len() && (s[j + 1] == '+' || s[j + 1] == '-') {
                j + 2
            } else {
                j + 1
            };
            digit_run(s, k) > 0 && k + digit_run(s, k) == s.len()
        }
    }
}

/// An optional sign, digits, a point, digits, and an optional exponent.
pub open spec fn float_shape(s: Seq<char>) -> bool {
    let i = if has_sign(s) { 1int } else { 0int };
    let a = digit_run(s, i);
    let p = i + a;
    let b = digit_run(s, p + 1);
    &&& a > 0
    &&& p < s.len()
    &&& s[p] == '.'
    &&& b > 0
    &&& exponent_ok(s, p + 1 + b)
}

// ---- times and dates ----
/// `HH:MM:SS` starting at `i`.
pub open spec fn hms_at(s: Seq<char>, i: int) -> bool {
    &&& digits_at(s, i, 2)
    &&& i + 8 <= s.len()
    &&& s[i + 2] == ':'
    &&& digits_at(s, i + 3, 2)
    &&& s[i + 5] == ':'
    &&& digits_at(s, i + 6, 2)
}

pub open spec fn has_fraction(s: Seq<char>, i: int) -> bool {
    let n = s.len();
    i + 8 < n && s[i + 8] == '.'
}

/// `HH:MM:SS` with an optional fraction of one to nine digits, at `i`.
pub open spec fn time_at(s: Seq<char>, i: int) -> bool {
    &&& hms_at(s, i)
    &&& has_fraction(s, i) ==> 1 <= digit_run(s, i + 9) <= 9
}

/// Where the time that starts at `i` ends.
pub open spec fn time_end(s: Seq<char>, i: int) -> int {
    if has_fraction(s, i) {
        i + 9 + digit_run(s, i + 9)
    } else {
        i + 8
    }
}

pub open spec fn nanos_at(s: Seq<char>, i: int) -> int {
    if has_fraction(s, i) {
        let n = digit_run(s, i + 9);
        num_at(s, i + 9, n) * pow10((9 - n) as nat)
    } else {
        0
    }
}

pub open spec fn time_spec(s: Seq<char>, i: int) -> Time {
    Time {
        hour: num_at(s, i, 2) as u32,
        minute: num_at(s, i + 3, 2) as u32,
        second: num_at(s, i + 6, 2) as u32,
        nanosecond: nanos_at(s, i) as u32,
    }
}

pub open spec fn time_in_range(s: Seq<char>, i: int) -> bool {
    num_at(s, i, 2) < 24 && num_at(s, i + 3, 2) < 60 && num_at(s, i + 6, 2) < 60
}

/// A time of day alone: `HH:MM:SS[.fff]`.
pub open spec fn time_shape(s: Seq<char>) -> bool {
    time_at(s, 0) && time_end(s, 0) == s.len()
}

/// `YYYY-MM-DD` at the start.
pub open spec fn date_at(s: Seq<char>) -> bool {
    &&& s.len() >= 10
    &&& digits_at(s, 0, 4)
    &&& s[4] == '-'
    &&& digits_at(s, 5, 2)
    &&& s[7] == '-'
    &&& digits_at(s, 8, 2)
}

pub open spec fn has_time(s: Seq<char>) -> bool {
    s.len() > 10 && (s[10] == 'T' || s[10] == 't')
}

/// What follows the time: nothing, `Z`, or `+HH:MM` / `-HH:MM`.
pub open spec fn offset_ok(s: Seq<char>, e: int) -> bool {
    ||| e == s.len()
    ||| e + 1 == s.len() && (s[e] == 'Z' || s[e] == 'z')
    ||| {
        &&& e + 6 == s.len()
        &&& (s[e] == '+' || s[e] == '-')
        &&& digits_at(s, e + 1, 2)
        &&& s[e + 3] == ':'
        &&& digits_at(s, e + 4, 2)
    }
}

pub open spec fn is_numeric_offset(s: Seq<char>, e: int) -> bool {
    e + 6 == s.len() && (s[e] == '+' || s[e] == '-')
}

/// `YYYY-MM-DD`, optionally followed by `THH:MM:SS[.fff]` and an offset.
pub open spec fn datetime_shape(s: Seq<char>) -> bool {
    &&& date_at(s)
    &&& s.len() == 10 || (has_time(s) && time_at(s, 11) && offset_ok(s, time_end(s, 11)))
}

pub open spec fn offset_spec(s: Seq<char>) -> int {
    if has_time(s) && is_numeric_offset(s, time_end(s, 11)) {
        let e = time_end(s, 11);
        let m = num_at(s, e + 1, 2) * 60 + num_at(s, e + 4, 2);
        if s[e] == '-' {
            -m
        } else {
            m
        }
    } else {
        0
    }
}

pub open spec fn is_leap_year(y: int) -> bool {
    (y % 4 == 0 && y % 100 != 0) || y % 400 == 0
}

pub open spec fn days_in_month(y: int, m: int) -> int {
    if m == 2 {
        if is_leap_year(y) {
            29
        } else {
            28
        }
    } else if m == 4 || m == 6 || m == 9 || m == 11 {
        30
    } else {
        31
    }
}

pub open spec fn datetime_in_range(s: Seq<char>) -> bool {
    let y = num_at(s, 0, 4);
    let m = num_at(s, 5, 2);
    let d = num_at(s, 8, 2);
    &&& 1 <= m <= 12
    &&& 1 <= d <= days_in_month(y, m)
    &&& has_time(s) ==> time_in_range(s, 11)
    &&& (has_time(s) && is_numeric_offset(s, time_end(s, 11))) ==> {
        let e = time_end(s, 11);
        num_at(s, e + 1, 2) < 24 && num_at(s, e + 4, 2) < 60
    }
}

pub open spec fn datetime_spec(s: Seq<char>) -> DateTime {
    let t = if has_time(s) {
        time_spec(s, 11)
    } else {
        Time { hour: 0, minute: 0, second: 0, nanosecond: 0 }
    };
    DateTime {
        year: num_at(s, 0, 4) as u32,
        month: num_at(s, 5, 2) as u32,
        day: num_at(s, 8, 2) as u32,
        hour: t.hour,
        minute: t.minute,
        second: t.second,
        nanosecond: t.nanosecond,
        offset_minutes: offset_spec(s) as i32,
    }
}


/// What a bare literal is.
#[derive(Debug, Clone, Copy, PartialEq, Eq, Structural)]
pub enum Scalar {
    Bool(bool),
    Int(i64),
    /// A float; its text is the literal itself.
    Float,
    DateTimeLit(DateTime),
    TimeLit(Time),
}

/// Why a bare literal is rejected.
#[derive(Debug, Clone, Copy, PartialEq, Eq, Structural)]
pub enum ScalarError {
    /// It matches no scalar shape, or is an integer outside the 64-bit range.
    Number,
    /// It has the shape of a date or time with a field out of range.
    DateTime,
}

/// The classification of a bare literal, tried in this order: boolean,
/// date-time (a bare date included), time of day, integer, float.
pub open spec fn classify_spec(s: Seq<char>) -> Result<Scalar, ScalarError> {
    if s == seq!['t', 'r', 'u', 'e'] {
        Ok(Scalar::Bool(true))
    } else if s == seq!['f', 'a', 'l', 's', 'e'] {
        Ok(Scalar::Bool(false))
    } else if datetime_shape(s) {
        if datetime_in_range(s) {
            Ok(Scalar::DateTimeLit(datetime_spec(s)))
        } else {
            Err(ScalarError::DateTime)
        }
    } else if time_shape(s) {
        if time_in_range(s, 0) {
            Ok(Scalar::TimeLit(time_spec(s, 0)))
        } else {
            Err(ScalarError::DateTime)
        }
    } else if int_shape(s) {
        if i64::MIN <= int_value(s) <= i64::MAX {
            Ok(Scalar::Int(int_value(s) as i64))
        } else {
            Err(ScalarError::Number)
        }
    } else if float_shape(s) {
        Ok(Scalar::Float)
    } else {
        Err(ScalarError::Number)
    }
}

fn digit(c: char) -> (r: bool)
    ensures
        r == is_digit(c),
{
    '0' <= c && c <= '9'
}

proof fn lemma_pow10_le(a: nat, b: nat)
    requires
        a <= b,
    ensures
        1 <= pow10(a) <= pow10(b),
    decreases b,
{
    if b > 0 {
        if a == b {
            lemma_pow10_le((a - 1) as nat, (b - 1) as nat);
        } else {
            lemma_pow10_le(a, (b - 1) as nat);
        }
    }
}

proof fn lemma_num_at_bound(s: Seq<char>, i: int, n: int)
    requires
        digits_at(s, i, n),
    ensures
        0 <= num_at(s, i, n) < pow10(n as nat),
    decreases n,
{
    if n > 0 {
        assert(is_digit(s[i + n - 1]));
        assert(digits_at(s, i, n - 1));
        lemma_num_at_bound(s, i, n - 1);
    }
}

fn digit_run_exec(s: &Vec<char>, i: usize) -> (r: usize)
    requires
        i <= s@.len(),
    ensures
        r == digit_run(s@, i as int),
        i + r <= s@.len(),
        digits_at(s@, i as int, r as int),
{
    let mut j = i;
    while j < s.len() && digit(s[j])
        invariant
            i <= j <= s@.len(),
            digit_run(s@, i as int) == (j - i) + digit_run(s@, j as int),
            digits_at(s@, i as int, j - i),
        decreases s@.len() - j,
    {
        j = j + 1;
    }
    j - i
}

fn digits_at_exec(s: &Vec<char>, i: usize, n: usize) -> (r: bool)
    ensures
        r == digits_at(s@, i as int, n as int),
{
    if n > s.len() || i > s.len() - n {
        return false;
    }
    let end = i + n;
    let mut k = i;
    while k < end
        invariant
            end == i + n,
            i <= k <= i + n <= s@.len(),
            forall|j: int| i <= j < k ==> is_digit(#[trigger] s@[j]),
        decreases end - k,
    {
        if !digit(s[k]) {
            return false;
        }
        k = k + 1;
    }
    true
}

fn num_at_exec(s: &Vec<char>, i: usize, n: usize) -> (r: u32)
    requires
        digits_at(s@, i as int, n as int),
        n <= 9,
    ensures
        r == num_at(s@, i as int, n as int),
        r < pow10(n as nat),
{
    let mut acc: u32 = 0;
    let mut k: usize = 0;
    let len = s.len();
    proof {
        reveal_with_fuel(pow10, 10);
    }
    while k < n
        invariant
            len == s@.len(),
            k <= n <= 9,
            digits_at(s@, i as int, n as int),
            i + n <= s@.len(),
            acc == num_at(s@, i as int, k as int),
            acc < pow10(k as nat),
            pow10(9) == 1000000000,
        decreases n - k,
    {
        proof {
            assert(i + k < s@.len());
            assert(is_digit(s@[i + k]));
            lemma_pow10_le((k + 1) as nat, 9);
        }
        let c = s[i + k];
        acc = acc * 10 + (c as u32 - '0' as u32);
        k = k + 1;
    }
    acc
}

fn sign_len(s: &Vec<char>) -> (r: usize)
    ensures
        r == if has_sign(s@) { 1int } else { 0int },
{
    if s.len() > 0 && (s[0] == '+' || s[0] == '-') {
        1
    } else {
        0
    }
}

fn int_shape_exec(s: &Vec<char>) -> (r: bool)
    ensures
        r == int_shape(s@),
{
    let st = sign_len(s);
    let n = s.len();
    let ghost b = unsigned_part(s@);
    proof {
        assert(b =~= s@.subrange(st as int, n as int));
    }
    if st >= n {
        return false;
    }
    if !digit(s[st]) || !digit(s[n - 1]) {
        assert(b[0] == s@[st as int] && b.last() == s@[n - 1]);
        return false;
    }
    let mut k = st;
    while k < n
        invariant
            st <= k <= n,
            n == s@.len(),
            b == s@.subrange(st as int, n as int),
            b == unsigned_part(s@),
            forall|j: int|
                0 <= j < k - st ==> is_digit(#[trigger] b[j]) || (b[j] == '_' && j + 1 < b.len()
                    && is_digit(b[j + 1])),
        decreases n - k,
    {
        if digit(s[k]) {
        } else if s[k] == '_' && k + 1 < n && digit(s[k + 1]) {
        } else {
            assert(!(is_digit(b[k - st]) || (b[k - st] == '_' && k - st + 1 < b.len() && is_digit(
                b[k - st + 1]))));
            return false;
        }
        k = k + 1;
    }
    true
}

proof fn lemma_digits_value_nonneg(s: Seq<char>, st: int, m: int)
    requires
        0 <= st <= m <= s.len(),
        forall|j: int| st <= j < m ==> is_digit(#[trigger] s[j]) || s[j] == '_',
    ensures
        0 <= digits_value(s.subrange(st, m)),
    decreases m - st,
{
    if m > st {
        lemma_digits_value_nonneg(s, st, m - 1);
        assert(s.subrange(st, m).drop_last() =~= s.subrange(st, m - 1));
        assert(is_digit(s[m - 1]) || s[m - 1] == '_');
    }
}

proof fn lemma_digits_value_grows(s: Seq<char>, st: int, k: int, m: int)
    requires
        0 <= st <= k <= m <= s.len(),
        forall|j: int| st <= j < m ==> is_digit(#[trigger] s[j]) || s[j] == '_',
    ensures
        0 <= digits_value(s.subrange(st, k)) <= digits_value(s.subrange(st, m)),
    decreases m - k,
{
    if m > k {
        lemma_digits_value_grows(s, st, k, m - 1);
        assert(s.subrange(st, m).drop_last() =~= s.subrange(st, m - 1));
        assert(is_digit(s[m - 1]) || s[m - 1] == '_');
        lemma_digits_value_nonneg(s, st, m - 1);
    } else {
        lemma_digits_value_nonneg(s, st, k);
    }
}


/// The value of an integer literal, or `None` where it leaves the 64-bit range.
fn int_value_exec(s: &Vec<char>) -> (r: Option<i64>)
    requires
        int_shape(s@),
    ensures
        r == if i64::MIN <= int_value(s@) <= i64::MAX {
            Some(int_value(s@) as i64)
        } else {
            None
        },
{
    let st = sign_len(s);
    let n = s.len();
    let neg = st == 1 && s[0] == '-';
    let ghost b = unsigned_part(s@);
    proof {
        assert(b =~= s@.subrange(st as int, n as int));
        assert forall|j: int| st <= j < n implies is_digit(#[trigger] s@[j]) || s@[j] == '_' by {
            assert(s@[j] == b[j - st]);
        }
    }
    let mut acc: u64 = 0;
    let mut k = st;
    let mut too_big = false;
    while k < n
        invariant
            st <= k <= n,
            n == s@.len(),
            b == s@.subrange(st as int, n as int),
            forall|j: int| st <= j < n ==> is_digit(#[trigger] s@[j]) || s@[j] == '_',
            !too_big ==> acc == digits_value(s@.subrange(st as int, k as int)),
            !too_big ==> acc <= 9223372036854775808,
            too_big ==> digits_value(s@.subrange(st as int, k as int)) > 9223372036854775808,
        decreases n - k,
    {
        proof {
            assert(s@.subrange(st as int, k + 1).drop_last() =~= s@.subrange(st as int, k as int));
            lemma_digits_value_grows(s@, st as int, k as int, k + 1);
        }
        let c = s[k];
        if !too_big && c != '_' {
            let d = (c as u32 - '0' as u32) as u64;
            if acc > 922337203685477580 {
                too_big = true;
            } else {
                acc = acc * 10 + d;
                if acc > 9223372036854775808 {
                    too_big = true;
                }
            }
        }
        k = k + 1;
    }
    proof {
        assert(s@.subrange(st as int, n as int) =~= b);
    }
    if too_big {
        None
    } else if neg {
        if acc == 9223372036854775808 {
            Some(i64::MIN)
        } else {
            Some(-(acc as i64))
        }
    } else if acc <= 9223372036854775807 {
        Some(acc as i64)
    } else {
        None
    }
}


fn float_shape_exec(s: &Vec<char>) -> (r: bool)
    ensures
        r == float_shape(s@),
{
    let n = s.len();
    let i = sign_len(s);
    if i > n {
        return false;
    }
    let a = digit_run_exec(s, i);
    let p = i + a;
    if a == 0 || p >= n || s[p] != '.' {
        return false;
    }
    let b = digit_run_exec(s, p + 1);
    if b == 0 {
        return false;
    }
    let j = p + 1 + b;
    if j == n {
        return true;
    }
    if s[j] != 'e' && s[j] != 'E' {
        return false;
    }
    let k = if j + 1 < n && (s[j + 1] == '+' || s[j + 1] == '-') {
        j + 2
    } else {
        j + 1
    };
    let c = digit_run_exec(s, k);
    c > 0 && k + c == n
}

fn hms_at_exec(s: &Vec<char>, i: usize) -> (r: bool)
    requires
        i <= s@.len(),
    ensures
        r == hms_at(s@, i as int),
{
    if s.len() - i < 8 {
        return false;
    }
    digits_at_exec(s, i, 2) && s[i + 2] == ':' && digits_at_exec(s, i + 3, 2) && s[i + 5] == ':'
        && digits_at_exec(s, i + 6, 2)
}

fn has_fraction_exec(s: &Vec<char>, i: usize) -> (r: bool)
    requires
        i + 8 <= s@.len(),
    ensures
        r == has_fraction(s@, i as int),
{
    let n = s.len();
    i + 8 < n && s[i + 8] == '.'
}

/// Whether a time stands at `i`, and where it ends.
fn time_at_exec(s: &Vec<char>, i: usize) -> (r: (bool, usize))
    requires
        i <= s@.len(),
    ensures
        r.0 == time_at(s@, i as int),
        r.0 ==> r.1 == time_end(s@, i as int) && r.1 <= s@.len(),
{
    let n = s.len();
    if !hms_at_exec(s, i) {
        return (false, 0);
    }
    if has_fraction_exec(s, i) {
        let f = digit_run_exec(s, i + 9);
        if 1 <= f && f <= 9 {
            (true, i + 9 + f)
        } else {
            (false, 0)
        }
    } else {
        (true, i + 8)
    }
}

fn time_exec(s: &Vec<char>, i: usize) -> (r: Time)
    requires
        time_at(s@, i as int),
    ensures
        r == time_spec(s@, i as int),
{
    let n = s.len();
    let hour = num_at_exec(s, i, 2);
    let minute = num_at_exec(s, i + 3, 2);
    let second = num_at_exec(s, i + 6, 2);
    let mut nanosecond: u32 = 0;
    if has_fraction_exec(s, i) {
        let f = digit_run_exec(s, i + 9);
        let v = num_at_exec(s, i + 9, f);
        let mut k = f;
        let mut m: u32 = v;
        proof {
            reveal_with_fuel(pow10, 10);
        }
        while k < 9
            invariant
                f <= k <= 9,
                1 <= f <= 9,
                v < pow10(f as nat),
                m == v * pow10((k - f) as nat),
                m < pow10(k as nat),
                pow10(9) == 1000000000,
            decreases 9 - k,
        {
            proof {
                lemma_pow10_le((k + 1) as nat, 9);
                assert(pow10((k + 1 - f) as nat) == 10 * pow10((k - f) as nat));
                assert(m * 10 == v * pow10((k + 1 - f) as nat)) by (nonlinear_arith)
                    requires
                        m == v * pow10((k - f) as nat),
                        pow10((k + 1 - f) as nat) == 10 * pow10((k - f) as nat),
                ;
            }
            m = m * 10;
            k = k + 1;
        }
        nanosecond = m;
    }
    Time { hour, minute, second, nanosecond }
}

fn time_in_range_exec(t: &Time) -> (r: bool)
    ensures
        r == (t.hour < 24 && t.minute < 60 && t.second < 60),
{
    t.hour < 24 && t.minute < 60 && t.second < 60
}

fn date_at_exec(s: &Vec<char>) -> (r: bool)
    ensures
        r == date_at(s@),
{
    s.len() >= 10 && digits_at_exec(s, 0, 4) && s[4] == '-' && digits_at_exec(s, 5, 2) && s[7]
        == '-' && digits_at_exec(s, 8, 2)
}

fn days_in_month_exec(y: u32, m: u32) -> (r: u32)
    ensures
        r == days_in_month(y as int, m as int),
{
    if m == 2 {
        if (y % 4 == 0 && y % 100 != 0) || y % 400 == 0 {
            29
        } else {
            28
        }
    } else if m == 4 || m == 6 || m == 9 || m == 11 {
        30
    } else {
        31
    }
}


/// The date-time that `s` spells, if it has the shape of one: `None` where
/// it does not, `Some(None)` where a field is out of range.
fn datetime_exec(s: &Vec<char>) -> (r: Option<Option<DateTime>>)
    ensures
        r is None <==> !datetime_shape(s@),
        r is Some ==> (r->0 is Some <==> datetime_in_range(s@)),
        r matches Some(Some(d)) ==> d == datetime_spec(s@),
{
    let n = s.len();
    proof {
        reveal_with_fuel(pow10, 3);
    }
    if !date_at_exec(s) {
        return None;
    }
    let year = num_at_exec(s, 0, 4);
    let month = num_at_exec(s, 5, 2);
    let day = num_at_exec(s, 8, 2);
    let mut t = Time { hour: 0, minute: 0, second: 0, nanosecond: 0 };
    let mut offset: i32 = 0;
    let mut offset_in_range = true;
    if n > 10 {
        if s[10] != 'T' && s[10] != 't' {
            return None;
        }
        let (ok, e) = time_at_exec(s, 11);
        if !ok {
            return None;
        }
        proof {
            lemma_num_at_bound(s@, 11, 2);
            lemma_num_at_bound(s@, 14, 2);
            lemma_num_at_bound(s@, 17, 2);
        }
        if e == n {
        } else if e + 1 == n && (s[e] == 'Z' || s[e] == 'z') {
        } else if e + 6 == n && (s[e] == '+' || s[e] == '-') {
            if !(digits_at_exec(s, e + 1, 2) && s[e + 3] == ':' && digits_at_exec(s, e + 4, 2)) {
                return None;
            }
            let oh = num_at_exec(s, e + 1, 2);
            let om = num_at_exec(s, e + 4, 2);
            offset_in_range = oh < 24 && om < 60;
            let m = (oh * 60 + om) as i32;
            offset = if s[e] == '-' {
                -m
            } else {
                m
            };
        } else {
            return None;
        }
        t = time_exec(s, 11);
        if !time_in_range_exec(&t) || !offset_in_range {
            return Some(None);
        }
    }
    if month < 1 || month > 12 || day < 1 || day > days_in_month_exec(year, month) {
        return Some(None);
    }
    Some(
        Some(
            DateTime {
                year,
                month,
                day,
                hour: t.hour,
                minute: t.minute,
                second: t.second,
                nanosecond: t.nanosecond,
                offset_minutes: offset,
            },
        ),
    )
}

fn is_true(s: &Vec<char>) -> (r: bool)
    ensures
        r == (s@ == seq!['t', 'r', 'u', 'e']),
{
    let r = s.len() == 4 && s[0] == 't' && s[1] == 'r' && s[2] == 'u' && s[3] == 'e';
    proof {
        if r {
            assert(s@ =~= seq!['t', 'r', 'u', 'e']);
        }
    }
    r
}

fn is_false(s: &Vec<char>) -> (r: bool)
    ensures
        r == (s@ == seq!['f', 'a', 'l', 's', 'e']),
{
    let r = s.len() == 5 && s[0] == 'f' && s[1] == 'a' && s[2] == 'l' && s[3] == 's' && s[4]
        == 'e';
    proof {
        if r {
            assert(s@ =~= seq!['f', 'a', 'l', 's', 'e']);
        }
    }
    r
}

/// Classifies a bare literal: boolean, date-time, time, integer or float,
/// tried in that order.
pub fn classify(s: &Vec<char>) -> (r: Result<Scalar, ScalarError>)
    ensures
        r == classify_spec(s@),
{
    if is_true(s) {
        return Ok(Scalar::Bool(true));
    }
    if is_false(s) {
        return Ok(Scalar::Bool(false));
    }
    match datetime_exec(s) {
        Some(Some(d)) => {
            return Ok(Scalar::DateTimeLit(d));
        },
        Some(None) => {
            return Err(ScalarError::DateTime);
        },
        None => {},
    }
    let (ok, e) = time_at_exec(s, 0);
    if ok && e == s.len() {
        proof {
            reveal_with_fuel(pow10, 3);
            lemma_num_at_bound(s@, 0, 2);
            lemma_num_at_bound(s@, 3, 2);
            lemma_num_at_bound(s@, 6, 2);
        }
        let t = time_exec(s, 0);
        if time_in_range_exec(&t) {
            return Ok(Scalar::TimeLit(t));
        } else {
            return Err(ScalarError::DateTime);
        }
    }
    if int_shape_exec(s) {
        match int_value_exec(s) {
            Some(v) => {
                return Ok(Scalar::Int(v));
            },
            None => {
                return Err(ScalarError::Number);
            },
        }
    }
    if float_shape_exec(s) {
        Ok(Scalar::Float)
    } else {
        Err(ScalarError::Number)
    }
}

} // verus!
