use vstd::prelude::*;

use crate::error::TrainingError;
use crate::fixed::{VALUE_LIMIT, in_range};

verus! {

/// Decimal places that a fixed-point value keeps; further digits are dropped.
pub const FRACTION_DIGITS: usize = 6;

/// The bytes that are trimmed around a field.
pub open spec fn is_space(c: u8) -> bool {
    c == 0x20 || c == 0x09 || c == 0x0a || c == 0x0b || c == 0x0c || c == 0x0d
}

pub open spec fn is_digit(c: u8) -> bool {
    0x30 <= c <= 0x39
}

pub open spec fn pow10(n: nat) -> int
    decreases n,
{
    if n == 0 {
        1
    } else {
        10 * pow10((n - 1) as nat)
    }
}

/// The first index in `[i, hi)` that holds `c`, or `hi`.
pub open spec fn find_byte(t: Seq<u8>, i: int, hi: int, c: u8) -> int
    decreases hi - i,
{
    if i >= hi {
        hi
    } else if t[i] == c {
        i
    } else {
        find_byte(t, i + 1, hi, c)
    }
}

/// The start of `[lo, hi)` once leading spaces are skipped.
pub open spec fn trim_start(t: Seq<u8>, lo: int, hi: int) -> int
    decreases hi - lo,
{
    if lo < hi && is_space(t[lo]) {
        trim_start(t, lo + 1, hi)
    } else {
        lo
    }
}

/// The end of `[lo, hi)` once trailing spaces are dropped.
pub open spec fn trim_end(t: Seq<u8>, lo: int, hi: int) -> int
    decreases hi - lo,
{
    if lo < hi && is_space(t[hi - 1]) {
        trim_end(t, lo, hi - 1)
    } else {
        hi
    }
}

pub open spec fn all_digits(t: Seq<u8>, lo: int, hi: int) -> bool {
    forall|k: int| lo <= k < hi ==> is_digit(#[trigger] t[k])
}

/// The decimal number written by the digits in `[lo, hi)`.
pub open spec fn digits_value(t: Seq<u8>, lo: int, hi: int) -> int
    decreases hi - lo,
{
    if hi <= lo {
        0
    } else {
        digits_value(t, lo, hi - 1) * 10 + (t[hi - 1] - 0x30)
    }
}

/// The first index in `[i, hi)` that holds an exponent mark `e` or `E`, or `hi`.
pub open spec fn find_exponent(t: Seq<u8>, i: int, hi: int) -> int
    decreases hi - i,
{
    if i >= hi {
        hi
    } else if t[i] == 0x65 || t[i] == 0x45 {
        i
    } else {
        find_exponent(t, i + 1, hi)
    }
}

/// The exponent written in `[x, hi)`: nothing (0) where `x == hi`, else an
/// exponent mark, an optional sign and at least one digit.
pub open spec fn exponent_value(t: Seq<u8>, x: int, hi: int) -> Option<int> {
    if x >= hi {
        Some(0)
    } else {
        let s = x + 1;
        let neg = s < hi && t[s] == 0x2d;
        let ds = if s < hi && (t[s] == 0x2d || t[s] == 0x2b) { s + 1 } else { s };
        if ds < hi && all_digits(t, ds, hi) {
            let v = digits_value(t, ds, hi);
            Some(if neg { -v } else { v })
        } else {
            None
        }
    }
}

/// Digit `j` of the mantissa whose integer digits are `[lo, dot)` and
/// fraction digits `[frac_lo, hi)`; positions past the last digit are 0.
pub open spec fn mantissa_digit(t: Seq<u8>, lo: int, dot: int, frac_lo: int, hi: int, j: int) -> int {
    let ni = dot - lo;
    if j < ni {
        t[lo + j] - 0x30
    } else if j < ni + (hi - frac_lo) {
        t[frac_lo + j - ni] - 0x30
    } else {
        0
    }
}

/// The number written by the first `k` digits of the mantissa.
pub open spec fn mantissa_prefix(t: Seq<u8>, lo: int, dot: int, frac_lo: int, hi: int, k: nat) -> int
    decreases k,
{
    if k == 0 {
        0
    } else {
        mantissa_prefix(t, lo, dot, frac_lo, hi, (k - 1) as nat) * 10 + mantissa_digit(
            t,
            lo,
            dot,
            frac_lo,
            hi,
            k - 1,
        )
    }
}

/// The fixed-point magnitude of an unsigned decimal
/// `digits[.digits][(e|E)[+|-]digits]` in `[lo, hi)`, with at least one
/// mantissa digit: the value times `SCALE`, truncated.  Shifting the point
/// by the exponent and by the six places of `SCALE`, this is the number
/// formed by the first `k` mantissa digits, `k` being the count of integer
/// digits plus the exponent plus six.
pub open spec fn decimal_magnitude(t: Seq<u8>, lo: int, hi: int) -> Option<int> {
    let x = find_exponent(t, lo, hi);
    let dot = find_byte(t, lo, x, 0x2e);
    let frac_lo = if dot < x { dot + 1 } else { x };
    let mantissa_ok = all_digits(t, lo, dot) && all_digits(t, frac_lo, x) && (dot > lo || x > frac_lo);
    match exponent_value(t, x, hi) {
        Some(ex) => if mantissa_ok {
            let k = (dot - lo) + ex + FRACTION_DIGITS;
            Some(if k <= 0 { 0 } else { mantissa_prefix(t, lo, dot, frac_lo, x, k as nat) })
        } else {
            None
        },
        None => None,
    }
}

/// The fixed-point value of the field `[lo, hi)`: spaces around, an optional
/// sign, a decimal with an optional exponent; `None` where it is malformed or
/// out of range.
pub open spec fn parse_field(t: Seq<u8>, lo: int, hi: int) -> Option<int> {
    let s = trim_start(t, lo, hi);
    let e = trim_end(t, s, hi);
    let signed = s < e && (t[s] == 0x2d || t[s] == 0x2b);
    let body = if signed { s + 1 } else { s };
    match decimal_magnitude(t, body, e) {
        Some(v) => {
            let val = if s < e && t[s] == 0x2d { -v } else { v };
            if in_range(val) { Some(val) } else { None }
        },
        None => None,
    }
}

/// The sample on the line `[lo, hi)`, numbered `no`: its first two
/// comma-separated fields; further fields are ignored.
pub open spec fn parse_line(t: Seq<u8>, lo: int, hi: int, no: int) -> Result<(i64, i64), TrainingError> {
    let c1 = find_byte(t, lo, hi, 0x2c);
    if c1 >= hi {
        Err(TrainingError::NotEnoughValues(no as isize))
    } else {
        let c2 = find_byte(t, c1 + 1, hi, 0x2c);
        let x = parse_field(t, lo, c1);
        let y = parse_field(t, c1 + 1, c2);
        if x is Some && y is Some {
            Ok((x->0 as i64, y->0 as i64))
        } else {
            Err(TrainingError::InvalidNumber(no as isize))
        }
    }
}

pub proof fn lemma_find_byte_bounds(t: Seq<u8>, i: int, hi: int, c: u8)
    requires
        i <= hi,
    ensures
        i <= find_byte(t, i, hi, c) <= hi,
    decreases hi - i,
{
    if i < hi && t[i] != c {
        lemma_find_byte_bounds(t, i + 1, hi, c);
    }
}

#[via_fn]
proof fn parse_from_decreases(t: Seq<u8>, i: int, no: int) {
    if i < t.len() {
        lemma_find_byte_bounds(t, i, t.len() as int, 0x0a);
    }
}

/// The samples of the lines from `i` to the end of `t`, the first numbered `no`.
pub open spec fn parse_from(t: Seq<u8>, i: int, no: int) -> Result<Seq<(i64, i64)>, TrainingError>
    decreases t.len() + 1 - i via parse_from_decreases
{
    if i >= t.len() {
        Ok(seq![])
    } else {
        let e = find_byte(t, i, t.len() as int, 0x0a);
        match parse_line(t, i, e, no) {
            Err(x) => Err(x),
            Ok(p) => match parse_from(t, e + 1, no + 1) {
                Ok(s) => Ok(seq![p] + s),
                Err(x) => Err(x),
            },
        }
    }
}

/// The samples of a whole text, one per line, lines numbered from 1.
pub open spec fn parse_text(t: Seq<u8>) -> Result<Seq<(i64, i64)>, TrainingError> {
    parse_from(t, 0, 1)
}

/// Exponents beyond this magnitude need not be read exactly: the field is
/// then out of range, or zero.
pub const EXPONENT_CAP: i128 = 18_446_744_073_709_551_616;

proof fn lemma_mantissa_digit_bounds(t: Seq<u8>, lo: int, dot: int, frac_lo: int, hi: int, j: int)
    requires
        0 <= lo <= dot <= t.len(),
        0 <= frac_lo <= hi <= t.len(),
        all_digits(t, lo, dot),
        all_digits(t, frac_lo, hi),
        0 <= j,
    ensures
        0 <= mantissa_digit(t, lo, dot, frac_lo, hi, j) <= 9,
{
    let ni = dot - lo;
    if j < ni {
        assert(is_digit(t[lo + j]));
    } else if j < ni + (hi - frac_lo) {
        assert(is_digit(t[frac_lo + j - ni]));
    }
}

proof fn lemma_prefix_monotone(t: Seq<u8>, lo: int, dot: int, frac_lo: int, hi: int, j: nat, k: nat)
    requires
        0 <= lo <= dot <= t.len(),
        0 <= frac_lo <= hi <= t.len(),
        all_digits(t, lo, dot),
        all_digits(t, frac_lo, hi),
        j <= k,
    ensures
        0 <= mantissa_prefix(t, lo, dot, frac_lo, hi, j) <= mantissa_prefix(t, lo, dot, frac_lo, hi, k),
    decreases k,
{
    if k > 0 {
        lemma_mantissa_digit_bounds(t, lo, dot, frac_lo, hi, k - 1);
        if j < k {
            lemma_prefix_monotone(t, lo, dot, frac_lo, hi, j, (k - 1) as nat);
        } else {
            lemma_prefix_monotone(t, lo, dot, frac_lo, hi, (k - 1) as nat, (k - 1) as nat);
        }
    }
}

/// Past the last mantissa digit, each further position multiplies by ten.
proof fn lemma_prefix_beyond(t: Seq<u8>, lo: int, dot: int, frac_lo: int, hi: int, k: nat)
    requires
        0 <= lo <= dot <= t.len(),
        0 <= frac_lo <= hi <= t.len(),
        k >= (dot - lo) + (hi - frac_lo),
    ensures
        mantissa_prefix(t, lo, dot, frac_lo, hi, k) == mantissa_prefix(
            t,
            lo,
            dot,
            frac_lo,
            hi,
            ((dot - lo) + (hi - frac_lo)) as nat,
        ) * pow10((k - ((dot - lo) + (hi - frac_lo))) as nat),
    decreases k,
{
    let dl = (dot - lo) + (hi - frac_lo);
    if k > dl {
        lemma_prefix_beyond(t, lo, dot, frac_lo, hi, (k - 1) as nat);
        let p = mantissa_prefix(t, lo, dot, frac_lo, hi, dl as nat);
        let q = pow10((k - 1 - dl) as nat);
        assert(pow10((k - dl) as nat) == 10 * q);
        assert((p * q) * 10 == p * (10 * q)) by (nonlinear_arith);
    }
}

/// Reading `k` digits or only `ke` of them gives the same fixed-point
/// outcome: the same value, or out of range both times.
proof fn lemma_prefix_saturates(t: Seq<u8>, lo: int, dot: int, frac_lo: int, hi: int, k: int, ke: int)
    requires
        0 <= lo <= dot <= t.len(),
        0 <= frac_lo <= hi <= t.len(),
        all_digits(t, lo, dot),
        all_digits(t, frac_lo, hi),
        k == ke || (k > (dot - lo) + (hi - frac_lo) + 11 && ke == (dot - lo) + (hi - frac_lo) + 11) || (k
            <= 0 && ke <= 0),
    ensures
        ({
            let ms = if k <= 0 { 0 } else { mantissa_prefix(t, lo, dot, frac_lo, hi, k as nat) };
            let me = if ke <= 0 { 0 } else { mantissa_prefix(t, lo, dot, frac_lo, hi, ke as nat) };
            ms == me || (ms > VALUE_LIMIT && me > VALUE_LIMIT)
        }),
{
    let dl = (dot - lo) + (hi - frac_lo);
    if k != ke && k > 0 {
        lemma_prefix_beyond(t, lo, dot, frac_lo, hi, k as nat);
        lemma_prefix_beyond(t, lo, dot, frac_lo, hi, ke as nat);
        lemma_prefix_monotone(t, lo, dot, frac_lo, hi, dl as nat, dl as nat);
        lemma_prefix_monotone(t, lo, dot, frac_lo, hi, ke as nat, k as nat);
        reveal_with_fuel(pow10, 12);
        let p = mantissa_prefix(t, lo, dot, frac_lo, hi, dl as nat);
        assert(pow10(11) == 100_000_000_000);
        assert(p * 0 == 0 && (p >= 1 ==> p * 100_000_000_000 >= 100_000_000_000)) by (nonlinear_arith);
        if p == 0 {
            assert(p * pow10((k - dl) as nat) == 0) by (nonlinear_arith)
                requires
                    p == 0,
            ;
        }
    }
}

fn is_space_byte(c: u8) -> (r: bool)
    ensures
        r == is_space(c),
{
    c == 0x20 || c == 0x09 || c == 0x0a || c == 0x0b || c == 0x0c || c == 0x0d
}

fn find_byte_exec(t: &Vec<u8>, lo: usize, hi: usize, c: u8) -> (r: usize)
    requires
        lo <= hi <= t@.len(),
    ensures
        r == find_byte(t@, lo as int, hi as int, c),
        lo <= r <= hi,
{
    let mut k = lo;
    while k < hi
        invariant
            lo <= k <= hi <= t@.len(),
            find_byte(t@, lo as int, hi as int, c) == find_byte(t@, k as int, hi as int, c),
        decreases hi - k,
    {
        if t[k] == c {
            return k;
        }
        k = k + 1;
    }
    k
}

fn trim_start_exec(t: &Vec<u8>, lo: usize, hi: usize) -> (r: usize)
    requires
        lo <= hi <= t@.len(),
    ensures
        r == trim_start(t@, lo as int, hi as int),
        lo <= r <= hi,
{
    let mut k = lo;
    while k < hi
        invariant
            lo <= k <= hi <= t@.len(),
            trim_start(t@, lo as int, hi as int) == trim_start(t@, k as int, hi as int),
        decreases hi - k,
    {
        if !is_space_byte(t[k]) {
            return k;
        }
        k = k + 1;
    }
    k
}

fn trim_end_exec(t: &Vec<u8>, lo: usize, hi: usize) -> (r: usize)
    requires
        lo <= hi <= t@.len(),
    ensures
        r == trim_end(t@, lo as int, hi as int),
        lo <= r <= hi,
{
    let mut k = hi;
    while k > lo
        invariant
            lo <= k <= hi <= t@.len(),
            trim_end(t@, lo as int, hi as int) == trim_end(t@, lo as int, k as int),
        decreases k - lo,
    {
        if !is_space_byte(t[k - 1]) {
            return k;
        }
        k = k - 1;
    }
    k
}

fn find_exponent_exec(t: &Vec<u8>, lo: usize, hi: usize) -> (r: usize)
    requires
        lo <= hi <= t@.len(),
    ensures
        r == find_exponent(t@, lo as int, hi as int),
        lo <= r <= hi,
{
    let mut k = lo;
    while k < hi
        invariant
            lo <= k <= hi <= t@.len(),
            find_exponent(t@, lo as int, hi as int) == find_exponent(t@, k as int, hi as int),
        decreases hi - k,
    {
        if t[k] == 0x65 || t[k] == 0x45 {
            return k;
        }
        k = k + 1;
    }
    k
}

fn all_digits_exec(t: &Vec<u8>, lo: usize, hi: usize) -> (r: bool)
    requires
        lo <= hi <= t@.len(),
    ensures
        r == all_digits(t@, lo as int, hi as int),
{
    let mut k = lo;
    while k < hi
        invariant
            lo <= k <= hi <= t@.len(),
            all_digits(t@, lo as int, k as int),
        decreases hi - k,
    {
        if t[k] < 0x30 || t[k] > 0x39 {
            return false;
        }
        k = k + 1;
    }
    true
}

/// The digits in `[lo, hi)` as a number, or `EXPONENT_CAP + 1` where that number exceeds the cap.
fn digits_clamped(t: &Vec<u8>, lo: usize, hi: usize) -> (r: i128)
    requires
        lo <= hi <= t@.len(),
        all_digits(t@, lo as int, hi as int),
    ensures
        digits_value(t@, lo as int, hi as int) <= EXPONENT_CAP ==> r == digits_value(t@, lo as int, hi as int),
        digits_value(t@, lo as int, hi as int) > EXPONENT_CAP ==> r == EXPONENT_CAP + 1,
        0 <= digits_value(t@, lo as int, hi as int),
{
    let mut v: i128 = 0;
    let mut k = lo;
    while k < hi
        invariant
            lo <= k <= hi <= t@.len(),
            all_digits(t@, lo as int, hi as int),
            0 <= digits_value(t@, lo as int, k as int),
            digits_value(t@, lo as int, k as int) <= EXPONENT_CAP ==> v == digits_value(t@, lo as int, k as int),
            digits_value(t@, lo as int, k as int) > EXPONENT_CAP ==> v == EXPONENT_CAP + 1,
        decreases hi - k,
    {
        assert(is_digit(t@[k as int]));
        let d = (t[k] - 0x30) as i128;
        if v <= EXPONENT_CAP {
            let next = v * 10 + d;
            if next > EXPONENT_CAP {
                v = EXPONENT_CAP + 1;
            } else {
                v = next;
            }
        }
        k = k + 1;
    }
    v
}

/// The exponent in `[x, hi)`, clamped to `±(EXPONENT_CAP + 1)`.
fn exponent_exec(t: &Vec<u8>, x: usize, hi: usize) -> (r: Option<i128>)
    requires
        x <= hi <= t@.len(),
    ensures
        (r is Some) == (exponent_value(t@, x as int, hi as int) is Some),
        r is Some ==> ({
            let e = exponent_value(t@, x as int, hi as int)->0;
            &&& -EXPONENT_CAP <= e <= EXPONENT_CAP ==> r->0 == e
            &&& e > EXPONENT_CAP ==> r->0 == EXPONENT_CAP + 1
            &&& e < -EXPONENT_CAP ==> r->0 == -EXPONENT_CAP - 1
        }),
{
    if x >= hi {
        return Some(0);
    }
    let s = x + 1;
    let neg = s < hi && t[s] == 0x2d;
    let ds = if s < hi && (t[s] == 0x2d || t[s] == 0x2b) {
        s + 1
    } else {
        s
    };
    if ds >= hi || !all_digits_exec(t, ds, hi) {
        return None;
    }
    let v = digits_clamped(t, ds, hi);
    if neg {
        Some(-v)
    } else {
        Some(v)
    }
}

/// The number formed by the first `k` mantissa digits, where it is at most `VALUE_LIMIT`.
fn mantissa_magnitude(t: &Vec<u8>, lo: usize, dot: usize, frac_lo: usize, hi: usize, k: usize) -> (r: Option<i64>)
    requires
        lo <= dot <= t@.len(),
        frac_lo <= hi <= t@.len(),
        all_digits(t@, lo as int, dot as int),
        all_digits(t@, frac_lo as int, hi as int),
    ensures
        (r is Some) == (mantissa_prefix(t@, lo as int, dot as int, frac_lo as int, hi as int, k as nat) <= VALUE_LIMIT),
        r is Some ==> r->0 == mantissa_prefix(t@, lo as int, dot as int, frac_lo as int, hi as int, k as nat),
{
    let ni = dot - lo;
    let nf = hi - frac_lo;
    let mut v: i64 = 0;
    let mut j: usize = 0;
    while j < k
        invariant
            lo <= dot <= t@.len(),
            frac_lo <= hi <= t@.len(),
            ni == dot - lo,
            nf == hi - frac_lo,
            all_digits(t@, lo as int, dot as int),
            all_digits(t@, frac_lo as int, hi as int),
            j <= k,
            v == mantissa_prefix(t@, lo as int, dot as int, frac_lo as int, hi as int, j as nat),
            0 <= v <= VALUE_LIMIT,
        decreases k - j,
    {
        proof {
            lemma_mantissa_digit_bounds(t@, lo as int, dot as int, frac_lo as int, hi as int, j as int);
        }
        let d: i64 = if j < ni {
            (t[lo + j] - 0x30) as i64
        } else if j - ni < nf {
            (t[frac_lo + (j - ni)] - 0x30) as i64
        } else {
            0
        };
        let next = v * 10 + d;
        if next > VALUE_LIMIT {
            proof {
                lemma_prefix_monotone(t@, lo as int, dot as int, frac_lo as int, hi as int, (j + 1) as nat, k as nat);
            }
            return None;
        }
        v = next;
        j = j + 1;
    }
    Some(v)
}

/// The magnitude of the unsigned decimal in `[lo, hi)`, where it is well
/// formed and at most `VALUE_LIMIT`.
fn magnitude_exec(t: &Vec<u8>, lo: usize, hi: usize) -> (r: Option<i64>)
    requires
        lo <= hi <= t@.len(),
        t@.len() <= isize::MAX,
    ensures
        decimal_magnitude(t@, lo as int, hi as int) is Some ==> decimal_magnitude(t@, lo as int, hi as int)->0 >= 0,
        (r is Some) == (decimal_magnitude(t@, lo as int, hi as int) is Some && decimal_magnitude(
            t@,
            lo as int,
            hi as int,
        )->0 <= VALUE_LIMIT),
        r is Some ==> r->0 == decimal_magnitude(t@, lo as int, hi as int)->0,
{
    let x = find_exponent_exec(t, lo, hi);
    let dot = find_byte_exec(t, lo, x, 0x2e);
    let frac_lo = if dot < x {
        dot + 1
    } else {
        x
    };
    if !(dot > lo || x > frac_lo) {
        return None;
    }
    if !all_digits_exec(t, lo, dot) || !all_digits_exec(t, frac_lo, x) {
        return None;
    }
    let ex = match exponent_exec(t, x, hi) {
        Some(v) => v,
        None => {
            return None;
        },
    };
    let ni = (dot - lo) as i128;
    let dl = ni + (x - frac_lo) as i128;
    let kc: i128 = ni + ex + 6;
    let ke: i128 = if kc > dl + 11 {
        dl + 11
    } else {
        kc
    };
    proof {
        let xs = exponent_value(t@, x as int, hi as int)->0;
        let k = ni + xs + 6;
        if xs > EXPONENT_CAP {
            assert(k > dl + 11 && ke == dl + 11);
        } else if xs < -EXPONENT_CAP {
            assert(k <= 0 && ke <= 0);
        } else {
            assert(kc == k);
        }
        lemma_prefix_saturates(t@, lo as int, dot as int, frac_lo as int, x as int, k, ke as int);
        if k > 0 {
            lemma_prefix_monotone(t@, lo as int, dot as int, frac_lo as int, x as int, 0, k as nat);
        }
    }
    let mag: i64 = if ke <= 0 {
        0
    } else {
        match mantissa_magnitude(t, lo, dot, frac_lo, x, ke as usize) {
            Some(m) => m,
            None => {
                return None;
            },
        }
    };
    Some(mag)
}

fn parse_field_exec(t: &Vec<u8>, lo: usize, hi: usize) -> (r: Option<i64>)
    requires
        lo <= hi <= t@.len(),
        t@.len() <= isize::MAX,
    ensures
        (r is Some) == (parse_field(t@, lo as int, hi as int) is Some),
        r is Some ==> r->0 as int == parse_field(t@, lo as int, hi as int)->0,
{
    let s = trim_start_exec(t, lo, hi);
    let e = trim_end_exec(t, s, hi);
    let signed = s < e && (t[s] == 0x2d || t[s] == 0x2b);
    let neg = s < e && t[s] == 0x2d;
    let body = if signed {
        s + 1
    } else {
        s
    };
    let mag: i64 = match magnitude_exec(t, body, e) {
        Some(m) => m,
        None => {
            return None;
        },
    };
    let val: i64 = if neg {
        -mag
    } else {
        mag
    };
    Some(val)
}

fn parse_line_exec(t: &Vec<u8>, lo: usize, hi: usize, no: usize) -> (r: Result<(i64, i64), TrainingError>)
    requires
        lo <= hi <= t@.len(),
        t@.len() <= isize::MAX,
        1 <= no <= isize::MAX,
    ensures
        r == parse_line(t@, lo as int, hi as int, no as int),
{
    let c1 = find_byte_exec(t, lo, hi, 0x2c);
    if c1 >= hi {
        return Err(TrainingError::NotEnoughValues(no as isize));
    }
    let c2 = find_byte_exec(t, c1 + 1, hi, 0x2c);
    let x = parse_field_exec(t, lo, c1);
    let y = parse_field_exec(t, c1 + 1, c2);
    match (x, y) {
        (Some(xv), Some(yv)) => Ok((xv, yv)),
        _ => Err(TrainingError::InvalidNumber(no as isize)),
    }
}

/// Reads one sample per line from `text`: the first two comma-separated
/// fields of each line are `x` and `y` as decimals, optionally with an
/// exponent (`2.5e-1`); digits past six decimal places are dropped, and
/// further fields are ignored.  A line with fewer than two fields, or a field that is no
/// decimal within `±VALUE_LIMIT`, ends reading with an error naming the
/// line, counted from 1.
pub fn parse_values(text: &Vec<u8>) -> (r: Result<Vec<(i64, i64)>, TrainingError>)
    requires
        text@.len() <= isize::MAX,
    ensures
        parse_text(text@) is Ok ==> r is Ok && r->Ok_0@ == parse_text(text@)->Ok_0,
        parse_text(text@) is Err ==> r is Err && r->Err_0 == parse_text(text@)->Err_0,
{
    let n = text.len();
    let mut out: Vec<(i64, i64)> = Vec::new();
    let mut i: usize = 0;
    let mut no: usize = 1;
    while i < n
        invariant
            n == text@.len(),
            n <= isize::MAX,
            i <= n + 1,
            1 <= no <= i + 1,
            parse_text(text@) == match parse_from(text@, i as int, no as int) {
                Ok(s) => Ok(out@ + s),
                Err(x) => Err(x),
            },
        decreases n + 1 - i,
    {
        let e = find_byte_exec(text, i, n, 0x0a);
        let line = parse_line_exec(text, i, e, no);
        match line {
            Ok(p) => {
                let ghost before = out@;
                out.push(p);
                proof {
                    match parse_from(text@, e + 1, no + 1) {
                        Ok(s) => {
                            assert(before + (seq![p] + s) =~= out@ + s);
                        },
                        Err(x) => {},
                    }
                }
            },
            Err(x) => {
                return Err(x);
            },
        }
        i = e + 1;
        no = no + 1;
    }
    assert(out@ + seq![] =~= out@);
    Ok(out)
}

} // verus!
