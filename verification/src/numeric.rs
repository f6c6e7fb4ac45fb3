//! Exact decimal numerals, at a fixed precision of one millionth of a unit.
//!
//! The device speaks in decimal text. The library represents every numeric
//! value it computes with as a signed count of micro-units (`i64`), so that
//! parsing, normalization and the calibration record format are exact and
//! free of rounding concerns. A field value `v` stands for the real number
//! `v / 1_000_000`.

use vstd::prelude::*;
use crate::text::split_at_sep;
use crate::text::split_bytes;
use crate::text::fields_view;

verus! {

/// Micro-units per unit.
pub const SCALE: i64 = 1_000_000;

/// Strict bound on the magnitude of any parsed fixed-point value:
/// at most nine integer digits and six fraction digits.
pub const VAL_LIMIT: i64 = 1_000_000_000_000_000;

/// Most integer digits a numeral may carry.
pub const MAX_INT_DIGITS: usize = 9;

/// Fraction digits carried by the fixed-point representation.
pub const FRAC_DIGITS: usize = 6;

pub open spec fn is_digit(b: u8) -> bool {
    48 <= b && b <= 57
}

pub open spec fn digit_val(b: u8) -> int {
    b - 48
}

pub open spec fn all_digits(s: Seq<u8>) -> bool {
    forall|i: int| 0 <= i < s.len() ==> is_digit(s[i])
}

/// The value of a digit string read left to right.
pub open spec fn digits_val(s: Seq<u8>) -> int
    decreases s.len(),
{
    if s.len() == 0 {
        0
    } else {
        digits_val(s.drop_last()) * 10 + digit_val(s.last())
    }
}

pub open spec fn pow10(n: nat) -> int
    decreases n,
{
    if n == 0 {
        1
    } else {
        10 * pow10((n - 1) as nat)
    }
}

pub proof fn lemma_pow10_pos(n: nat)
    ensures
        pow10(n) >= 1,
    decreases n,
{
    if n > 0 {
        lemma_pow10_pos((n - 1) as nat);
    }
}

/// A digit string's value is non-negative and below `pow10` of its length.
pub proof fn lemma_digits_val_bounds(s: Seq<u8>)
    requires
        all_digits(s),
    ensures
        0 <= digits_val(s) < pow10(s.len()),
    decreases s.len(),
{
    if s.len() > 0 {
        assert(all_digits(s.drop_last())) by {
            assert(forall|i: int| 0 <= i < s.len() - 1 ==> s.drop_last()[i] == s[i]);
        }
        lemma_digits_val_bounds(s.drop_last());
        assert(is_digit(s.last()));
    }
}

/// Peeling one digit off the front: reading `j+1` digits is reading `j`
/// digits then appending one.
pub proof fn lemma_digits_val_take_step(s: Seq<u8>, j: int)
    requires
        0 <= j < s.len(),
    ensures
        digits_val(s.take(j + 1)) == digits_val(s.take(j)) * 10 + digit_val(s[j]),
{
    assert(s.take(j + 1).drop_last() =~= s.take(j));
    assert(s.take(j + 1).last() == s[j]);
}

/// A digit string's value splits around any cut point.
pub proof fn lemma_digits_val_decompose(s: Seq<u8>, j: int)
    requires
        0 <= j <= s.len(),
    ensures
        digits_val(s) == digits_val(s.take(j)) * pow10((s.len() - j) as nat) + digits_val(
            s.skip(j),
        ),
    decreases s.len() - j,
{
    if j == s.len() {
        assert(s.take(j) =~= s);
        assert(s.skip(j) =~= Seq::<u8>::empty());
        assert(digits_val(s) == digits_val(s.take(j)) * 1 + 0);
    } else {
        lemma_digits_val_decompose(s, j + 1);
        lemma_digits_val_take_step(s, j);
        lemma_digits_val_decompose(s.skip(j), 1);
        assert(s.skip(j).take(1) =~= seq![s[j]]);
        assert(digits_val(seq![s[j]]) == digit_val(s[j])) by {
            assert(seq![s[j]].len() == 1);
            assert(seq![s[j]].drop_last() =~= Seq::<u8>::empty());
            assert(seq![s[j]].last() == s[j]);
            assert(digits_val(Seq::<u8>::empty()) == 0);
        }
        assert(s.skip(j).skip(1) =~= s.skip(j + 1));
        let a = digits_val(s.take(j));
        let d = digit_val(s[j]);
        let p = pow10((s.len() - j - 1) as nat);
        assert(digits_val(s) == (a * 10 + d) * p + digits_val(s.skip(j + 1)));
        assert(digits_val(s.skip(j)) == d * p + digits_val(s.skip(j + 1)));
        assert((a * 10 + d) * p == a * (10 * p) + d * p) by (nonlinear_arith);
        assert(pow10((s.len() - j) as nat) == 10 * p);
    }
}

pub proof fn lemma_pow10_adds(a: nat, b: nat)
    ensures
        pow10(a) * pow10(b) == pow10(a + b),
    decreases a,
{
    if a == 0 {
    } else {
        lemma_pow10_adds((a - 1) as nat, b);
        assert(10 * pow10((a - 1) as nat) * pow10(b) == 10 * (pow10((a - 1) as nat) * pow10(b)))
            by (nonlinear_arith);
    }
}

/// A numeral without sign: integer digits, then optionally a dot and
/// fraction digits. At most nine integer digits, at least one digit in all,
/// either part may be empty.
pub open spec fn is_valid_unsigned(s: Seq<u8>) -> bool {
    let ps = split_at_sep(s, 46);
    &&& (ps.len() == 1 || ps.len() == 2)
    &&& all_digits(ps[0])
    &&& ps[0].len() <= 9
    &&& (ps.len() == 2 ==> all_digits(ps[1]))
    &&& ps[0].len() + (if ps.len() == 2 {
        ps[1].len()
    } else {
        0
    }) >= 1
}

/// The micro-units contributed by a fraction-digit string; digits beyond
/// the sixth are below one micro-unit and are dropped.
pub open spec fn frac_micros(fs: Seq<u8>) -> int {
    if fs.len() >= 6 {
        digits_val(fs.take(6))
    } else {
        digits_val(fs) * pow10((6 - fs.len()) as nat)
    }
}

/// Micro-units denoted by an unsigned numeral.
pub open spec fn unsigned_micros(s: Seq<u8>) -> int {
    let ps = split_at_sep(s, 46);
    digits_val(ps[0]) * 1_000_000 + if ps.len() == 2 {
        frac_micros(ps[1])
    } else {
        0
    }
}

/// A numeral: an unsigned numeral with an optional leading minus sign.
pub open spec fn is_valid_fixed(s: Seq<u8>) -> bool {
    if s.len() >= 1 && s[0] == 45 {
        is_valid_unsigned(s.skip(1))
    } else {
        is_valid_unsigned(s)
    }
}

/// Micro-units denoted by a numeral.
pub open spec fn fixed_micros(s: Seq<u8>) -> int {
    if s.len() >= 1 && s[0] == 45 {
        -unsigned_micros(s.skip(1))
    } else {
        unsigned_micros(s)
    }
}

pub proof fn lemma_all_digits_sub(s: Seq<u8>, a: int, b: int)
    requires
        all_digits(s),
        0 <= a <= b <= s.len(),
    ensures
        all_digits(s.subrange(a, b)),
{
    assert(forall|i: int| 0 <= i < b - a ==> s.subrange(a, b)[i] == s[a + i]);
}

/// A valid unsigned numeral denotes fewer than `VAL_LIMIT` micro-units.
pub proof fn lemma_unsigned_micros_bound(s: Seq<u8>)
    requires
        is_valid_unsigned(s),
    ensures
        0 <= unsigned_micros(s) < VAL_LIMIT,
{
    let ps = split_at_sep(s, 46);
    lemma_digits_val_bounds(ps[0]);
    lemma_pow10_le(ps[0].len() as nat, 9);
    assert(pow10(9) == 1_000_000_000 && pow10(6) == 1_000_000) by {
        reveal_with_fuel(pow10, 10);
    }
    if ps.len() == 2 {
        lemma_frac_micros_bound(ps[1]);
    }
}

/// The fraction part is always below one full unit.
pub proof fn lemma_frac_micros_bound(fs: Seq<u8>)
    requires
        all_digits(fs),
    ensures
        0 <= frac_micros(fs) < 1_000_000,
{
    assert(pow10(6) == 1_000_000) by {
        reveal_with_fuel(pow10, 7);
    }
    if fs.len() >= 6 {
        lemma_all_digits_sub(fs, 0, 6);
        assert(fs.take(6) == fs.subrange(0, 6));
        lemma_digits_val_bounds(fs.take(6));
    } else {
        lemma_digits_val_bounds(fs);
        let d = digits_val(fs);
        let k = (6 - fs.len()) as nat;
        lemma_pow10_pos(k);
        lemma_pow10_adds(fs.len() as nat, k);
        assert(d * pow10(k) >= 0) by (nonlinear_arith)
            requires
                d >= 0,
                pow10(k) >= 1,
        ;
        assert(d * pow10(k) <= (pow10(fs.len() as nat) - 1) * pow10(k)) by (nonlinear_arith)
            requires
                d <= pow10(fs.len() as nat) - 1,
                pow10(k) >= 1,
        ;
        assert((pow10(fs.len() as nat) - 1) * pow10(k) == pow10(fs.len() as nat) * pow10(k) - pow10(
            k,
        )) by (nonlinear_arith);
    }
}

pub proof fn lemma_pow10_le(a: nat, b: nat)
    requires
        a <= b,
    ensures
        pow10(a) <= pow10(b),
    decreases b,
{
    if a < b {
        lemma_pow10_le(a, (b - 1) as nat);
        lemma_pow10_pos((b - 1) as nat);
    }
}

/// Decide whether every byte of `s` is a decimal digit.
pub fn scan_digits(s: &[u8]) -> (r: bool)
    ensures
        r == all_digits(s@),
{
    let n = s.len();
    let mut i: usize = 0;
    while i < n
        invariant
            0 <= i <= n,
            n == s@.len(),
            forall|j: int| 0 <= j < i ==> is_digit(s@[j]),
        decreases n - i,
    {
        if s[i] < 48 || s[i] > 57 {
            return false;
        }
        i += 1;
    }
    true
}

/// The value of a digit string of at most nine digits.
fn digits_value_u64(s: &[u8]) -> (r: u64)
    requires
        all_digits(s@),
        s@.len() <= 9,
    ensures
        r as int == digits_val(s@),
        r < 1_000_000_000,
{
    proof {
        assert(pow10(9) == 1_000_000_000) by {
            reveal_with_fuel(pow10, 10);
        }
    }
    let n = s.len();
    let mut acc: u64 = 0;
    let mut i: usize = 0;
    proof {
        assert(s@.take(0) =~= Seq::<u8>::empty());
    }
    while i < n
        invariant
            0 <= i <= n,
            n == s@.len() <= 9,
            all_digits(s@),
            acc as int == digits_val(s@.take(i as int)),
            (acc as int) < pow10(i as nat),
            pow10(9) == 1_000_000_000,
        decreases n - i,
    {
        proof {
            lemma_all_digits_sub(s@, 0, i + 1);
            assert(s@.take(i + 1) == s@.subrange(0, i + 1));
            lemma_digits_val_bounds(s@.take(i + 1));
            lemma_digits_val_take_step(s@, i as int);
            lemma_pow10_le((i + 1) as nat, 9);
        }
        acc = acc * 10 + (s[i] - 48) as u64;
        i += 1;
    }
    proof {
        assert(s@.take(n as int) =~= s@);
        lemma_pow10_le(n as nat, 9);
    }
    acc
}

/// The micro-units of a fraction-digit string.
fn frac_value_u64(s: &[u8]) -> (r: u64)
    requires
        all_digits(s@),
    ensures
        r as int == frac_micros(s@),
        r < 1_000_000,
{
    proof {
        assert(pow10(6) == 1_000_000) by {
            reveal_with_fuel(pow10, 7);
        }
    }
    let n = s.len();
    let m = if n >= 6 {
        6
    } else {
        n
    };
    let head: &[u8] = &s[0..m];
    proof {
        lemma_all_digits_sub(s@, 0, m as int);
        assert(head@.len() <= 9);
    }
    let mut acc: u64 = digits_value_u64(head);
    proof {
        if n >= 6 {
            assert(s@.take(6) == s@.subrange(0, 6));
        } else {
            assert(head@ =~= s@);
        }
        lemma_digits_val_bounds(head@);
    }
    let mut k: usize = m;
    while k < 6
        invariant
            m <= k <= 6,
            m == if s@.len() >= 6 {
                6int
            } else {
                s@.len() as int
            },
            all_digits(s@),
            m < 6 ==> acc as int == digits_val(s@) * pow10((k - m) as nat),
            m == 6 ==> acc as int == digits_val(s@.take(6)),
            (acc as int) < pow10(k as nat),
            pow10(6) == 1_000_000,
        decreases 6 - k,
    {
        proof {
            let d = digits_val(s@);
            let pk = pow10((k - m) as nat);
            if m < 6 {
                lemma_digits_val_bounds(s@);
                lemma_pow10_adds(s@.len() as nat, (k - m) as nat);
                assert(d * pk * 10 == d * (pk * 10)) by (nonlinear_arith);
                assert(d * (pk * 10) == d * pow10((k + 1 - m) as nat));
                assert(acc * 10 < pow10((k + 1) as nat)) by (nonlinear_arith)
                    requires
                        (acc as int) < pow10(k as nat),
                        pow10((k + 1) as nat) == 10 * pow10(k as nat),
                        acc >= 0,
                ;
            }
            lemma_pow10_le((k + 1) as nat, 6);
            lemma_pow10_le(k as nat, 6);
        }
        acc = acc * 10;
        k += 1;
    }
    proof {
        if n >= 6 {
            assert(frac_micros(s@) == digits_val(s@.take(6)));
        } else {
            assert(frac_micros(s@) == digits_val(s@) * pow10((6 - s@.len()) as nat));
        }
    }
    acc
}

/// Parse a numeral field into micro-units; `None` on anything outside the
/// grammar.
pub fn parse_fixed(field: &[u8]) -> (r: Option<i64>)
    ensures
        (r is Some) == is_valid_fixed(field@),
        r matches Some(v) ==> v == fixed_micros(field@) && -VAL_LIMIT < v < VAL_LIMIT,
{
    let neg = field.len() >= 1 && field[0] == 45u8;
    let body: &[u8] = if neg {
        &field[1..field.len()]
    } else {
        &field[0..field.len()]
    };
    proof {
        if neg {
            assert(body@ =~= field@.skip(1));
        } else {
            assert(body@ =~= field@);
        }
    }
    let parts = split_bytes(body, 46);
    let ghost ps = split_at_sep(body@, 46);
    proof {
        assert(forall|i: int| 0 <= i < parts@.len() ==> parts@[i]@ == fields_view(parts@)[i]);
    }
    if !(parts.len() == 1 || parts.len() == 2) {
        return None;
    }
    let ip: &Vec<u8> = &parts[0];
    if ip.len() > MAX_INT_DIGITS {
        return None;
    }
    if !scan_digits(ip.as_slice()) {
        return None;
    }
    let mut fracv: u64 = 0;
    let mut has_frac_digit = false;
    if parts.len() == 2 {
        let fp: &Vec<u8> = &parts[1];
        if !scan_digits(fp.as_slice()) {
            return None;
        }
        has_frac_digit = fp.len() > 0;
        fracv = frac_value_u64(fp.as_slice());
    }
    if !(ip.len() > 0 || has_frac_digit) {
        return None;
    }
    let iv: u64 = digits_value_u64(ip.as_slice());
    let mag: u64 = iv * 1_000_000 + fracv;
    proof {
        assert(is_valid_unsigned(body@));
        lemma_unsigned_micros_bound(body@);
        assert(mag as int == unsigned_micros(body@));
    }
    let v: i64 = mag as i64;
    if neg {
        Some(-v)
    } else {
        Some(v)
    }
}

/// What a timestamp field denotes: its decimal value when it is a digit
/// string that fits in `u32`, and zero otherwise.
pub open spec fn u32_field_val(s: Seq<u8>) -> int {
    if s.len() >= 1 && all_digits(s) && digits_val(s) <= 0xFFFF_FFFF {
        digits_val(s)
    } else {
        0
    }
}

/// Parse a timestamp field, substituting zero for anything that is not a
/// `u32` decimal numeral.
pub fn parse_u32_field(field: &[u8]) -> (r: u32)
    ensures
        r as int == u32_field_val(field@),
{
    let n = field.len();
    if n == 0 {
        return 0;
    }
    if !scan_digits(field) {
        return 0;
    }
    let mut acc: u64 = 0;
    let mut i: usize = 0;
    proof {
        assert(field@.take(0) =~= Seq::<u8>::empty());
    }
    while i < n
        invariant
            0 <= i <= n,
            n == field@.len(),
            all_digits(field@),
            acc as int == digits_val(field@.take(i as int)),
            acc <= 0xFFFF_FFFF,
        decreases n - i,
    {
        proof {
            lemma_digits_val_take_step(field@, i as int);
        }
        acc = acc * 10 + (field[i] - 48) as u64;
        if acc > 0xFFFF_FFFF {
            proof {
                lemma_digits_val_decompose(field@, i + 1);
                assert(field@.skip(i + 1) == field@.subrange(i + 1, n as int));
                lemma_all_digits_sub(field@, i + 1, n as int);
                lemma_digits_val_bounds(field@.skip(i + 1));
                lemma_pow10_pos((n - i - 1) as nat);
                let dv = digits_val(field@.take(i + 1));
                let p = pow10((n - i - 1) as nat);
                assert(dv * p >= dv) by (nonlinear_arith)
                    requires
                        dv >= 0,
                        p >= 1,
                ;
            }
            return 0;
        }
        i += 1;
    }
    proof {
        assert(field@.take(n as int) =~= field@);
    }
    acc as u32
}

/// Decimal digits of `n`, most significant first, no leading zeros
/// (a single zero digit for zero).
pub open spec fn dec_rep(n: nat) -> Seq<u8>
    decreases n,
{
    if n < 10 {
        seq![(48 + n) as u8]
    } else {
        dec_rep(n / 10).push((48 + n % 10) as u8)
    }
}

/// Exactly `w` decimal digits of `n`, zero padded on the left.
pub open spec fn decw_rep(n: nat, w: nat) -> Seq<u8>
    decreases w,
{
    if w == 0 {
        Seq::empty()
    } else {
        decw_rep(n / 10, (w - 1) as nat).push((48 + n % 10) as u8)
    }
}

pub proof fn lemma_dec_rep(n: nat)
    ensures
        all_digits(dec_rep(n)),
        dec_rep(n).len() >= 1,
        digits_val(dec_rep(n)) == n,
    decreases n,
{
    if n < 10 {
        assert(dec_rep(n) =~= seq![(48 + n) as u8]);
        assert(dec_rep(n).drop_last() =~= Seq::<u8>::empty());
        assert(dec_rep(n).last() == (48 + n) as u8);
        assert(digits_val(Seq::<u8>::empty()) == 0);
        assert(digit_val((48 + n) as u8) == n);
    } else {
        lemma_dec_rep(n / 10);
        assert(dec_rep(n).drop_last() =~= dec_rep(n / 10));
        assert(dec_rep(n).last() == (48 + n % 10) as u8);
        assert(n == (n / 10) * 10 + n % 10);
        assert(forall|i: int|
            0 <= i < dec_rep(n).len() - 1 ==> dec_rep(n)[i] == dec_rep(n / 10)[i]);
    }
}

pub proof fn lemma_dec_rep_len(n: nat, k: nat)
    requires
        n < pow10(k),
        k >= 1,
    ensures
        dec_rep(n).len() <= k,
    decreases n,
{
    if n < 10 {
    } else {
        lemma_pow10_pos((k - 1) as nat);
        if k == 1 {
            assert(pow10(1) == 10) by {
                reveal_with_fuel(pow10, 2);
            }
            assert(false);
        }
        assert(n / 10 < pow10((k - 1) as nat)) by (nonlinear_arith)
            requires
                n < pow10(k),
                pow10(k) == 10 * pow10((k - 1) as nat),
                n >= 10,
        ;
        lemma_dec_rep_len(n / 10, (k - 1) as nat);
    }
}

pub proof fn lemma_decw_rep(n: nat, w: nat)
    requires
        n < pow10(w),
    ensures
        all_digits(decw_rep(n, w)),
        decw_rep(n, w).len() == w,
        digits_val(decw_rep(n, w)) == n,
    decreases w,
{
    if w == 0 {
    } else {
        assert(n / 10 < pow10((w - 1) as nat)) by (nonlinear_arith)
            requires
                n < pow10(w),
                pow10(w) == 10 * pow10((w - 1) as nat),
        ;
        lemma_decw_rep(n / 10, (w - 1) as nat);
        assert(decw_rep(n, w).drop_last() =~= decw_rep(n / 10, (w - 1) as nat));
        assert(decw_rep(n, w).last() == (48 + n % 10) as u8);
        assert(forall|i: int|
            0 <= i < decw_rep(n, w).len() - 1 ==> decw_rep(n, w)[i] == decw_rep(
                n / 10,
                (w - 1) as nat,
            )[i]);
    }
}

/// The canonical numeral for `v` micro-units: optional minus sign, integer
/// digits, a dot, and exactly six fraction digits.
pub open spec fn spec_format_micros(v: int) -> Seq<u8> {
    if v < 0 {
        seq![45u8].add(spec_format_unsigned(-v))
    } else {
        spec_format_unsigned(v)
    }
}

pub open spec fn spec_format_unsigned(a: int) -> Seq<u8> {
    dec_rep((a / 1_000_000) as nat).add(seq![46u8].add(decw_rep((a % 1_000_000) as nat, 6)))
}

/// Append the decimal digits of `n` to `out`.
fn push_dec(n: u64, out: &mut Vec<u8>)
    ensures
        final(out)@ == old(out)@ + dec_rep(n as nat),
    decreases n,
{
    if n < 10 {
        out.push(48 + n as u8);
        proof {
            assert(out@ =~= old(out)@ + dec_rep(n as nat));
        }
    } else {
        push_dec(n / 10, out);
        out.push(48 + (n % 10) as u8);
        proof {
            assert(out@ =~= old(out)@ + dec_rep(n as nat));
        }
    }
}

/// Append exactly `w` zero-padded decimal digits of `n` to `out`.
fn push_decw(n: u64, w: usize, out: &mut Vec<u8>)
    ensures
        final(out)@ == old(out)@ + decw_rep(n as nat, w as nat),
    decreases w,
{
    if w == 0 {
        proof {
            assert(out@ =~= old(out)@ + decw_rep(n as nat, 0));
        }
    } else {
        push_decw(n / 10, w - 1, out);
        out.push(48 + (n % 10) as u8);
        proof {
            assert(out@ =~= old(out)@ + decw_rep(n as nat, w as nat));
        }
    }
}

/// Append the canonical numeral for `v` micro-units to `out`.
pub fn format_micros(v: i64, out: &mut Vec<u8>)
    requires
        -VAL_LIMIT < v < VAL_LIMIT,
    ensures
        final(out)@ == old(out)@ + spec_format_micros(v as int),
{
    let a: u64 = if v < 0 {
        out.push(45);
        (-v) as u64
    } else {
        v as u64
    };
    let ghost mid = out@;
    push_dec(a / 1_000_000, out);
    out.push(46);
    push_decw(a % 1_000_000, 6, out);
    proof {
        assert((a / 1_000_000) as nat == ((a as int) / 1_000_000) as nat);
        assert((a % 1_000_000) as nat == ((a as int) % 1_000_000) as nat);
        assert(out@ =~= mid + spec_format_unsigned(a as int));
        if v < 0 {
            assert(out@ =~= old(out)@ + spec_format_micros(v as int));
        } else {
            assert(out@ =~= old(out)@ + spec_format_micros(v as int));
        }
    }
}

/// Parsing the canonical numeral of any representable value gives the value
/// back: the calibration record format loses nothing.
pub proof fn lemma_format_parse_round_trip(v: int)
    requires
        -VAL_LIMIT < v < VAL_LIMIT,
    ensures
        is_valid_fixed(spec_format_micros(v)),
        fixed_micros(spec_format_micros(v)) == v,
{
    let a = if v < 0 {
        -v
    } else {
        v
    };
    let ip = (a / 1_000_000) as nat;
    let fp = (a % 1_000_000) as nat;
    assert(pow10(9) == 1_000_000_000 && pow10(6) == 1_000_000) by {
        reveal_with_fuel(pow10, 10);
    }
    lemma_dec_rep(ip);
    lemma_dec_rep_len(ip, 9);
    lemma_decw_rep(fp, 6);
    let u = spec_format_unsigned(a);
    let da = dec_rep(ip);
    let db = decw_rep(fp, 6);
    assert(u =~= da.add(seq![46u8].add(db)));
    assert(forall|i: int| 0 <= i < da.len() ==> da[i] != 46);
    assert(forall|i: int| 0 <= i < db.len() ==> db[i] != 46);
    crate::text::lemma_split_clean_prefix(da, db, 46);
    crate::text::lemma_split_no_sep(db, 46);
    let ps = split_at_sep(u, 46);
    assert(ps == seq![da, db]);
    assert(ps[0] == da && ps[1] == db);
    assert(is_valid_unsigned(u));
    assert(db.take(6) =~= db);
    assert(frac_micros(db) == fp);
    assert(unsigned_micros(u) == ip * 1_000_000 + fp);
    assert(a == (a / 1_000_000) * 1_000_000 + (a % 1_000_000));
    assert(unsigned_micros(u) == a);
    assert(u.len() >= 1 && u[0] == da[0]);
    assert(is_digit(da[0]));
    assert(u[0] != 45);
    if v < 0 {
        let s = spec_format_micros(v);
        assert(s =~= seq![45u8].add(u));
        assert(s[0] == 45);
        assert(s.skip(1) =~= u);
    } else {
        assert(spec_format_micros(v) == u);
    }
}

/// No byte of a canonical numeral is a space: its bytes are digits, at
/// most one dot, and at most one leading minus sign.
pub proof fn lemma_format_no_space(v: int)
    ensures
        forall|i: int|
            0 <= i < spec_format_micros(v).len() ==> spec_format_micros(v)[i] != 32,
{
    let a = if v < 0 {
        -v
    } else {
        v
    };
    let ip = (a / 1_000_000) as nat;
    let fp = (a % 1_000_000) as nat;
    lemma_dec_rep(ip);
    assert(pow10(6) == 1_000_000) by {
        reveal_with_fuel(pow10, 7);
    }
    lemma_decw_rep(fp, 6);
    let da = dec_rep(ip);
    let db = decw_rep(fp, 6);
    let u = spec_format_unsigned(a);
    assert(u == da.add(seq![46u8].add(db)));
    assert forall|i: int| 0 <= i < u.len() implies u[i] != 32 by {
        if i < da.len() {
            assert(u[i] == da[i]);
            assert(is_digit(da[i]));
        } else if i == da.len() {
            assert(u[i] == 46);
        } else {
            assert(u[i] == db[i - da.len() - 1]);
            assert(is_digit(db[i - da.len() - 1]));
        }
    }
    if v < 0 {
        let s = spec_format_micros(v);
        assert(s == seq![45u8].add(u));
        assert forall|i: int| 0 <= i < s.len() implies s[i] != 32 by {
            if i == 0 {
                assert(s[0] == 45);
            } else {
                assert(s[i] == u[i - 1]);
            }
        }
    }
}

} // verus!
