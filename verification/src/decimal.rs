//! Exact decimal numbers.
//!
//! A rate or an amount is held as `(-1)^neg * mant * 10^exp`, a form that
//! represents every finite decimal numeral exactly. Parsing follows the
//! JSON number grammar; multiplication is exact; display rounds to two
//! decimal places only when the value is rendered.

use vstd::prelude::*;
use vstd::string::*;
use vstd::arithmetic::div_mod::*;
use vstd::arithmetic::mul::*;
use crate::text::{push_char, push_repeat, spec_repeat};

verus! {

/// An exact decimal number: `(-1)^neg * mant * 10^exp`.
#[derive(Clone, Copy, Debug, PartialEq, Eq, Structural)]
pub struct Decimal {
    pub neg: bool,
    pub mant: u128,
    pub exp: i32,
}

impl Decimal {
    /// A decimal is strictly negative when its sign is set and its
    /// magnitude is not zero; `-0` counts as zero, as it does for floats.
    pub open spec fn spec_is_negative(self) -> bool {
        self.neg && self.mant > 0
    }

    /// Exponents stay in a range far wider than any real-world rate or
    /// amount needs, so that sums of two exponents never overflow and
    /// rendering stays feasible.
    pub open spec fn wf(self) -> bool {
        -200_000 <= self.exp <= 200_000
    }

    pub fn is_negative(&self) -> (r: bool)
        ensures
            r == self.spec_is_negative(),
    {
        self.neg && self.mant > 0
    }
}

pub open spec fn pow10(n: nat) -> nat
    decreases n,
{
    if n == 0 { 1 } else { 10 * pow10((n - 1) as nat) }
}

pub proof fn lemma_pow10_pos(n: nat)
    ensures
        pow10(n) >= 1,
    decreases n,
{
    if n > 0 {
        lemma_pow10_pos((n - 1) as nat);
    }
}

pub proof fn lemma_pow10_add(a: nat, b: nat)
    ensures
        pow10((a + b) as nat) == pow10(a) * pow10(b),
    decreases a,
{
    if a == 0 {
        assert(pow10(b) == 1 * pow10(b));
    } else {
        lemma_pow10_add((a - 1) as nat, b);
        assert(pow10((a + b) as nat) == 10 * pow10(((a - 1) + b) as nat));
        assert(10 * (pow10((a - 1) as nat) * pow10(b)) == (10 * pow10((a - 1) as nat)) * pow10(b))
            by (nonlinear_arith);
    }
}

pub open spec fn is_digit(c: char) -> bool {
    c == '0' || c == '1' || c == '2' || c == '3' || c == '4' || c == '5' || c == '6' || c == '7'
        || c == '8' || c == '9'
}

pub open spec fn digit_val(c: char) -> nat {
    if c == '1' { 1 } else if c == '2' { 2 } else if c == '3' { 3 } else if c == '4' { 4 }
    else if c == '5' { 5 } else if c == '6' { 6 } else if c == '7' { 7 } else if c == '8' { 8 }
    else if c == '9' { 9 } else { 0 }
}

pub open spec fn spec_digit_char(d: nat) -> char {
    if d == 1 { '1' } else if d == 2 { '2' } else if d == 3 { '3' } else if d == 4 { '4' }
    else if d == 5 { '5' } else if d == 6 { '6' } else if d == 7 { '7' } else if d == 8 { '8' }
    else if d == 9 { '9' } else { '0' }
}

/// The decimal digit string of `n`, most significant digit first.
pub open spec fn spec_digits(n: nat) -> Seq<char>
    decreases n,
{
    if n < 10 {
        seq![spec_digit_char(n)]
    } else {
        spec_digits(n / 10).push(spec_digit_char(n % 10))
    }
}

/// How many consecutive digit characters stand at position `i`.
pub open spec fn count_digits(s: Seq<char>, i: int) -> int
    decreases s.len() - i,
{
    if i < 0 || i >= s.len() {
        0
    } else if is_digit(s[i]) {
        1 + count_digits(s, i + 1)
    } else {
        0
    }
}

/// The value of the digit characters `s[i..j)` read in base ten.
pub open spec fn fold_digits(s: Seq<char>, i: int, j: int) -> nat
    decreases j - i,
{
    if i >= j {
        0
    } else {
        fold_digits(s, i, j - 1) * 10 + digit_val(s[j - 1])
    }
}

/// How many `'0'` characters end the sequence.
pub open spec fn trailing_zeros(ds: Seq<char>) -> int
    decreases ds.len(),
{
    if ds.len() > 0 && ds[ds.len() - 1] == '0' {
        1 + trailing_zeros(ds.drop_last())
    } else {
        0
    }
}

proof fn lemma_trailing_zeros_eq(ds: Seq<char>, tz: int)
    requires
        0 <= tz <= ds.len(),
        forall|q: int| ds.len() - tz <= q < ds.len() ==> ds[q] == '0',
        tz < ds.len() ==> ds[ds.len() - tz - 1] != '0',
    ensures
        trailing_zeros(ds) == tz,
    decreases tz,
{
    if tz == 0 {
        if ds.len() > 0 {
            assert(ds[ds.len() - 1] != '0');
        }
    } else {
        assert(ds[ds.len() - 1] == '0');
        let dd = ds.drop_last();
        assert forall|q: int| dd.len() - (tz - 1) <= q < dd.len() implies dd[q] == '0' by {
            assert(dd[q] == ds[q]);
        }
        lemma_trailing_zeros_eq(dd, tz - 1);
    }
}

proof fn lemma_fold_monotone(s: Seq<char>, i: int, j: int, k: int)
    requires
        i <= j <= k,
    ensures
        fold_digits(s, i, j) <= fold_digits(s, i, k),
    decreases k - j,
{
    if j < k {
        lemma_fold_monotone(s, i, j, k - 1);
        assert(fold_digits(s, i, k - 1) * 10 >= fold_digits(s, i, k - 1) * 1) by (nonlinear_arith);
    }
}

/// The result of reading a JSON numeral: `None` where the text is not a
/// numeral of the JSON grammar, or its exact value does not fit the
/// representation (more than 38 significant digits, or a decimal exponent
/// beyond 10^5 in magnitude).
pub open spec fn spec_parse_decimal(s: Seq<char>) -> Option<Decimal> {
    let n = s.len() as int;
    let neg = n > 0 && s[0] == '-';
    let a: int = if neg { 1 } else { 0 };
    let b = a + count_digits(s, a);
    let has_frac = b < n && s[b] == '.';
    let c: int = if has_frac { b + 1 } else { b };
    let d: int = if has_frac { c + count_digits(s, c) } else { c };
    let has_exp = d < n && (s[d] == 'e' || s[d] == 'E');
    let es: int = if has_exp && d + 1 < n && (s[d + 1] == '+' || s[d + 1] == '-') { d + 2 } else {
        d + 1
    };
    let ee: int = if has_exp { es + count_digits(s, es) } else { d };
    let eneg = has_exp && s[d + 1] == '-';
    if b == a {
        None
    } else if b - a > 1 && s[a] == '0' {
        None
    } else if has_frac && d == c {
        None
    } else if has_exp && ee == es {
        None
    } else if (if has_exp { ee } else { d }) != n {
        None
    } else {
        let ds = s.subrange(a, b) + s.subrange(c, d);
        spec_make_decimal(neg, ds, eneg, fold_digits(s, es, ee), d - c)
    }
}

/// Builds the decimal out of its sign, its significant digit characters,
/// and its decimal exponent parts, normalizing trailing zeros into the
/// exponent so that the mantissa stays small whenever the numeral has few
/// significant digits.
pub open spec fn spec_make_decimal(
    neg: bool,
    ds: Seq<char>,
    eneg: bool,
    evalue: nat,
    fraclen: int,
) -> Option<Decimal> {
    let tz = trailing_zeros(ds);
    let core = ds.take(ds.len() - tz);
    let m = fold_digits(core, 0, core.len() as int);
    if m > u128::MAX {
        None
    } else if m == 0 {
        Some(Decimal { neg, mant: 0, exp: 0 })
    } else if evalue > 100_000 {
        None
    } else {
        let e = (if eneg { -(evalue as int) } else { evalue as int }) - fraclen + tz;
        if e < -100_000 || e > 100_000 {
            None
        } else {
            Some(Decimal { neg, mant: m as u128, exp: e as i32 })
        }
    }
}

pub fn is_digit_char(c: char) -> (r: bool)
    ensures
        r == is_digit(c),
{
    match c {
        '0' | '1' | '2' | '3' | '4' | '5' | '6' | '7' | '8' | '9' => true,
        _ => false,
    }
}

pub fn digit_val_char(c: char) -> (r: u8)
    ensures
        r as nat == digit_val(c),
        r <= 9,
{
    match c {
        '1' => 1, '2' => 2, '3' => 3, '4' => 4, '5' => 5,
        '6' => 6, '7' => 7, '8' => 8, '9' => 9,
        _ => 0,
    }
}

pub fn digit_char(d: u128) -> (c: char)
    requires
        d < 10,
    ensures
        c == spec_digit_char(d as nat),
{
    if d == 1 { '1' } else if d == 2 { '2' } else if d == 3 { '3' } else if d == 4 { '4' }
    else if d == 5 { '5' } else if d == 6 { '6' } else if d == 7 { '7' } else if d == 8 { '8' }
    else if d == 9 { '9' } else { '0' }
}

/// The position right after the run of digits that starts at `i`.
fn scan_digits(s: &str, i: usize, n: usize) -> (j: usize)
    requires
        i <= n,
        n as nat == s@.len(),
    ensures
        i <= j <= n,
        j as int == i as int + count_digits(s@, i as int),
{
    let mut j: usize = i;
    while j < n && is_digit_char(s.get_char(j))
        invariant
            i <= j <= n,
            n as nat == s@.len(),
            count_digits(s@, i as int) == (j - i) + count_digits(s@, j as int),
        decreases n - j,
    {
        j = j + 1;
    }
    j
}

/// Reads a JSON numeral into an exact decimal.
pub fn parse_decimal(s: &str) -> (r: Option<Decimal>)
    ensures
        r == spec_parse_decimal(s@),
        r matches Some(v) ==> v.wf(),
{
    let n = s.unicode_len();
    let neg = n > 0 && s.get_char(0) == '-';
    let a: usize = if neg { 1 } else { 0 };
    let b = scan_digits(s, a, n);
    if b == a {
        return None;
    }
    if b - a > 1 && s.get_char(a) == '0' {
        return None;
    }
    let has_frac = b < n && s.get_char(b) == '.';
    let c0: usize = if has_frac { b + 1 } else { b };
    let d0: usize = if has_frac { scan_digits(s, c0, n) } else { c0 };
    if has_frac && d0 == c0 {
        return None;
    }
    let has_exp = d0 < n && (s.get_char(d0) == 'e' || s.get_char(d0) == 'E');
    let eneg = has_exp && d0 + 1 < n && s.get_char(d0 + 1) == '-';
    let es: usize = if has_exp {
        if d0 + 1 < n && (s.get_char(d0 + 1) == '+' || s.get_char(d0 + 1) == '-') {
            d0 + 2
        } else {
            d0 + 1
        }
    } else {
        d0
    };
    let ee: usize = if has_exp { scan_digits(s, es, n) } else { d0 };
    if has_exp && ee == es {
        return None;
    }
    if (if has_exp { ee } else { d0 }) != n {
        return None;
    }
    // The exponent digits, saturating far above the accepted range.
    let mut ev: u64 = 0;
    let mut k4: usize = es;
    if has_exp {
        while k4 < ee
            invariant
                es <= k4 <= ee,
                n as nat == s@.len(),
                ee <= n,
                fold_digits(s@, es as int, k4 as int) <= 100_000 ==> ev as nat == fold_digits(
                    s@,
                    es as int,
                    k4 as int,
                ),
                fold_digits(s@, es as int, k4 as int) > 100_000 ==> ev > 100_000,
                ev <= 100_000_009,
            decreases ee - k4,
        {
            let dv = digit_val_char(s.get_char(k4));
            if ev <= 10_000_000 {
                ev = ev * 10 + dv as u64;
            }
            k4 = k4 + 1;
        }
    }
    let ghost evalue = if has_exp { fold_digits(s@, es as int, ee as int) } else { 0nat };
    // The significant digits: the integer span followed by the fraction span.
    let mut ds: Vec<char> = Vec::new();
    let mut k: usize = a;
    while k < b
        invariant
            a <= k <= b <= n,
            n as nat == s@.len(),
            ds@ == s@.subrange(a as int, k as int),
        decreases b - k,
    {
        ds.push(s.get_char(k));
        proof {
            assert(ds@ =~= s@.subrange(a as int, (k + 1) as int));
        }
        k = k + 1;
    }
    let mut k2: usize = c0;
    while k2 < d0
        invariant
            c0 <= k2 <= d0 <= n,
            n as nat == s@.len(),
            ds@ == s@.subrange(a as int, b as int) + s@.subrange(c0 as int, k2 as int),
        decreases d0 - k2,
    {
        ds.push(s.get_char(k2));
        proof {
            assert(ds@ =~= s@.subrange(a as int, b as int) + s@.subrange(
                c0 as int,
                (k2 + 1) as int,
            ));
        }
        k2 = k2 + 1;
    }
    proof {
        assert(ds@ =~= s@.subrange(a as int, b as int) + s@.subrange(c0 as int, d0 as int));
    }
    build_decimal(neg, &ds, eneg, ev, Ghost(evalue), d0 - c0)
}

/// Normalizes the significant digits and assembles the decimal, as
/// `spec_make_decimal` describes. `ev` carries the exponent's digit fold,
/// saturated somewhere above the accepted range.
fn build_decimal(
    neg: bool,
    ds: &Vec<char>,
    eneg: bool,
    ev: u64,
    Ghost(evalue): Ghost<nat>,
    fraclen: usize,
) -> (r: Option<Decimal>)
    requires
        evalue <= 100_000 ==> ev as nat == evalue,
        evalue > 100_000 ==> ev > 100_000,
    ensures
        r == spec_make_decimal(neg, ds@, eneg, evalue, fraclen as int),
        r matches Some(v) ==> v.wf(),
{
    // Trailing zeros move into the exponent.
    let len = ds.len();
    let mut tz: usize = 0;
    while tz < len && ds[len - 1 - tz] == '0'
        invariant
            tz <= len,
            len == ds@.len(),
            forall|q: int| len - tz <= q < len ==> ds@[q] == '0',
        decreases len - tz,
    {
        tz = tz + 1;
    }
    proof {
        lemma_trailing_zeros_eq(ds@, tz as int);
    }
    let core_len = len - tz;
    let ghost core = ds@.take(core_len as int);
    // The mantissa: the significant digits folded in base ten.
    let mut m: u128 = 0;
    let mut k3: usize = 0;
    while k3 < core_len
        invariant
            k3 <= core_len <= len,
            len == ds@.len(),
            core_len == len - tz,
            trailing_zeros(ds@) == tz as int,
            core == ds@.take(core_len as int),
            m as nat == fold_digits(core, 0, k3 as int),
        decreases core_len - k3,
    {
        let dv = digit_val_char(ds[k3]);
        proof {
            assert(core[k3 as int] == ds@[k3 as int]);
        }
        let m10 = match m.checked_mul(10) {
            Some(v) => v,
            None => {
                proof {
                    assert(fold_digits(core, 0, (k3 + 1) as int) > u128::MAX);
                    lemma_fold_monotone(core, 0, (k3 + 1) as int, core_len as int);
                }
                return None;
            },
        };
        let msum = match m10.checked_add(dv as u128) {
            Some(v) => v,
            None => {
                proof {
                    assert(fold_digits(core, 0, (k3 + 1) as int) > u128::MAX);
                    lemma_fold_monotone(core, 0, (k3 + 1) as int, core_len as int);
                }
                return None;
            },
        };
        m = msum;
        k3 = k3 + 1;
    }
    proof {
        assert(core.len() == core_len as int);
    }
    if m == 0 {
        return Some(Decimal { neg, mant: 0, exp: 0 });
    }
    if ev > 100_000 {
        return None;
    }
    let e: i128 = (if eneg { -(ev as i128) } else { ev as i128 }) - (fraclen as i128) + (
    tz as i128);
    proof {
        assert(e == (if eneg { -(evalue as int) } else { evalue as int }) - fraclen + tz);
    }
    if e < -100_000 || e > 100_000 {
        return None;
    }
    Some(Decimal { neg, mant: m, exp: e as i32 })
}

/// The exact product, componentwise: mantissas multiply, exponents add,
/// signs combine. `None` where the product mantissa does not fit, or the
/// summed exponent leaves the well-formed range.
pub open spec fn spec_convert(a: Decimal, b: Decimal) -> Option<Decimal> {
    if a.mant * b.mant > u128::MAX {
        None
    } else if a.exp + b.exp < -200_000 || a.exp + b.exp > 200_000 {
        None
    } else {
        Some(
            Decimal {
                neg: a.neg != b.neg,
                mant: (a.mant * b.mant) as u128,
                exp: (a.exp + b.exp) as i32,
            },
        )
    }
}

/// The whole number of cents nearest to `|d| * 100`, ties rounded away
/// from zero.
pub open spec fn spec_cents(d: Decimal) -> nat {
    if d.exp + 2 >= 0 {
        (d.mant * pow10((d.exp + 2) as nat)) as nat
    } else {
        ((d.mant + 5 * pow10((-(d.exp + 2) - 1) as nat)) as int / pow10(
            (-(d.exp + 2)) as nat,
        ) as int) as nat
    }
}

/// A count of cents rendered with exactly two places after the point.
pub open spec fn spec_fmt_cents(c: nat) -> Seq<char> {
    spec_digits(c / 100) + seq!['.'] + seq![
        spec_digit_char((c % 100) / 10),
        spec_digit_char((c % 100) % 10),
    ]
}

/// The decimal rendered to two places, sign first, as `{:.2}` renders a
/// float: rounding to the nearest cent happens only here.
pub open spec fn spec_format_2dp(d: Decimal) -> Seq<char> {
    if d.neg {
        seq!['-'] + spec_fmt_cents(spec_cents(d))
    } else {
        spec_fmt_cents(spec_cents(d))
    }
}

/// Appends the digit string of `n`.
pub fn push_digits(out: &mut String, n: u128)
    ensures
        final(out)@ == old(out)@ + spec_digits(n as nat),
    decreases n,
{
    if n >= 10 {
        push_digits(out, n / 10);
    } else {
        proof {
            lemma_small_mod(n as nat, 10);
        }
    }
    push_char(out, digit_char(n % 10));
    proof {
        assert(out@ =~= old(out)@ + spec_digits(n as nat));
    }
}

/// Appends `<digits of ip>.<two digits of fr>`.
fn push_cents(out: &mut String, ip: u128, fr: u128)
    requires
        fr < 100,
    ensures
        final(out)@ == old(out)@ + spec_digits(ip as nat) + seq!['.'] + seq![
            spec_digit_char((fr / 10) as nat),
            spec_digit_char((fr % 10) as nat),
        ],
{
    push_digits(out, ip);
    push_char(out, '.');
    push_char(out, digit_char(fr / 10));
    push_char(out, digit_char(fr % 10));
    proof {
        assert(out@ =~= old(out)@ + spec_digits(ip as nat) + seq!['.'] + seq![
            spec_digit_char((fr / 10) as nat),
            spec_digit_char((fr % 10) as nat),
        ]);
    }
}

/// Multiplying by a power of ten appends that many zero digits.
pub proof fn lemma_digits_shift(m: nat, z: nat)
    requires
        m >= 1,
    ensures
        spec_digits((m * pow10(z)) as nat) == spec_digits(m) + spec_repeat('0', z),
    decreases z,
{
    if z == 0 {
        assert(m * pow10(0) == m) by (nonlinear_arith)
            requires pow10(0) == 1;
        assert(spec_digits(m) + spec_repeat('0', 0) =~= spec_digits(m));
    } else {
        let p = pow10((z - 1) as nat);
        lemma_pow10_pos((z - 1) as nat);
        let k = (m * p) as nat;
        assert(k >= 1) by (nonlinear_arith)
            requires m >= 1, p >= 1, k == m * p;
        assert(m * pow10(z) == k * 10) by (nonlinear_arith)
            requires pow10(z) == 10 * p, k == m * p;
        lemma_fundamental_div_mod_converse((k * 10) as int, 10, k as int, 0);
        assert(spec_digits((k * 10) as nat) == spec_digits(k).push(spec_digit_char(0)));
        lemma_digits_shift(m, (z - 1) as nat);
        assert(spec_digits(m) + spec_repeat('0', (z - 1) as nat) + seq!['0'] =~= spec_digits(m)
            + spec_repeat('0', z));
        assert(spec_digits(k).push('0') =~= spec_digits(k) + seq!['0']);
    }
}

/// Adding half of `10^t` before dividing by `10^t` rounds to nearest,
/// ties away from zero; the carried digit is the one right below the cut.
pub proof fn lemma_round_half(m: nat, t: nat)
    requires
        t >= 1,
    ensures
        ((m + 5 * pow10((t - 1) as nat)) as int) / (pow10(t) as int) == (m as int) / (pow10(
            t,
        ) as int) + (if ((m as int) / (pow10((t - 1) as nat) as int)) % 10 >= 5 { 1int } else {
            0int
        }),
{
    let p = pow10((t - 1) as nat) as int;
    let tt = pow10(t) as int;
    lemma_pow10_pos((t - 1) as nat);
    assert(tt == 10 * p);
    let mi = m as int;
    lemma_fundamental_div_mod(mi, tt);
    lemma_mod_bound(mi, tt);
    let q = mi / tt;
    let r = mi % tt;
    lemma_fundamental_div_mod(r, p);
    lemma_mod_bound(r, p);
    let a = r / p;
    let b = r % p;
    assert(a <= 9) by {
        if a >= 10 {
            assert(p * a >= p * 10) by (nonlinear_arith)
                requires p >= 1, a >= 10;
        }
    }
    assert(a >= 0) by {
        lemma_div_is_ordered(0, r, p);
    }
    assert(mi == (10 * q + a) * p + b) by (nonlinear_arith)
        requires mi == tt * q + r, r == p * a + b, tt == 10 * p;
    lemma_fundamental_div_mod_converse(mi, p, 10 * q + a, b);
    lemma_fundamental_div_mod_converse(10 * q + a, 10, q, a);
    assert((mi / p) % 10 == a);
    if a >= 5 {
        assert(p * a >= p * 5) by (nonlinear_arith)
            requires p >= 1, a >= 5;
        assert(mi + 5 * p == (q + 1) * tt + (r - 5 * p)) by (nonlinear_arith)
            requires mi == tt * q + r, tt == 10 * p;
        lemma_fundamental_div_mod_converse(mi + 5 * p, tt, q + 1, r - 5 * p);
    } else {
        assert(p * a <= p * 4) by (nonlinear_arith)
            requires p >= 1, a <= 4;
        assert(mi + 5 * p == q * tt + (r + 5 * p)) by (nonlinear_arith)
            requires mi == tt * q + r;
        lemma_fundamental_div_mod_converse(mi + 5 * p, tt, q, r + 5 * p);
    }
}

/// Renders the decimal to exactly two places after the point.
pub fn format_2dp(d: &Decimal) -> (r: String)
    requires
        d.wf(),
    ensures
        r@ == spec_format_2dp(*d),
{
    let mut out = String::new();
    if d.neg {
        push_char(&mut out, '-');
    }
    if d.mant == 0 {
        push_char(&mut out, '0');
        push_char(&mut out, '.');
        push_char(&mut out, '0');
        push_char(&mut out, '0');
        proof {
            if d.exp + 2 >= 0 {
                assert(d.mant * pow10((d.exp + 2) as nat) == 0) by (nonlinear_arith)
                    requires d.mant == 0;
            } else {
                let t = (-(d.exp + 2)) as nat;
                let p = pow10((t - 1) as nat) as int;
                lemma_pow10_pos((t - 1) as nat);
                assert(pow10(t) as int == 10 * p);
                lemma_fundamental_div_mod_converse(5 * p, 10 * p, 0, 5 * p);
            }
            assert(spec_cents(*d) == 0);
            assert((spec_cents(*d) / 100) as nat == 0nat);
            assert(out@ =~= spec_format_2dp(*d));
        }
        return out;
    }
    if d.exp >= -2 {
        let z: u64 = (d.exp as i64 + 2) as u64;
        if z >= 2 {
            push_digits(&mut out, d.mant);
            push_repeat(&mut out, '0', (z - 2) as usize);
            push_char(&mut out, '.');
            push_char(&mut out, '0');
            push_char(&mut out, '0');
            proof {
                let zz = z as nat;
                let k = (d.mant * pow10((zz - 2) as nat)) as int;
                lemma_pow10_pos((zz - 2) as nat);
                lemma_pow10_add((zz - 2) as nat, 2);
                assert(pow10(0) == 1);
                assert(pow10(1) == 10);
                assert(pow10(2) == 100);
                let c = spec_cents(*d);
                assert(c == k * 100) by (nonlinear_arith)
                    requires
                        c == d.mant * pow10(zz),
                        pow10(zz) == pow10((zz - 2) as nat) * 100,
                        k == d.mant * pow10((zz - 2) as nat);
                assert(k >= 0) by (nonlinear_arith)
                    requires k == d.mant * pow10((zz - 2) as nat), d.mant >= 0, pow10((zz - 2) as nat) >= 1;
                lemma_fundamental_div_mod_converse(k * 100, 100, k, 0);
                lemma_digits_shift(d.mant as nat, (zz - 2) as nat);
                assert(out@ =~= spec_format_2dp(*d));
            }
        } else if z == 1 {
            let ip = d.mant / 10;
            let fr = (d.mant % 10) * 10;
            push_cents(&mut out, ip, fr);
            proof {
                let mi = d.mant as int;
                let c = spec_cents(*d);
                assert(pow10(0) == 1);
                assert(pow10(1) == 10);
                lemma_fundamental_div_mod(mi, 10);
                assert(c == (mi / 10) * 100 + (mi % 10) * 10) by (nonlinear_arith)
                    requires c == mi * 10, mi == 10 * (mi / 10) + mi % 10;
                lemma_mod_bound(mi, 10);
                lemma_fundamental_div_mod_converse(c as int, 100, mi / 10, (mi % 10) * 10);
                assert(out@ =~= spec_format_2dp(*d));
            }
        } else {
            let ip = d.mant / 100;
            let fr = d.mant % 100;
            push_cents(&mut out, ip, fr);
            proof {
                assert(pow10(0) == 1);
                assert(spec_cents(*d) == d.mant) by (nonlinear_arith)
                    requires spec_cents(*d) == d.mant * pow10(0), pow10(0) == 1;
                assert(out@ =~= spec_format_2dp(*d));
            }
        }
        out
    } else {
        let t: u64 = ((-(d.exp as i64)) - 2) as u64;
        let mut q: u128 = d.mant;
        let mut last: u128 = 0;
        let mut j: u64 = 0;
        proof {
            assert(pow10(0) == 1);
        }
        while j < t
            invariant
                j <= t,
                q as nat == d.mant as nat / pow10(j as nat),
                j >= 1 ==> last as nat == (d.mant as nat / pow10((j - 1) as nat)) % 10,
                last < 10,
            decreases t - j,
        {
            last = q % 10;
            let newq = q / 10;
            proof {
                lemma_pow10_pos(j as nat);
                lemma_div_denominator(d.mant as int, pow10(j as nat) as int, 10);
                assert(pow10((j + 1) as nat) == pow10(j as nat) * 10);
            }
            q = newq;
            j = j + 1;
        }
        let cents: u128 = if last >= 5 {
            proof {
                lemma_pow10_pos((t - 1) as nat);
                assert(pow10(t as nat) >= 10);
                lemma_div_is_ordered_by_denominator(d.mant as int, 10, pow10(t as nat) as int);
                lemma_div_is_ordered(d.mant as int, u128::MAX as int, 10);
            }
            q + 1
        } else {
            q
        };
        proof {
            lemma_round_half(d.mant as nat, t as nat);
            assert(cents as nat == spec_cents(*d));
        }
        let ip = cents / 100;
        let fr = cents % 100;
        push_cents(&mut out, ip, fr);
        proof {
            assert(out@ =~= spec_format_2dp(*d));
        }
        out
    }
}

/// Multiplies an amount by a rate, exactly.
pub fn convert_amount(a: &Decimal, b: &Decimal) -> (r: Option<Decimal>)
    ensures
        r == spec_convert(*a, *b),
        r matches Some(v) ==> v.wf(),
{
    match a.mant.checked_mul(b.mant) {
        None => None,
        Some(m) => {
            let e: i64 = a.exp as i64 + b.exp as i64;
            if e < -200_000 || e > 200_000 {
                None
            } else {
                Some(Decimal { neg: a.neg != b.neg, mant: m, exp: e as i32 })
            }
        },
    }
}

/// The numerator of the rational value a decimal denotes, over
/// `spec_den`: the value is `spec_num(d) / spec_den(d)`.
pub open spec fn spec_num(d: Decimal) -> int {
    (if d.neg { -1int } else { 1int }) * d.mant * (if d.exp >= 0 {
        pow10(d.exp as nat) as int
    } else {
        1int
    })
}

pub open spec fn spec_den(d: Decimal) -> int {
    if d.exp < 0 { pow10((-d.exp) as nat) as int } else { 1int }
}

/// Conversion is exact: whenever the product is representable, the
/// converted decimal denotes precisely `amount * rate` as a rational
/// number. Nothing is rounded before display.
pub proof fn lemma_convert_exact(a: Decimal, b: Decimal, c: Decimal)
    requires
        spec_convert(a, b) == Some(c),
    ensures
        spec_num(c) * spec_den(a) * spec_den(b) == spec_num(a) * spec_num(b) * spec_den(c),
{
    let am = a.mant as int;
    let bm = b.mant as int;
    let cm = c.mant as int;
    let ea = a.exp as int;
    let eb = b.exp as int;
    let ec = c.exp as int;
    assert(cm == am * bm);
    assert(ec == ea + eb);
    let sa: int = if a.neg { -1 } else { 1 };
    let sb: int = if b.neg { -1 } else { 1 };
    let sc: int = if c.neg { -1 } else { 1 };
    assert(sc == sa * sb) by {
        if a.neg {
            if b.neg {
                assert(sa * sb == 1) by (nonlinear_arith)
                    requires sa == -1, sb == -1;
            } else {
                assert(sa * sb == -1) by (nonlinear_arith)
                    requires sa == -1, sb == 1;
            }
        } else {
            if b.neg {
                assert(sa * sb == -1) by (nonlinear_arith)
                    requires sa == 1, sb == -1;
            } else {
                assert(sa * sb == 1) by (nonlinear_arith)
                    requires sa == 1, sb == 1;
            }
        }
    }
    let pea: int = if ea >= 0 { pow10(ea as nat) as int } else { 1 };
    let peb: int = if eb >= 0 { pow10(eb as nat) as int } else { 1 };
    let pec: int = if ec >= 0 { pow10(ec as nat) as int } else { 1 };
    let da: int = if ea < 0 { pow10((-ea) as nat) as int } else { 1 };
    let db: int = if eb < 0 { pow10((-eb) as nat) as int } else { 1 };
    let dc: int = if ec < 0 { pow10((-ec) as nat) as int } else { 1 };
    assert(pec * da * db == pea * peb * dc) by {
        if ea >= 0 && eb >= 0 {
            lemma_pow10_add(ea as nat, eb as nat);
            assert(pec == pea * peb);
            assert(pec * da * db == pea * peb * dc) by (nonlinear_arith)
                requires pec == pea * peb, da == 1, db == 1, dc == 1;
        } else if ea >= 0 && eb < 0 {
            if ec >= 0 {
                lemma_pow10_add(ec as nat, (-eb) as nat);
                assert(pea == pec * db);
                assert(pec * da * db == pea * peb * dc) by (nonlinear_arith)
                    requires pea == pec * db, da == 1, peb == 1, dc == 1;
            } else {
                lemma_pow10_add(ea as nat, (-ec) as nat);
                assert(db == pea * dc);
                assert(pec * da * db == pea * peb * dc) by (nonlinear_arith)
                    requires db == pea * dc, da == 1, peb == 1, pec == 1;
            }
        } else if ea < 0 && eb >= 0 {
            if ec >= 0 {
                lemma_pow10_add(ec as nat, (-ea) as nat);
                assert(peb == pec * da);
                assert(pec * da * db == pea * peb * dc) by (nonlinear_arith)
                    requires peb == pec * da, db == 1, pea == 1, dc == 1;
            } else {
                lemma_pow10_add(eb as nat, (-ec) as nat);
                assert(da == peb * dc);
                assert(pec * da * db == pea * peb * dc) by (nonlinear_arith)
                    requires da == peb * dc, db == 1, pea == 1, pec == 1;
            }
        } else {
            lemma_pow10_add((-ea) as nat, (-eb) as nat);
            assert(dc == da * db);
            assert(pec * da * db == pea * peb * dc) by (nonlinear_arith)
                requires dc == da * db, pea == 1, peb == 1, pec == 1;
        }
    }
    let ma = sa * am;
    let mb = sb * bm;
    let mc = sc * cm;
    assert(mc == ma * mb) by (nonlinear_arith)
        requires sc == sa * sb, cm == am * bm, ma == sa * am, mb == sb * bm, mc == sc * cm;
    assert(spec_num(a) == ma * pea);
    assert(spec_num(b) == mb * peb);
    assert(spec_num(c) == mc * pec);
    assert((mc * pec) * da * db == (ma * mb) * (pec * da * db)) by (nonlinear_arith)
        requires mc == ma * mb;
    assert((ma * mb) * (pea * peb * dc) == (ma * pea) * (mb * peb) * dc) by (nonlinear_arith);
}

/// Display rounding is correct: where no fraction has to be cut the
/// cents count is exact, and otherwise it sits within half a cent of
/// the exact scaled value, a tie landing away from zero.
pub proof fn lemma_cents_nearest(d: Decimal)
    ensures
        d.exp + 2 >= 0 ==> spec_cents(d) == d.mant * pow10((d.exp + 2) as nat),
        d.exp + 2 < 0 ==> ({
            let t = (-(d.exp + 2)) as nat;
            let c = spec_cents(d) as int;
            &&& 2 * (c * pow10(t) - d.mant) <= pow10(t)
            &&& 2 * (c * pow10(t) - d.mant) > -(pow10(t) as int)
        }),
{
    if d.exp + 2 < 0 {
        let t = (-(d.exp + 2)) as nat;
        let p = pow10((t - 1) as nat) as int;
        let tt = pow10(t) as int;
        lemma_pow10_pos((t - 1) as nat);
        assert(tt == 10 * p);
        let mi = d.mant as int;
        lemma_fundamental_div_mod(mi + 5 * p, tt);
        lemma_mod_bound(mi + 5 * p, tt);
        let c = (mi + 5 * p) / tt;
        let s = (mi + 5 * p) % tt;
        assert(mi + 5 * p == tt * c + s);
        assert(spec_cents(d) as int == c);
        assert(2 * (c * tt - mi) == 10 * p - 2 * s) by (nonlinear_arith)
            requires mi + 5 * p == tt * c + s, tt == 10 * p;
    }
}

} // verus!
