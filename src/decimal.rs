//! Exact decimal numbers for energies and tolerances, and the small unsigned
//! integers of a record's section counts.
//!
//! An `Energy` counts units of 10^-12: a decimal with at most twelve
//! fractional digits (after the exponent is applied) is held exactly, one
//! with more is rounded to the nearest unit, and comparing differences of
//! energies involves no rounding at all.
use vstd::prelude::*;

verus! {

pub open spec fn is_digit(b: u8) -> bool {
    48u8 <= b <= 57u8
}

pub open spec fn pow10(k: nat) -> nat
    decreases k,
{
    if k == 0 {
        1
    } else {
        10 * pow10((k - 1) as nat)
    }
}

/// The number written by the decimal digits `s`, most significant first.
pub open spec fn digits_value(s: Seq<u8>) -> nat
    decreases s.len(),
{
    if s.len() == 0 {
        0
    } else {
        digits_value(s.drop_last()) * 10 + (s.last() - 48u8) as nat
    }
}

/// First index at or after `i` that holds no decimal digit (or the length).
pub open spec fn digit_run_end(s: Seq<u8>, i: int) -> int
    decreases s.len() - i,
{
    if 0 <= i < s.len() && is_digit(s[i]) {
        digit_run_end(s, i + 1)
    } else {
        i
    }
}

/// Number of fractional decimal digits an `Energy` keeps.
pub open spec fn frac_digits() -> nat {
    12
}

/// Exclusive bound on the magnitude of an energy, in units.
pub open spec fn units_bound() -> nat {
    pow10(30)
}

/// Most digits accepted in the mantissa of a written number.
pub open spec fn max_mantissa_digits() -> int {
    36
}

/// Most digits accepted in the exponent of a written number.
pub open spec fn max_exponent_digits() -> int {
    4
}

/// The magnitude `m * 10^ex`, rounded to a whole number with halves going
/// up, when that is below the bound.
pub open spec fn scaled(m: nat, ex: int) -> Option<int> {
    let v = if ex >= 0 {
        m * pow10(ex as nat)
    } else {
        let d = pow10((-ex) as nat);
        if 2 * (m % d) >= d {
            m / d + 1
        } else {
            m / d
        }
    };
    if v < units_bound() {
        Some(v as int)
    } else {
        None
    }
}

/// Where the parts of a written number lie: its sign, the whole digits
/// `[d0, d1)`, the fractional digits `[f0, f1)` and the exponent digits
/// `[e0, e1)`.
pub struct NumberLayout {
    pub neg: bool,
    pub d0: int,
    pub d1: int,
    pub f0: int,
    pub f1: int,
    pub has_exp: bool,
    pub e_neg: bool,
    pub e0: int,
    pub e1: int,
}

pub open spec fn number_layout(s: Seq<u8>) -> NumberLayout {
    let n = s.len() as int;
    let d0: int = if n > 0 && (s[0] == 43u8 || s[0] == 45u8) {
        1
    } else {
        0
    };
    let d1 = digit_run_end(s, d0);
    let has_dot = d1 < n && s[d1] == 46u8;
    let f0 = if has_dot {
        d1 + 1
    } else {
        d1
    };
    let f1 = if has_dot {
        digit_run_end(s, f0)
    } else {
        d1
    };
    let has_exp = f1 < n && (s[f1] == 101u8 || s[f1] == 69u8);
    let e_signed = has_exp && f1 + 1 < n && (s[f1 + 1] == 43u8 || s[f1 + 1] == 45u8);
    let e0 = if e_signed {
        f1 + 2
    } else if has_exp {
        f1 + 1
    } else {
        f1
    };
    NumberLayout {
        neg: n > 0 && s[0] == 45u8,
        d0,
        d1,
        f0,
        f1,
        has_exp,
        e_neg: e_signed && s[f1 + 1] == 45u8,
        e0,
        e1: if has_exp {
            digit_run_end(s, e0)
        } else {
            e0
        },
    }
}

/// The layout covers the whole text, with one to 36 mantissa digits and,
/// where there is an exponent, one to four exponent digits.
pub open spec fn layout_ok(s: Seq<u8>, l: NumberLayout) -> bool {
    let nd = (l.d1 - l.d0) + (l.f1 - l.f0);
    &&& 1 <= nd <= max_mantissa_digits()
    &&& l.e1 == s.len()
    &&& l.has_exp ==> 1 <= l.e1 - l.e0 <= max_exponent_digits()
}

/// The value, in units of 10^-12, of a number written as an optional sign,
/// digits with at most one decimal point (at least one digit in all), and an
/// optional exponent `e` or `E` with an optional sign and one to four
/// digits. The value is rounded to the nearest unit, halves away from zero.
/// `None` when `s` is not of that form, has more than 36 mantissa digits, or
/// the rounded magnitude is not below the bound.
pub open spec fn decimal_units(s: Seq<u8>) -> Option<int> {
    let l = number_layout(s);
    if !layout_ok(s, l) {
        None
    } else {
        let m = digits_value(s.subrange(l.d0, l.d1) + s.subrange(l.f0, l.f1));
        let ev = digits_value(s.subrange(l.e0, l.e1)) as int;
        let ex = (if l.e_neg {
            -ev
        } else {
            ev
        }) + frac_digits() - (l.f1 - l.f0);
        match scaled(m, ex) {
            Some(v) => Some(
                if l.neg {
                    -v
                } else {
                    v
                },
            ),
            None => None,
        }
    }
}

/// The value of a count token as `u8::from_str` reads it: an optional `+`
/// and one or more decimal digits whose value is at most 255.
pub open spec fn count_value(s: Seq<u8>) -> Option<u8> {
    let d0: int = if s.len() > 0 && s[0] == 43u8 {
        1
    } else {
        0
    };
    let v = digits_value(s.subrange(d0, s.len() as int));
    if d0 < s.len() && digit_run_end(s, d0) == s.len() && v <= 255 {
        Some(v as u8)
    } else {
        None
    }
}

/// Decimal digits of `n`, without leading zeros.
pub open spec fn dec_digits(n: nat) -> Seq<u8>
    decreases n,
{
    if n < 10 {
        seq![(48 + n) as u8]
    } else {
        dec_digits(n / 10).push((48 + n % 10) as u8)
    }
}

/// The last `w` decimal digits of `n`, zero-padded.
pub open spec fn fixed_digits(n: nat, w: nat) -> Seq<u8>
    decreases w,
{
    if w == 0 {
        Seq::empty()
    } else {
        fixed_digits(n / 10, (w - 1) as nat).push((48 + n % 10) as u8)
    }
}

/// `s` without trailing `0` bytes.
pub open spec fn strip_zeros(s: Seq<u8>) -> Seq<u8>
    decreases s.len(),
{
    if s.len() > 0 && s.last() == 48u8 {
        strip_zeros(s.drop_last())
    } else {
        s
    }
}

/// Shortest plain decimal text of `u` units: a `-` for negative values, the
/// whole part, and the fractional part without trailing zeros after a `.`
/// when it is not zero.
pub open spec fn energy_text(u: int) -> Seq<u8> {
    let m = (if u < 0 {
        -u
    } else {
        u
    }) as nat;
    let whole = m / pow10(frac_digits());
    let frac = m % pow10(frac_digits());
    let sign = if u < 0 {
        seq![45u8]
    } else {
        Seq::<u8>::empty()
    };
    let tail = if frac == 0 {
        Seq::<u8>::empty()
    } else {
        seq![46u8] + strip_zeros(fixed_digits(frac, frac_digits()))
    };
    sign + dec_digits(whole) + tail
}

/// An energy, or a difference of energies, in units of 10^-12.
#[derive(Clone, Copy, Debug, PartialEq, Eq)]
pub struct Energy {
    pub units: i128,
}

impl Energy {
    /// The magnitude stays below the bound.
    pub open spec fn wf(self) -> bool {
        -(units_bound() as int) < self.units < units_bound()
    }

    /// The energy of a record that names none: 100.
    pub open spec fn spec_default() -> Energy {
        Energy { units: (100 * pow10(frac_digits())) as i128 }
    }

    pub fn default_energy() -> (r: Energy)
        ensures
            r == Energy::spec_default(),
            r.wf(),
    {
        proof {
            lemma_pow10_facts();
        }
        Energy { units: 100_000_000_000_000 }
    }

    /// Reads a written number; `None` when `decimal_units` rejects it.
    pub fn parse(s: &[u8]) -> (r: Option<Energy>)
        ensures
            r.is_some() == decimal_units(s@).is_some(),
            r.is_some() ==> r.unwrap().units == decimal_units(s@).unwrap() && r.unwrap().wf(),
    {
        parse_decimal(s)
    }

    /// Whether the magnitude stays below the bound.
    pub fn is_bounded(&self) -> (r: bool)
        ensures
            r == self.wf(),
    {
        proof {
            lemma_pow10_facts();
        }
        -1_000_000_000_000_000_000_000_000_000_000 < self.units && self.units
            < 1_000_000_000_000_000_000_000_000_000_000
    }

    /// Plain decimal text of this energy.
    pub fn to_text(&self) -> (r: Vec<u8>)
        ensures
            r@ == energy_text(self.units as int),
    {
        let mut out: Vec<u8> = Vec::new();
        render_energy(&mut out, *self);
        out
    }
}

pub proof fn lemma_pow10_pos(k: nat)
    ensures
        pow10(k) >= 1,
    decreases k,
{
    if k > 0 {
        lemma_pow10_pos((k - 1) as nat);
    }
}

pub proof fn lemma_pow10_add(a: nat, b: nat)
    ensures
        pow10(a + b) == pow10(a) * pow10(b),
    decreases b,
{
    if b > 0 {
        lemma_pow10_add(a, (b - 1) as nat);
        assert(a + (b - 1) as nat == (a + b - 1) as nat);
        assert(pow10((a + b - 1) as nat) == pow10(a) * pow10((b - 1) as nat));
        assert(pow10(a + b) == 10 * pow10((a + b - 1) as nat));
        assert(pow10(a) * pow10(b) == pow10(a) * (10 * pow10((b - 1) as nat)));
        assert(pow10(a) * (10 * pow10((b - 1) as nat)) == 10 * (pow10(a) * pow10((b - 1) as nat)))
            by (nonlinear_arith);
    } else {
        assert(pow10(0) == 1);
        assert(a + b == a);
    }
}

pub proof fn lemma_pow10_mono(a: nat, b: nat)
    requires
        a <= b,
    ensures
        pow10(a) <= pow10(b),
    decreases b,
{
    if a < b {
        lemma_pow10_mono(a, (b - 1) as nat);
        lemma_pow10_pos((b - 1) as nat);
    }
}

pub proof fn lemma_pow10_facts()
    ensures
        pow10(12) == 1_000_000_000_000,
        pow10(30) == 1_000_000_000_000_000_000_000_000_000_000,
        pow10(36) == 1_000_000_000_000_000_000_000_000_000_000_000_000,
{
    reveal_with_fuel(pow10, 37);
}

proof fn lemma_digits_push(x: Seq<u8>, d: u8)
    ensures
        digits_value(x.push(d)) == digits_value(x) * 10 + (d - 48u8) as nat,
{
    assert(x.push(d).drop_last() =~= x);
}

pub proof fn lemma_digit_run(s: Seq<u8>, i: int)
    requires
        0 <= i <= s.len(),
    ensures
        i <= digit_run_end(s, i) <= s.len(),
        forall|k: int| i <= k < digit_run_end(s, i) ==> is_digit(#[trigger] s[k]),
        digit_run_end(s, i) < s.len() ==> !is_digit(s[digit_run_end(s, i)]),
    decreases s.len() - i,
{
    if i < s.len() && is_digit(s[i]) {
        lemma_digit_run(s, i + 1);
    }
}

/// `10^k` for `k <= 36`.
pub fn pow10_exec(k: u32) -> (r: i128)
    requires
        k <= 36,
    ensures
        r == pow10(k as nat),
        r >= 1,
{
    let mut r: i128 = 1;
    let mut i: u32 = 0;
    while i < k
        invariant
            i <= k <= 36,
            r == pow10(i as nat),
        decreases k - i,
    {
        proof {
            lemma_pow10_mono((i + 1) as nat, 36);
            lemma_pow10_facts();
        }
        r = r * 10;
        i = i + 1;
    }
    proof {
        lemma_pow10_pos(k as nat);
    }
    r
}

/// Index just past the run of decimal digits that starts at `i`.
fn digit_end(s: &[u8], i: usize) -> (r: usize)
    requires
        i <= s@.len(),
    ensures
        r == digit_run_end(s@, i as int),
{
    let mut j: usize = i;
    while j < s.len() && 48 <= s[j] && s[j] <= 57
        invariant
            i <= j <= s@.len(),
            digit_run_end(s@, i as int) == digit_run_end(s@, j as int),
        decreases s@.len() - j,
    {
        j = j + 1;
    }
    j
}

/// The number written by the digits `s[a..b]` followed by `s[c..d]`.
fn digits_to_int(s: &[u8], a: usize, b: usize, c: usize, d: usize) -> (r: i128)
    requires
        a <= b <= s@.len(),
        c <= d <= s@.len(),
        (b - a) + (d - c) <= 36,
        forall|k: int| a <= k < b ==> is_digit(#[trigger] s@[k]),
        forall|k: int| c <= k < d ==> is_digit(#[trigger] s@[k]),
    ensures
        r == digits_value(s@.subrange(a as int, b as int) + s@.subrange(c as int, d as int)),
        0 <= r < pow10(((b - a) + (d - c)) as nat),
{
    proof {
        lemma_pow10_facts();
    }
    let mut v: i128 = 0;
    let mut i: usize = a;
    assert(s@.subrange(a as int, a as int) =~= Seq::<u8>::empty());
    while i < b
        invariant
            a <= i <= b <= s@.len(),
            c <= d,
            (b - a) + (d - c) <= 36,
            forall|k: int| a <= k < b ==> is_digit(#[trigger] s@[k]),
            pow10(36) == 1_000_000_000_000_000_000_000_000_000_000_000_000,
            v == digits_value(s@.subrange(a as int, i as int)),
            0 <= v < pow10((i - a) as nat),
        decreases b - i,
    {
        let dg = s[i];
        proof {
            assert(is_digit(s@[i as int]));
            lemma_digits_push(s@.subrange(a as int, i as int), dg);
            assert(s@.subrange(a as int, i as int).push(dg) =~= s@.subrange(a as int, i + 1));
            lemma_pow10_mono((i + 1 - a) as nat, 36);
            let p = pow10((i - a) as nat);
            assert(pow10((i + 1 - a) as nat) == 10 * p);
            assert(v * 10 + (dg - 48) < 10 * p) by (nonlinear_arith)
                requires
                    0 <= v < p,
                    0 <= dg - 48 <= 9,
            ;
        }
        v = v * 10 + (dg - 48) as i128;
        i = i + 1;
    }
    let ghost head = s@.subrange(a as int, b as int);
    let mut j: usize = c;
    assert(head + s@.subrange(c as int, c as int) =~= head);
    while j < d
        invariant
            a <= b <= s@.len(),
            c <= j <= d <= s@.len(),
            (b - a) + (d - c) <= 36,
            forall|k: int| c <= k < d ==> is_digit(#[trigger] s@[k]),
            pow10(36) == 1_000_000_000_000_000_000_000_000_000_000_000_000,
            head == s@.subrange(a as int, b as int),
            v == digits_value(head + s@.subrange(c as int, j as int)),
            0 <= v < pow10(((b - a) + (j - c)) as nat),
        decreases d - j,
    {
        let dg = s[j];
        proof {
            assert(is_digit(s@[j as int]));
            lemma_digits_push(head + s@.subrange(c as int, j as int), dg);
            assert((head + s@.subrange(c as int, j as int)).push(dg) =~= head + s@.subrange(
                c as int,
                j + 1,
            ));
            lemma_pow10_mono(((b - a) + (j + 1 - c)) as nat, 36);
            let p = pow10(((b - a) + (j - c)) as nat);
            assert(pow10(((b - a) + (j + 1 - c)) as nat) == 10 * p);
            assert(v * 10 + (dg - 48) < 10 * p) by (nonlinear_arith)
                requires
                    0 <= v < p,
                    0 <= dg - 48 <= 9,
            ;
        }
        v = v * 10 + (dg - 48) as i128;
        j = j + 1;
    }
    v
}

/// `m * 10^ex` rounded to a whole number, when that is below the bound.
fn scale(m: i128, ex: i128) -> (r: Option<i128>)
    requires
        0 <= m < pow10(36),
        -20000 <= ex <= 20000,
    ensures
        r.is_some() == scaled(m as nat, ex as int).is_some(),
        r.is_some() ==> r.unwrap() == scaled(m as nat, ex as int).unwrap(),
        r.is_some() ==> 0 <= r.unwrap() < units_bound(),
{
    proof {
        lemma_pow10_facts();
    }
    if ex >= 0 {
        if m == 0 {
            proof {
                assert(0 * pow10(ex as nat) == 0);
            }
            return Some(0);
        }
        if ex >= 30 {
            proof {
                lemma_pow10_mono(30, ex as nat);
                assert(m * pow10(ex as nat) >= pow10(ex as nat)) by (nonlinear_arith)
                    requires
                        m >= 1,
                        pow10(ex as nat) >= 1,
                ;
            }
            return None;
        }
        let lim = pow10_exec((30 - ex) as u32);
        let p = pow10_exec(ex as u32);
        proof {
            lemma_pow10_add((30 - ex) as nat, ex as nat);
            assert((30 - ex) as nat + ex as nat == 30);
        }
        if m >= lim {
            proof {
                assert(m * p >= lim * p) by (nonlinear_arith)
                    requires
                        m >= lim,
                        p >= 1,
                ;
            }
            return None;
        }
        proof {
            assert(m * p < lim * p) by (nonlinear_arith)
                requires
                    m < lim,
                    p >= 1,
            ;
        }
        Some(m * p)
    } else {
        let k = -ex;
        if k > 36 {
            proof {
                lemma_pow10_mono(37, k as nat);
                reveal_with_fuel(pow10, 2);
                assert(pow10(37) == 10 * pow10(36));
                let d = pow10(k as nat) as int;
                assert((m as int) % d == m as int && (m as int) / d == 0) by (nonlinear_arith)
                    requires
                        0 <= m < d,
                ;
            }
            return Some(0);
        }
        let d = pow10_exec(k as u32);
        let q = m / d;
        let rem = m % d;
        let v = if rem >= d - rem {
            q + 1
        } else {
            q
        };
        if v >= 1_000_000_000_000_000_000_000_000_000_000 {
            return None;
        }
        Some(v)
    }
}

/// The layout of `s`, as `number_layout` describes it.
fn scan_layout(s: &[u8]) -> (r: (bool, usize, usize, usize, usize, bool, bool, usize, usize))
    ensures
        ({
            let l = number_layout(s@);
            &&& r.0 == l.neg
            &&& r.1 == l.d0
            &&& r.2 == l.d1
            &&& r.3 == l.f0
            &&& r.4 == l.f1
            &&& r.5 == l.has_exp
            &&& r.6 == l.e_neg
            &&& r.7 == l.e0
            &&& r.8 == l.e1
        }),
        r.1 <= r.2 <= r.3 <= r.4 <= r.7 <= r.8 <= s@.len(),
        forall|k: int| r.1 <= k < r.2 ==> is_digit(#[trigger] s@[k]),
        forall|k: int| r.3 <= k < r.4 ==> is_digit(#[trigger] s@[k]),
        forall|k: int| r.7 <= k < r.8 ==> is_digit(#[trigger] s@[k]),
{
    let n = s.len();
    let neg = n > 0 && s[0] == 45;
    let d0: usize = if n > 0 && (s[0] == 43 || s[0] == 45) {
        1
    } else {
        0
    };
    let d1 = digit_end(s, d0);
    proof {
        lemma_digit_run(s@, d0 as int);
    }
    let has_dot = d1 < n && s[d1] == 46;
    let f0 = if has_dot {
        d1 + 1
    } else {
        d1
    };
    let f1 = if has_dot {
        digit_end(s, f0)
    } else {
        d1
    };
    proof {
        lemma_digit_run(s@, f0 as int);
    }
    let has_exp = f1 < n && (s[f1] == 101 || s[f1] == 69);
    let e_signed = has_exp && f1 + 1 < n && (s[f1 + 1] == 43 || s[f1 + 1] == 45);
    let e_neg = e_signed && s[f1 + 1] == 45;
    let e0 = if e_signed {
        f1 + 2
    } else if has_exp {
        f1 + 1
    } else {
        f1
    };
    let e1 = if has_exp {
        digit_end(s, e0)
    } else {
        e0
    };
    proof {
        lemma_digit_run(s@, e0 as int);
    }
    (neg, d0, d1, f0, f1, has_exp, e_neg, e0, e1)
}

fn parse_decimal(s: &[u8]) -> (r: Option<Energy>)
    ensures
        r.is_some() == decimal_units(s@).is_some(),
        r.is_some() ==> r.unwrap().units == decimal_units(s@).unwrap() && r.unwrap().wf(),
{
    proof {
        lemma_pow10_facts();
    }
    let n = s.len();
    let (neg, d0, d1, f0, f1, has_exp, e_neg, e0, e1) = scan_layout(s);
    let ghost l = number_layout(s@);
    let nd = (d1 - d0) + (f1 - f0);
    if nd < 1 || nd > 36 || e1 != n || (has_exp && (e1 - e0 < 1 || e1 - e0 > 4)) {
        return None;
    }
    assert(layout_ok(s@, l));
    let m = digits_to_int(s, d0, d1, f0, f1);
    proof {
        lemma_pow10_mono(nd as nat, 36);
    }
    let ev = digits_to_int(s, e0, e1, e1, e1);
    proof {
        assert(s@.subrange(e0 as int, e1 as int) + s@.subrange(e1 as int, e1 as int)
            =~= s@.subrange(e0 as int, e1 as int));
        lemma_pow10_mono((e1 - e0) as nat, 4);
        reveal_with_fuel(pow10, 5);
    }
    let ex: i128 = (if e_neg {
        -ev
    } else {
        ev
    }) + 12 - (f1 - f0) as i128;
    match scale(m, ex) {
        Some(v) => Some(Energy { units: if neg { -v } else { v } }),
        None => None,
    }
}

/// Reads a section count as `u8::from_str` does.
pub fn parse_count(s: &[u8]) -> (r: Option<u8>)
    ensures
        r == count_value(s@),
{
    let n = s.len();
    let d0: usize = if n > 0 && s[0] == 43 {
        1
    } else {
        0
    };
    assert(d0 as int == (if s@.len() > 0 && s@[0] == 43u8 {
        1int
    } else {
        0int
    }));
    if d0 >= n {
        return None;
    }
    let mut v: u32 = 0;
    let mut i: usize = d0;
    assert(s@.subrange(d0 as int, d0 as int) =~= Seq::<u8>::empty());
    while i < n
        invariant
            d0 <= i <= n == s@.len(),
            d0 < n,
            d0 as int == (if s@.len() > 0 && s@[0] == 43u8 {
                1int
            } else {
                0int
            }),
            digit_run_end(s@, d0 as int) == digit_run_end(s@, i as int),
            v == (if digits_value(s@.subrange(d0 as int, i as int)) <= 255 {
                digits_value(s@.subrange(d0 as int, i as int))
            } else {
                256
            }),
        decreases n - i,
    {
        let dg = s[i];
        if !(48 <= dg && dg <= 57) {
            proof {
                assert(!is_digit(s@[i as int]));
                assert(digit_run_end(s@, i as int) == i as int);
                assert(count_value(s@).is_none());
            }
            return None;
        }
        proof {
            lemma_digits_push(s@.subrange(d0 as int, i as int), dg);
            assert(s@.subrange(d0 as int, i as int).push(dg) =~= s@.subrange(d0 as int, i + 1));
        }
        if v <= 255 {
            v = v * 10 + (dg - 48) as u32;
            if v > 255 {
                v = 256;
            }
        }
        i = i + 1;
    }
    proof {
        assert(s@.subrange(d0 as int, n as int) =~= s@.subrange(d0 as int, s@.len() as int));
    }
    if v <= 255 {
        Some(v as u8)
    } else {
        None
    }
}

/// Appends the decimal digits of `n`.
pub fn push_dec_digits(out: &mut Vec<u8>, n: u128)
    ensures
        final(out)@ == old(out)@ + dec_digits(n as nat),
    decreases n,
{
    if n >= 10 {
        push_dec_digits(out, n / 10);
    }
    out.push((48 + n % 10) as u8);
    proof {
        if n >= 10 {
            assert(final(out)@ =~= old(out)@ + dec_digits(n as nat));
        } else {
            assert(final(out)@ =~= old(out)@ + dec_digits(n as nat));
        }
    }
}

/// Appends the last `w` decimal digits of `n`, zero-padded.
fn push_fixed_digits(out: &mut Vec<u8>, n: u128, w: u32)
    ensures
        final(out)@ == old(out)@ + fixed_digits(n as nat, w as nat),
    decreases w,
{
    if w == 0 {
        assert(final(out)@ =~= old(out)@ + fixed_digits(n as nat, w as nat));
        return;
    }
    push_fixed_digits(out, n / 10, w - 1);
    out.push((48 + n % 10) as u8);
    assert(final(out)@ =~= old(out)@ + fixed_digits(n as nat, w as nat));
}

/// Appends `energy_text` of `e`.
fn render_energy(out: &mut Vec<u8>, e: Energy)
    ensures
        final(out)@ == old(out)@ + energy_text(e.units as int),
{
    proof {
        lemma_pow10_facts();
    }
    let m: u128 = if e.units < 0 {
        ((-(e.units + 1)) as u128) + 1
    } else {
        e.units as u128
    };
    let whole = m / 1_000_000_000_000;
    let frac = m % 1_000_000_000_000;
    let ghost start = out@;
    if e.units < 0 {
        out.push(45);
    }
    push_dec_digits(out, whole);
    if frac != 0 {
        out.push(46);
        let mut digits: Vec<u8> = Vec::new();
        push_fixed_digits(&mut digits, frac, 12);
        let ghost full = digits@;
        assert(digits@ =~= Seq::<u8>::empty() + fixed_digits(frac as nat, 12));
        while digits.len() > 0 && digits[digits.len() - 1] == 48
            invariant
                strip_zeros(full) == strip_zeros(digits@),
            decreases digits@.len(),
        {
            let ghost before = digits@;
            digits.pop();
            proof {
                assert(before.drop_last() =~= digits@);
            }
        }
        let mut k: usize = 0;
        let ghost mid = out@;
        while k < digits.len()
            invariant
                k <= digits@.len(),
                out@ == mid + digits@.subrange(0, k as int),
            decreases digits@.len() - k,
        {
            out.push(digits[k]);
            k = k + 1;
            assert(out@ =~= mid + digits@.subrange(0, k as int));
        }
        proof {
            assert(digits@.subrange(0, k as int) =~= digits@);
            assert(strip_zeros(digits@) == digits@);
        }
    }
    proof {
        assert(final(out)@ =~= start + energy_text(e.units as int));
    }
}

} // verus!
