//! Exact decimal numbers. Solver metrics, observed runtimes, cutoffs and
//! proportions are decimal values read from text; this crate keeps them as
//! `num / 10^scale` with an `i64` numerator, so every comparison the search
//! makes is exact.

use crate::text::{
    all_digits, dec_digits, dec_val, int_bytes, lemma_dec_digits_props, lemma_pow10_mono, pow10,
    split_on, parse_i64_spec, MINUS, PLUS, ZERO_DIGIT,
};
use vstd::prelude::*;

verus! {

/// `.`
pub const DOT: u8 = 46u8;

/// `e`, the exponent marker.
pub const EXP_MARK: u8 = 101u8;

/// An exact decimal: the value `num / 10^scale`.
#[derive(Debug, Clone, Copy, PartialEq, Eq, Structural)]
pub struct Ratio {
    pub num: i64,
    pub scale: u32,
}

/// Well-formed ratios keep the denominator within `10^9` so that every
/// comparison fits comfortably in 128-bit intermediate arithmetic.
pub open spec fn ratio_wf(r: Ratio) -> bool {
    r.scale <= 9
}

/// The denominator of `r`.
pub open spec fn ratio_den(r: Ratio) -> nat {
    pow10(r.scale as nat)
}

/// `a < b` as rational numbers.
pub open spec fn ratio_lt(a: Ratio, b: Ratio) -> bool {
    a.num * ratio_den(b) < b.num * ratio_den(a)
}

/// `a == b` as rational numbers.
pub open spec fn ratio_eq_val(a: Ratio, b: Ratio) -> bool {
    a.num * ratio_den(b) == b.num * ratio_den(a)
}

proof fn lemma_pow10_vals()
    ensures
        pow10(0) == 1,
        pow10(1) == 10,
        pow10(3) == 1000,
        pow10(9) == 0x3b9a_ca00,
        pow10(18) == 0xde0_b6b3_a764_0000,
        pow10(19) == 0x8ac7_2304_89e8_0000,
{
    reveal_with_fuel(pow10, 20);
}

/// `10^e` for small exponents.
pub fn pow10_u64(e: u32) -> (r: u64)
    requires
        e <= 19,
    ensures
        r as nat == pow10(e as nat),
{
    proof {
        lemma_pow10_vals();
    }
    let mut r: u64 = 1;
    let mut i: u32 = 0;
    while i < e
        invariant
            i <= e <= 19,
            r as nat == pow10(i as nat),
        decreases e - i,
    {
        proof {
            lemma_pow10_mono(i as nat + 1, 19);
            lemma_pow10_vals();
        }
        r = r * 10;
        i += 1;
    }
    r
}

impl Ratio {
    /// The whole number `n`.
    pub fn from_int(n: i64) -> (r: Ratio)
        ensures
            r.num == n,
            r.scale == 0,
            ratio_wf(r),
    {
        Ratio { num: n, scale: 0 }
    }

    /// Whether `self < other` as rational numbers.
    pub fn lt(&self, other: &Ratio) -> (r: bool)
        requires
            ratio_wf(*self),
            ratio_wf(*other),
        ensures
            r == ratio_lt(*self, *other),
    {
        let do_ = pow10_u64(other.scale);
        let ds = pow10_u64(self.scale);
        proof {
            lemma_pow10_vals();
            lemma_pow10_mono(self.scale as nat, 9);
            lemma_pow10_mono(other.scale as nat, 9);
            lemma_pow10_mono(0, self.scale as nat);
            lemma_pow10_mono(0, other.scale as nat);
            lemma_mul_bound_i64_pow9(self.num as int, ratio_den(*other) as int);
            lemma_mul_bound_i64_pow9(other.num as int, ratio_den(*self) as int);
        }
        let lhs: i128 = (self.num as i128) * (do_ as i128);
        let rhs: i128 = (other.num as i128) * (ds as i128);
        lhs < rhs
    }

    /// Whether `self` and `other` denote the same rational number.
    pub fn eq_val(&self, other: &Ratio) -> (r: bool)
        requires
            ratio_wf(*self),
            ratio_wf(*other),
        ensures
            r == ratio_eq_val(*self, *other),
    {
        let do_ = pow10_u64(other.scale);
        let ds = pow10_u64(self.scale);
        proof {
            lemma_pow10_vals();
            lemma_pow10_mono(self.scale as nat, 9);
            lemma_pow10_mono(other.scale as nat, 9);
            lemma_pow10_mono(0, self.scale as nat);
            lemma_pow10_mono(0, other.scale as nat);
            lemma_mul_bound_i64_pow9(self.num as int, ratio_den(*other) as int);
            lemma_mul_bound_i64_pow9(other.num as int, ratio_den(*self) as int);
        }
        let lhs: i128 = (self.num as i128) * (do_ as i128);
        let rhs: i128 = (other.num as i128) * (ds as i128);
        lhs == rhs
    }
}

/// A product of an `i64` and a factor up to `10^9` stays far inside `i128`.
proof fn lemma_mul_bound_i64_pow9(a: int, d: int)
    requires
        i64::MIN <= a <= i64::MAX,
        1 <= d <= 0x3b9a_ca00,
    ensures
        i128::MIN < a * d < i128::MAX,
{
    assert(i128::MIN < a * d < i128::MAX) by (nonlinear_arith)
        requires
            i64::MIN <= a <= i64::MAX,
            1 <= d <= 0x3b9a_ca00,
    ;
}

// ---------------------------------------------------------------------------
// Serialization
// ---------------------------------------------------------------------------

/// The fractional digits of `m`, zero-padded on the left to `scale` digits.
pub open spec fn frac_digit_bytes(m: nat, scale: nat) -> Seq<u8> {
    Seq::new((scale - dec_digits(m).len()) as nat, |_i: int| ZERO_DIGIT) + dec_digits(m)
}

/// The decimal text of a ratio: plain digits at scale zero, otherwise a
/// `.` with exactly `scale` fractional digits.
pub open spec fn ratio_bytes(r: Ratio) -> Seq<u8> {
    if r.scale == 0 {
        int_bytes(r.num as int)
    } else {
        let mag = if r.num < 0 {
            (-(r.num as int)) as nat
        } else {
            r.num as nat
        };
        let ip = mag / ratio_den(r);
        let fp = mag % ratio_den(r);
        let sign: Seq<u8> = if r.num < 0 {
            seq![MINUS]
        } else {
            Seq::<u8>::empty()
        };
        sign + dec_digits(ip) + seq![DOT] + frac_digit_bytes(fp, r.scale as nat)
    }
}

// ---------------------------------------------------------------------------
// Parsing
// ---------------------------------------------------------------------------

/// The exponent of a decimal's `e` suffix; exponents beyond what any
/// well-formed ratio could absorb are rejected outright.
pub open spec fn parse_exp_spec(s: Seq<u8>) -> Option<int> {
    match parse_i64_spec(s) {
        Some(e) => if -18 <= e <= 18 {
            Some(e as int)
        } else {
            None
        },
        None => None,
    }
}

/// The ratio denoted by a signed digit string with an optional fraction,
/// scaled by `10^e`: integral digits, then optionally `.` and fraction
/// digits. `None` when malformed, when the scale would exceed `10^9`, or
/// when the numerator would not fit an `i64`. Fractions deeper than nine
/// digits after absorbing the exponent are truncated toward zero.
pub open spec fn parse_mantissa_spec(m: Seq<u8>, e: int) -> Option<Ratio> {
    if m.len() == 0 {
        None
    } else {
        let neg = m[0] == MINUS;
        let t = if m[0] == MINUS || m[0] == PLUS {
            m.skip(1)
        } else {
            m
        };
        let dparts = split_on(t, DOT);
        if dparts.len() > 2 {
            None
        } else {
            let ip = dparts[0];
            let fp = if dparts.len() == 2 {
                dparts[1]
            } else {
                Seq::<u8>::empty()
            };
            if ip.len() >= 1 && all_digits(ip) && all_digits(fp) {
                let digits = ip + fp;
                let j = fp.len() - e;
                if j < 0 {
                    let v = dec_val(digits) * pow10((-j) as nat);
                    if v <= i64::MAX {
                        Some(
                            Ratio {
                                num: (if neg {
                                    -(v as int)
                                } else {
                                    v as int
                                }) as i64,
                                scale: 0,
                            },
                        )
                    } else {
                        None
                    }
                } else if j <= 9 {
                    let v = dec_val(digits);
                    if v <= i64::MAX {
                        Some(
                            Ratio {
                                num: (if neg {
                                    -(v as int)
                                } else {
                                    v as int
                                }) as i64,
                                scale: j as u32,
                            },
                        )
                    } else {
                        None
                    }
                } else {
                    // a deeper fraction is truncated toward zero to nine
                    // fractional digits
                    let v = dec_val(digits);
                    if v <= u64::MAX {
                        let q = v / pow10((j - 9) as nat);
                        if q <= i64::MAX {
                            Some(
                                Ratio {
                                    num: (if neg {
                                        -(q as int)
                                    } else {
                                        q as int
                                    }) as i64,
                                    scale: 9,
                                },
                            )
                        } else {
                            None
                        }
                    } else {
                        None
                    }
                }
            } else {
                None
            }
        }
    }
}

/// The ratio denoted by decimal text, optionally with an `e` exponent.
pub open spec fn parse_ratio_spec(s: Seq<u8>) -> Option<Ratio> {
    let eparts = split_on(s, EXP_MARK);
    if eparts.len() == 1 {
        parse_mantissa_spec(s, 0)
    } else if eparts.len() == 2 {
        match parse_exp_spec(eparts[1]) {
            Some(e) => parse_mantissa_spec(eparts[0], e),
            None => None,
        }
    } else {
        None
    }
}

fn parse_mantissa(m: &Vec<u8>, e: i64) -> (r: Option<Ratio>)
    requires
        -18 <= e <= 18,
    ensures
        r == parse_mantissa_spec(m@, e as int),
        r matches Some(q) ==> ratio_wf(q),
{
    if m.len() == 0 {
        return None;
    }
    let neg = m[0] == MINUS;
    let start: usize = if m[0] == MINUS || m[0] == PLUS {
        1
    } else {
        0
    };
    let ghost t = if m@[0] == MINUS || m@[0] == PLUS {
        m@.skip(1)
    } else {
        m@
    };
    proof {
        if !(m@[0] == MINUS || m@[0] == PLUS) {
            assert(m@.skip(0) == m@);
        }
    }
    let dparts = crate::text::split_bytes_from(m, start, DOT);
    proof {
        crate::text::lemma_split_len(t, DOT);
    }
    if dparts.len() > 2 {
        return None;
    }
    let ip = &dparts[0];
    proof {
        assert(ip@ == split_on(t, DOT)[0]);
    }
    // the integral part must be nonempty digits
    if ip.len() == 0 {
        return None;
    }
    let mut digits: Vec<u8> = Vec::new();
    crate::text::append_bytes(&mut digits, ip);
    let mut ok = true;
    let n0 = digits.len();
    for i in 0..n0
        invariant
            n0 == digits@.len(),
            digits@ == split_on(t, DOT)[0],
            ok == all_digits(digits@.subrange(0, i as int)),
        decreases n0 - i,
    {
        let good = 48 <= digits[i] && digits[i] <= 57;
        proof {
            assert(digits@.subrange(0, i + 1).drop_last() == digits@.subrange(0, i as int));
            assert(digits@.subrange(0, i + 1).last() == digits@[i as int]);
            assert(all_digits(digits@.subrange(0, i + 1)) == (all_digits(
                digits@.subrange(0, i as int),
            ) && crate::text::is_digit(digits@[i as int]))) by {
                let a = digits@.subrange(0, i as int);
                let b = digits@.subrange(0, i + 1);
                assert(forall|x: int| 0 <= x < a.len() ==> a[x] == #[trigger] b[x]);
                if all_digits(a) && crate::text::is_digit(digits@[i as int]) {
                    assert(forall|x: int|
                        0 <= x < b.len() ==> crate::text::is_digit(#[trigger] b[x]));
                }
            }
        }
        ok = ok && good;
    }
    proof {
        assert(digits@.subrange(0, n0 as int) == digits@);
    }
    if !ok {
        return None;
    }
    let ghost spec_fp = if split_on(t, DOT).len() == 2 {
        split_on(t, DOT)[1]
    } else {
        Seq::<u8>::empty()
    };
    let fp_len: usize;
    if dparts.len() == 2 {
        let fp = &dparts[1];
        proof {
            assert(fp@ == split_on(t, DOT)[1]);
        }
        fp_len = fp.len();
        let nf = fp.len();
        let mut okf = true;
        for i in 0..nf
            invariant
                nf == fp@.len(),
                fp@ == split_on(t, DOT)[1],
                okf == all_digits(fp@.subrange(0, i as int)),
            decreases nf - i,
        {
            let good = 48 <= fp[i] && fp[i] <= 57;
            proof {
                let a = fp@.subrange(0, i as int);
                let b = fp@.subrange(0, i + 1);
                assert(b.drop_last() == a);
                assert(b.last() == fp@[i as int]);
                assert(all_digits(b) == (all_digits(a) && crate::text::is_digit(fp@[i as int])))
                    by {
                    assert(forall|x: int| 0 <= x < a.len() ==> a[x] == #[trigger] b[x]);
                    if all_digits(a) && crate::text::is_digit(fp@[i as int]) {
                        assert(forall|x: int|
                            0 <= x < b.len() ==> crate::text::is_digit(#[trigger] b[x]));
                    }
                }
            }
            okf = okf && good;
        }
        proof {
            assert(fp@.subrange(0, nf as int) == fp@);
        }
        if !okf {
            return None;
        }
        crate::text::append_bytes(&mut digits, fp);
    } else {
        fp_len = 0;
        proof {
            assert(digits@ + spec_fp == digits@);
        }
    }
    proof {
        assert(digits@ == split_on(t, DOT)[0] + spec_fp);
        assert(all_digits(digits@)) by {
            let a = split_on(t, DOT)[0];
            let b = spec_fp;
            assert(forall|x: int| 0 <= x < a.len() ==> digits@[x] == #[trigger] a[x]);
            assert(forall|x: int| 0 <= x < b.len() ==> digits@[x + a.len()] == #[trigger] b[x]);
            assert(forall|x: int|
                0 <= x < digits@.len() ==> crate::text::is_digit(#[trigger] digits@[x])) by {
                assert forall|x: int|
                    0 <= x < digits@.len() implies crate::text::is_digit(#[trigger] digits@[x]) by {
                    if x < a.len() {
                        assert(crate::text::is_digit(a[x]));
                    } else {
                        assert(crate::text::is_digit(b[x - a.len()]));
                    }
                }
            }
        }
    }
    let v = match crate::text::parse_u64(&digits) {
        Some(v) => v,
        None => {
            // more than an `i64` could hold after any downscaling
            proof {
                assert(dec_val(digits@) > u64::MAX);
                let j = spec_fp.len() - e;
                if j < 0 {
                    lemma_pow10_mono(0, (-j) as nat);
                    assert(dec_val(digits@) * pow10((-j) as nat) >= dec_val(digits@) * 1)
                        by (nonlinear_arith)
                        requires
                            pow10((-j) as nat) >= 1,
                    ;
                }
            }
            return None;
        },
    };
    // net scale after applying the exponent
    proof {
        assert(spec_fp.len() == fp_len);
    }
    let jj: i128 = fp_len as i128 - e as i128;
    if jj < 0 {
        let k = (-jj) as u32;
        let p10 = pow10_u64(k);
        proof {
            lemma_pow10_vals();
            lemma_pow10_mono(k as nat, 18);
            lemma_pow10_mono(0, k as nat);
            assert((v as int) * (pow10(k as nat) as int) <= (u64::MAX as int) * (pow10(18) as int))
                by (nonlinear_arith)
                requires
                    0 <= v <= u64::MAX,
                    1 <= pow10(k as nat) <= pow10(18),
            ;
        }
        let scaled: u128 = (v as u128) * (p10 as u128);
        if scaled <= i64::MAX as u128 {
            let num: i64 = if neg {
                -(scaled as i64)
            } else {
                scaled as i64
            };
            Some(Ratio { num, scale: 0 })
        } else {
            None
        }
    } else if jj <= 9 {
        if v <= i64::MAX as u64 {
            let num: i64 = if neg {
                -(v as i64)
            } else {
                v as i64
            };
            Some(Ratio { num, scale: jj as u32 })
        } else {
            None
        }
    } else {
        // truncate toward zero to nine fractional digits
        let k2: i128 = jj - 9;
        let q: u64 = if k2 >= 20 {
            proof {
                lemma_pow10_20_num();
                lemma_pow10_mono(20, k2 as nat);
                assert((v as nat) / pow10(k2 as nat) == 0) by (nonlinear_arith)
                    requires
                        0 <= v as nat,
                        (v as nat) < pow10(k2 as nat),
                ;
            }
            0
        } else {
            let p10 = pow10_u64(k2 as u32);
            proof {
                lemma_pow10_mono(0, k2 as nat);
            }
            v / p10
        };
        if q <= i64::MAX as u64 {
            let num: i64 = if neg {
                -(q as i64)
            } else {
                q as i64
            };
            Some(Ratio { num, scale: 9 })
        } else {
            None
        }
    }
}

/// `10^20` exceeds what a `u64` can hold.
proof fn lemma_pow10_20_num()
    ensures
        pow10(20) == 0x5_6bc7_5e2d_6310_0000,
{
    reveal_with_fuel(pow10, 21);
}

impl Ratio {
    /// The ratio denoted by decimal text.
    pub fn from_bytes(s: &Vec<u8>) -> (r: Option<Ratio>)
        ensures
            r == parse_ratio_spec(s@),
            r matches Some(q) ==> ratio_wf(q),
    {
        let eparts = crate::text::split_bytes(s, EXP_MARK);
        proof {
            crate::text::lemma_split_len(s@, EXP_MARK);
        }
        if eparts.len() == 1 {
            parse_mantissa(s, 0)
        } else if eparts.len() == 2 {
            let exp = &eparts[1];
            proof {
                assert(exp@ == split_on(s@, EXP_MARK)[1]);
            }
            match crate::text::parse_i64(exp) {
                Some(e) => {
                    if -18 <= e && e <= 18 {
                        let mantissa = &eparts[0];
                        proof {
                            assert(mantissa@ == split_on(s@, EXP_MARK)[0]);
                        }
                        parse_mantissa(mantissa, e)
                    } else {
                        None
                    }
                },
                None => None,
            }
        } else {
            None
        }
    }

    /// The ratio denoted by decimal text, from a string.
    pub fn from_text(s: &str) -> (r: Option<Ratio>)
        ensures
            match r {
                Some(q) => crate::strings::all_ascii(s@) && parse_ratio_spec(
                    crate::strings::char_bytes(s@),
                ) == Some(q) && ratio_wf(q),
                None => !crate::strings::all_ascii(s@) || parse_ratio_spec(
                    crate::strings::char_bytes(s@),
                ) is None,
            },
    {
        match crate::strings::str_to_bytes(s) {
            Some(bytes) => Ratio::from_bytes(&bytes),
            None => None,
        }
    }
}

impl Ratio {
    /// The decimal text of this ratio.
    pub fn to_bytes(&self) -> (r: Vec<u8>)
        requires
            ratio_wf(*self),
        ensures
            r@ == ratio_bytes(*self),
    {
        if self.scale == 0 {
            crate::text::i64_to_bytes(self.num)
        } else {
            let den = pow10_u64(self.scale);
            proof {
                lemma_pow10_vals();
                lemma_pow10_mono(1, self.scale as nat);
                lemma_pow10_mono(self.scale as nat, 9);
            }
            let mag: u64 = if self.num < 0 {
                (-(self.num as i128)) as u64
            } else {
                self.num as u64
            };
            let ip = mag / den;
            let fp = mag % den;
            let mut out: Vec<u8> = Vec::new();
            if self.num < 0 {
                out.push(MINUS);
            }
            let ip_digits = crate::text::u64_to_dec(ip);
            crate::text::append_bytes(&mut out, &ip_digits);
            out.push(DOT);
            let fp_digits = crate::text::u64_to_dec(fp);
            proof {
                crate::text::lemma_dec_digits_len_le(fp as nat, self.scale as nat);
                assert(out@ == (if self.num < 0 {
                    seq![MINUS]
                } else {
                    Seq::<u8>::empty()
                }) + dec_digits(ip as nat) + seq![DOT] + Seq::new(0, |_i: int| ZERO_DIGIT));
            }
            let pad = self.scale as usize - fp_digits.len();
            let mut k: usize = 0;
            while k < pad
                invariant
                    k <= pad,
                    pad == self.scale - fp_digits@.len(),
                    fp_digits@ == dec_digits(fp as nat),
                    out@ == (if self.num < 0 {
                        seq![MINUS]
                    } else {
                        Seq::<u8>::empty()
                    }) + dec_digits(ip as nat) + seq![DOT] + Seq::new(k as nat, |_i: int| ZERO_DIGIT),
                decreases pad - k,
            {
                out.push(ZERO_DIGIT);
                proof {
                    assert(Seq::new((k + 1) as nat, |_i: int| ZERO_DIGIT) =~= Seq::new(
                        k as nat,
                        |_i: int| ZERO_DIGIT,
                    ).push(ZERO_DIGIT));
                }
                k += 1;
            }
            crate::text::append_bytes(&mut out, &fp_digits);
            proof {
                assert(out@ =~= ratio_bytes(*self));
            }
            out
        }
    }
}

// ---------------------------------------------------------------------------
// Extended metrics and comparator directions
// ---------------------------------------------------------------------------

/// A metric extended with the two neutral sentinels: the starting parent
/// metric is `PosInf` when minimizing maxima and `NegInf` when maximizing
/// minima.
#[derive(Debug, Clone, Copy, PartialEq, Eq, Structural)]
pub enum ExtMetric {
    NegInf,
    Finite(Ratio),
    PosInf,
}

pub open spec fn ext_wf(m: ExtMetric) -> bool {
    match m {
        ExtMetric::Finite(r) => ratio_wf(r),
        _ => true,
    }
}

/// A well-formed proportion: positive, with numerator and denominator both
/// within `10^9`.
pub open spec fn prop_wf(p: Ratio) -> bool {
    0 < p.num <= 0x3b9a_ca00 && p.scale <= 9
}

/// `m > p * parent`: the admissibility direction when maximizing minima.
/// A positive proportion keeps the sign of an infinite parent.
pub open spec fn improves_above(m: Ratio, p: Ratio, parent: ExtMetric) -> bool {
    match parent {
        ExtMetric::NegInf => true,
        ExtMetric::PosInf => false,
        ExtMetric::Finite(q) => m.num * ratio_den(p) * ratio_den(q) > p.num * q.num * ratio_den(m),
    }
}

/// `m < p * parent`: the admissibility direction when minimizing maxima.
pub open spec fn improves_below(m: Ratio, p: Ratio, parent: ExtMetric) -> bool {
    match parent {
        ExtMetric::NegInf => false,
        ExtMetric::PosInf => true,
        ExtMetric::Finite(q) => m.num * ratio_den(p) * ratio_den(q) < p.num * q.num * ratio_den(m),
    }
}

/// Three factors bounded by an `i64` and twice `10^9` stay inside `i128`.
proof fn lemma_mul3_bound(a: int, b: int, c: int)
    requires
        i64::MIN <= a <= i64::MAX,
        0 <= b <= 0x3b9a_ca00,
        0 <= c <= 0x3b9a_ca00,
    ensures
        i128::MIN < a * b * c < i128::MAX,
{
    assert(i128::MIN < a * b * c < i128::MAX) by (nonlinear_arith)
        requires
            i64::MIN <= a <= i64::MAX,
            0 <= b <= 0x3b9a_ca00,
            0 <= c <= 0x3b9a_ca00,
    ;
}

fn cross_terms(m: &Ratio, p: &Ratio, q: &Ratio) -> (r: (i128, i128))
    requires
        ratio_wf(*m),
        prop_wf(*p),
        ratio_wf(*q),
    ensures
        r.0 == m.num * ratio_den(*p) * ratio_den(*q),
        r.1 == p.num * q.num * ratio_den(*m),
{
    let dp = pow10_u64(p.scale);
    let dq = pow10_u64(q.scale);
    let dm = pow10_u64(m.scale);
    proof {
        lemma_pow10_vals();
        lemma_pow10_mono(p.scale as nat, 9);
        lemma_pow10_mono(q.scale as nat, 9);
        lemma_pow10_mono(m.scale as nat, 9);
        lemma_pow10_mono(0, p.scale as nat);
        lemma_pow10_mono(0, q.scale as nat);
        lemma_pow10_mono(0, m.scale as nat);
        lemma_mul3_bound(m.num as int, ratio_den(*p) as int, ratio_den(*q) as int);
        lemma_mul3_bound(q.num as int, p.num as int, ratio_den(*m) as int);
        lemma_mul_bound_i64_pow9(m.num as int, ratio_den(*p) as int);
        lemma_mul_bound_i64_pow9(q.num as int, p.num as int);
        assert((p.num as i128) * (q.num as i128) == (q.num as i128) * (p.num as i128))
            by (nonlinear_arith);
        assert(q.num * p.num * ratio_den(*m) == p.num * q.num * ratio_den(*m)) by (nonlinear_arith);
        assert((m.num as i128) * (dp as i128) * (dq as i128) == m.num * ratio_den(*p) * ratio_den(
            *q,
        )) by (nonlinear_arith)
            requires
                dp == ratio_den(*p),
                dq == ratio_den(*q),
        ;
    }
    let lhs: i128 = (m.num as i128) * (dp as i128) * (dq as i128);
    let rhs: i128 = (p.num as i128) * (q.num as i128) * (dm as i128);
    proof {
        assert((p.num as i128) * (q.num as i128) * (dm as i128) == p.num * q.num * ratio_den(*m))
            by (nonlinear_arith)
            requires
                dm == ratio_den(*m),
        ;
    }
    (lhs, rhs)
}

/// Whether `m` strictly improves on `p * parent` upward (the `maxmin`
/// admissibility test).
pub fn metric_improves_above(m: &Ratio, p: &Ratio, parent: &ExtMetric) -> (r: bool)
    requires
        ratio_wf(*m),
        prop_wf(*p),
        ext_wf(*parent),
    ensures
        r == improves_above(*m, *p, *parent),
{
    match parent {
        ExtMetric::NegInf => true,
        ExtMetric::PosInf => false,
        ExtMetric::Finite(q) => {
            let (lhs, rhs) = cross_terms(m, p, q);
            lhs > rhs
        },
    }
}

/// Whether `m` strictly improves on `p * parent` downward (the `minmax`
/// admissibility test).
pub fn metric_improves_below(m: &Ratio, p: &Ratio, parent: &ExtMetric) -> (r: bool)
    requires
        ratio_wf(*m),
        prop_wf(*p),
        ext_wf(*parent),
    ensures
        r == improves_below(*m, *p, *parent),
{
    match parent {
        ExtMetric::NegInf => false,
        ExtMetric::PosInf => true,
        ExtMetric::Finite(q) => {
            let (lhs, rhs) = cross_terms(m, p, q);
            lhs < rhs
        },
    }
}

// ---------------------------------------------------------------------------
// Milliseconds
// ---------------------------------------------------------------------------

/// A nonnegative ratio of seconds as whole milliseconds, rounded down and
/// saturating at `u64::MAX`; negative values clamp to zero.
pub open spec fn ratio_millis(r: Ratio) -> nat {
    if r.num < 0 {
        0
    } else {
        let v = (r.num as nat) * 1000 / ratio_den(r);
        if v > u64::MAX {
            u64::MAX as nat
        } else {
            v
        }
    }
}

/// `t` milliseconds scaled by the positive proportion `p`, rounded down
/// and saturating at `u64::MAX`.
pub open spec fn scaled_millis(t: nat, p: Ratio) -> nat {
    let v = t * (p.num as nat) / ratio_den(p);
    if v > u64::MAX {
        u64::MAX as nat
    } else {
        v
    }
}

impl Ratio {
    /// This ratio, read as seconds, in whole milliseconds.
    pub fn to_millis(&self) -> (m: u64)
        requires
            ratio_wf(*self),
        ensures
            m as nat == ratio_millis(*self),
    {
        if self.num < 0 {
            return 0;
        }
        let den = pow10_u64(self.scale);
        proof {
            lemma_pow10_vals();
            lemma_pow10_mono(0, self.scale as nat);
            lemma_pow10_mono(self.scale as nat, 9);
            assert((self.num as int) * 1000 <= (i64::MAX as int) * 1000) by (nonlinear_arith)
                requires
                    0 <= self.num <= i64::MAX,
            ;
        }
        let scaled: u128 = (self.num as u128) * 1000u128;
        let v = scaled / (den as u128);
        if v > u64::MAX as u128 {
            u64::MAX
        } else {
            v as u64
        }
    }
}

/// `t` milliseconds scaled by the positive proportion `p`.
pub fn scale_millis(t: u64, p: &Ratio) -> (r: u64)
    requires
        prop_wf(*p),
    ensures
        r as nat == scaled_millis(t as nat, *p),
{
    let den = pow10_u64(p.scale);
    proof {
        lemma_pow10_vals();
        lemma_pow10_mono(0, p.scale as nat);
        lemma_pow10_mono(p.scale as nat, 9);
        assert((t as int) * (p.num as int) <= (u64::MAX as int) * 0x3b9a_ca00) by (nonlinear_arith)
            requires
                0 <= t <= u64::MAX,
                0 <= p.num <= 0x3b9a_ca00,
        ;
    }
    let scaled: u128 = (t as u128) * (p.num as u128);
    let v = scaled / (den as u128);
    if v > u64::MAX as u128 {
        u64::MAX
    } else {
        v as u64
    }
}


/// `<=` on ratios (the negation of `ratio_lt` the other way) chains.
pub proof fn lemma_ratio_le_trans(a: Ratio, b: Ratio, c: Ratio)
    requires
        ratio_wf(a),
        ratio_wf(b),
        ratio_wf(c),
        !ratio_lt(b, a),
        !ratio_lt(c, b),
    ensures
        !ratio_lt(c, a),
{
    lemma_pow10_vals();
    lemma_pow10_mono(0, a.scale as nat);
    lemma_pow10_mono(0, b.scale as nat);
    lemma_pow10_mono(0, c.scale as nat);
    assert(a.num * ratio_den(c) <= c.num * ratio_den(a)) by (nonlinear_arith)
        requires
            a.num * ratio_den(b) <= b.num * ratio_den(a),
            b.num * ratio_den(c) <= c.num * ratio_den(b),
            ratio_den(a) >= 1,
            ratio_den(b) >= 1,
            ratio_den(c) >= 1,
    ;
}


/// Every byte of a ratio's decimal text is ASCII.
pub proof fn lemma_ratio_bytes_ascii(r: Ratio)
    ensures
        forall|i: int| 0 <= i < ratio_bytes(r).len() ==> (#[trigger] ratio_bytes(r)[i]) < 128,
{
    let s = ratio_bytes(r);
    if r.scale == 0 {
        if r.num < 0 {
            lemma_dec_digits_props((-(r.num as int)) as nat);
            assert forall|i: int| 0 <= i < s.len() implies (#[trigger] s[i]) < 128 by {
                if i == 0 {
                } else {
                    assert(s[i] == dec_digits((-(r.num as int)) as nat)[i - 1]);
                    assert(crate::text::is_digit(s[i]));
                }
            }
        } else {
            lemma_dec_digits_props(r.num as nat);
            assert forall|i: int| 0 <= i < s.len() implies (#[trigger] s[i]) < 128 by {
                assert(crate::text::is_digit(s[i]));
            }
        }
    } else {
        let mag = if r.num < 0 {
            (-(r.num as int)) as nat
        } else {
            r.num as nat
        };
        let ip = mag / ratio_den(r);
        let fp = mag % ratio_den(r);
        let sign: Seq<u8> = if r.num < 0 {
            seq![MINUS]
        } else {
            Seq::<u8>::empty()
        };
        lemma_dec_digits_props(ip);
        lemma_dec_digits_props(fp);
        let a = sign + dec_digits(ip);
        let b = frac_digit_bytes(fp, r.scale as nat);
        lemma_pow10_mono(0, r.scale as nat);
        lemma_pow10_mono(1, r.scale as nat);
        lemma_pow10_vals();
        assert(fp < ratio_den(r));
        crate::text::lemma_dec_digits_len_le(fp, r.scale as nat);
        assert(s == a + seq![DOT] + b);
        assert forall|i: int| 0 <= i < s.len() implies (#[trigger] s[i]) < 128 by {
            if i < a.len() {
                assert(s[i] == a[i]);
                if r.num < 0 {
                    if i > 0 {
                        assert(a[i] == dec_digits(ip)[i - 1]);
                        assert(crate::text::is_digit(a[i]));
                    }
                } else {
                    assert(a[i] == dec_digits(ip)[i]);
                    assert(crate::text::is_digit(a[i]));
                }
            } else if i == a.len() {
                assert(s[i] == DOT);
            } else {
                assert(s[i] == b[i - a.len() - 1]);
                let pad = (r.scale as nat - dec_digits(fp).len()) as int;
                if i - a.len() - 1 < pad {
                    assert(b[i - a.len() - 1] == ZERO_DIGIT);
                } else {
                    assert(b[i - a.len() - 1] == dec_digits(fp)[i - a.len() - 1 - pad]);
                    assert(crate::text::is_digit(b[i - a.len() - 1]));
                }
            }
        }
    }
}


} // verus!
