//! Texture coordinates written in decimal, kept exactly as their digits.
//!
//! A coordinate is read as `str::parse::<f32>` reads it (a sign, digits with an
//! optional point, an optional exponent, or `inf`, `infinity`, `nan`), but its
//! value is kept exact, and its pixel position is the exact product rounded down.
use vstd::prelude::*;
use crate::text::{all_digits, ascii_lower, eq_ignore_ascii_case, lemma_rfind_bounds, lower_char, rfind};
use crate::scan::rfind_in;

verus! {

/// Whether a coordinate is a number, an infinity or not a number.
#[derive(Debug, Clone, Copy, PartialEq, Eq)]
pub enum CoordKind {
    Number,
    Infinity,
    NotANumber,
}

/// A coordinate in normalised texture space, as written: its kind, its sign,
/// the digits before the decimal point and after it, and the sign and digits
/// of its power-of-ten exponent (each digit 0 to 9).
#[derive(Debug, PartialEq, Eq)]
pub struct UvCoord {
    pub kind: CoordKind,
    pub negative: bool,
    pub whole: Vec<u8>,
    pub fraction: Vec<u8>,
    pub exponent_negative: bool,
    pub exponent: Vec<u8>,
}

/// (kind, negative, whole digits, fraction digits, exponent negative, exponent digits)
pub type CoordView = (CoordKind, bool, Seq<u8>, Seq<u8>, bool, Seq<u8>);

pub open spec fn digits_value(d: Seq<u8>) -> nat
    decreases d.len(),
{
    if d.len() == 0 {
        0
    } else {
        digits_value(d.drop_last()) * 10 + d.last() as nat
    }
}

pub open spec fn pow10(n: nat) -> nat
    decreases n,
{
    if n == 0 {
        1
    } else {
        10 * pow10((n - 1) as nat)
    }
}

pub open spec fn are_digits(d: Seq<u8>) -> bool {
    forall|i: int| 0 <= i < d.len() ==> #[trigger] d[i] < 10
}

/// Position along an axis of `extent` pixels: the coordinate times `extent`,
/// rounded down, and held to the range of `u32` (a negative coordinate gives 0).
pub open spec fn scaled_floor(negative: bool, whole: Seq<u8>, fraction: Seq<u8>, extent: nat) -> nat {
    if negative {
        0
    } else {
        let v = (digits_value(whole + fraction) * extent) / pow10(fraction.len());
        if v > u32::MAX {
            u32::MAX as nat
        } else {
            v
        }
    }
}

pub open spec fn digit_value(c: char) -> u8 {
    (c as u32 - '0' as u32) as u8
}

pub open spec fn digit_seq(t: Seq<char>) -> Seq<u8> {
    t.map_values(|c: char| digit_value(c))
}

pub open spec fn sign_len(s: Seq<char>) -> int {
    if s.len() > 0 && (s[0] == '+' || s[0] == '-') {
        1
    } else {
        0
    }
}

/// The digits before and after the point of a mantissa: digits with an
/// optional point, and at least one digit in all.
pub open spec fn mantissa_of(m: Seq<char>) -> Option<(Seq<u8>, Seq<u8>)> {
    let d = rfind(m, '.');
    let whole = if d >= 0 {
        m.take(d)
    } else {
        m
    };
    let frac = if d >= 0 {
        m.skip(d + 1)
    } else {
        Seq::empty()
    };
    if all_digits(whole) && all_digits(frac) && whole.len() + frac.len() > 0 {
        Some((digit_seq(whole), digit_seq(frac)))
    } else {
        None
    }
}

/// Position of the `e` or `E` that starts an exponent, or -1.
pub open spec fn exponent_mark(body: Seq<char>) -> int {
    let a = rfind(body, 'e');
    let b = rfind(body, 'E');
    if a > b {
        a
    } else {
        b
    }
}

pub open spec fn word_inf() -> Seq<char> {
    seq!['i', 'n', 'f']
}

pub open spec fn word_infinity() -> Seq<char> {
    seq!['i', 'n', 'f', 'i', 'n', 'i', 't', 'y']
}

pub open spec fn word_nan() -> Seq<char> {
    seq!['n', 'a', 'n']
}

/// The number that `s` spells, in the grammar of `str::parse::<f32>`: an
/// optional sign, then `inf`, `infinity` or `nan` in any case, or a mantissa
/// (digits with an optional point, at least one digit) with an optional
/// exponent (`e` or `E`, an optional sign, one or more digits).
pub open spec fn decimal_of(s: Seq<char>) -> Option<CoordView> {
    let neg = sign_len(s) == 1 && s[0] == '-';
    let body = s.skip(sign_len(s));
    let none = Seq::<u8>::empty();
    if eq_ignore_ascii_case(body, word_inf()) || eq_ignore_ascii_case(body, word_infinity()) {
        Some((CoordKind::Infinity, neg, none, none, false, none))
    } else if eq_ignore_ascii_case(body, word_nan()) {
        Some((CoordKind::NotANumber, neg, none, none, false, none))
    } else {
        number_of(body, neg)
    }
}

/// A mantissa with an optional exponent.
pub open spec fn number_of(body: Seq<char>, neg: bool) -> Option<CoordView> {
    let none = Seq::<u8>::empty();
    let p = exponent_mark(body);
    let mant = if p >= 0 {
        body.take(p)
    } else {
        body
    };
    match mantissa_of(mant) {
        None => None,
        Some(wf) => if p < 0 {
            Some((CoordKind::Number, neg, wf.0, wf.1, false, none))
        } else {
            let ex = body.skip(p + 1);
            let digits = ex.skip(sign_len(ex));
            if digits.len() > 0 && all_digits(digits) {
                Some(
                    (
                        CoordKind::Number,
                        neg,
                        wf.0,
                        wf.1,
                        sign_len(ex) == 1 && ex[0] == '-',
                        digit_seq(digits),
                    ),
                )
            } else {
                None
            }
        },
    }
}

impl View for UvCoord {
    type V = CoordView;

    open spec fn view(&self) -> CoordView {
        (self.kind, self.negative, self.whole@, self.fraction@, self.exponent_negative, self.exponent@)
    }
}

pub open spec fn zeros(n: nat) -> Seq<u8> {
    Seq::new(n, |i: int| 0u8)
}

pub open spec fn signed_exponent(negative: bool, e: Seq<u8>) -> int {
    if negative {
        -digits_value(e)
    } else {
        digits_value(e) as int
    }
}

/// The digits before and after the point once the point is moved by the exponent.
pub open spec fn shifted(whole: Seq<u8>, fraction: Seq<u8>, eneg: bool, e: Seq<u8>) -> (Seq<u8>, Seq<u8>) {
    let d = whole + fraction;
    let s = signed_exponent(eneg, e) - fraction.len();
    if s >= 0 {
        (d + zeros(s as nat), Seq::empty())
    } else if -s <= d.len() {
        (d.take(d.len() + s), d.skip(d.len() + s))
    } else {
        (Seq::empty(), zeros((-s - d.len()) as nat) + d)
    }
}

/// Position of a coordinate on an axis of `extent` pixels, as a saturating
/// conversion to `u32` of the product: not a number gives 0, an infinity the
/// largest value when positive and the extent is not 0, else 0.
pub open spec fn coord_pixel(c: CoordView, extent: nat) -> nat {
    match c.0 {
        CoordKind::NotANumber => 0,
        CoordKind::Infinity => if c.1 || extent == 0 {
            0
        } else {
            u32::MAX as nat
        },
        CoordKind::Number => {
            let sh = shifted(c.2, c.3, c.4, c.5);
            scaled_floor(c.1, sh.0, sh.1, extent)
        },
    }
}

impl UvCoord {
    pub open spec fn wf(&self) -> bool {
        are_digits(self.whole@) && are_digits(self.fraction@) && are_digits(self.exponent@)
    }

    /// A copy of this coordinate.
    pub fn duplicate(&self) -> (r: UvCoord)
        ensures
            r@ == self@,
            r.wf() == self.wf(),
    {
        UvCoord {
            kind: self.kind,
            negative: self.negative,
            whole: self.whole.clone(),
            fraction: self.fraction.clone(),
            exponent_negative: self.exponent_negative,
            exponent: self.exponent.clone(),
        }
    }

    /// The pixel position of this coordinate on an axis of `extent` pixels.
    pub fn to_pixel(&self, extent: u32) -> (r: u32)
        requires
            self.wf(),
        ensures
            r as nat == coord_pixel(self@, extent as nat),
    {
        match self.kind {
            CoordKind::NotANumber => {
                return 0;
            },
            CoordKind::Infinity => {
                return if self.negative || extent == 0 {
                    0
                } else {
                    0xFFFF_FFFF
                };
            },
            CoordKind::Number => {},
        }
        let ghost sh = shifted(self.whole@, self.fraction@, self.exponent_negative, self.exponent@);
        if self.negative {
            return 0;
        }
        let mut d: Vec<u8> = Vec::new();
        append_digits(&mut d, &self.whole);
        append_digits(&mut d, &self.fraction);
        assert(d@ =~= self.whole@ + self.fraction@);
        let cap: u128 = 0x40_0000_0000_0000_0000;
        let e = capped_value(&self.exponent, cap);
        let ghost ev = digits_value(self.exponent@);
        let f = self.fraction.len() as u128;
        let m = d.len() as u128;
        let empty: Vec<u8> = Vec::new();
        if !self.exponent_negative && e >= f {
            let s = e - f;
            if s <= 10 {
                assert(e == ev);
                push_zeros(&mut d, s as usize);
                assert(sh.0 =~= d@ && sh.1 =~= empty@);
                scaled_pixel(false, &d, &empty, extent)
            } else {
                let zero = all_zero(&d);
                proof {
                    lemma_saturates(d@, (ev - f) as nat, extent as nat);
                    lemma_zero_digits(d@);
                }
                if extent == 0 || zero {
                    0
                } else {
                    0xFFFF_FFFF
                }
            }
        } else {
            let k: u128 = if self.exponent_negative {
                e + f
            } else {
                f - e
            };
            assert(e < cap ==> e == ev);
            if k <= m {
                let cut = (m - k) as usize;
                let mut before: Vec<u8> = Vec::new();
                let mut after: Vec<u8> = Vec::new();
                append_range(&mut before, &d, 0, cut);
                append_range(&mut after, &d, cut, d.len());
                assert(before@ =~= sh.0 && after@ =~= sh.1);
                scaled_pixel(false, &before, &after, extent)
            } else if k <= m + 10 {
                let mut after: Vec<u8> = Vec::new();
                push_zeros(&mut after, (k - m) as usize);
                append_digits(&mut after, &d);
                assert(after@ =~= sh.1 && empty@ =~= sh.0);
                scaled_pixel(false, &empty, &after, extent)
            } else {
                proof {
                    let j = (-(signed_exponent(self.exponent_negative, self.exponent@) - f) - m) as nat;
                    lemma_vanishes(d@, j, extent as nat);
                }
                0
            }
        }
    }
}

/// The pixel position of the number with digits `whole`.`fraction` on an axis
/// of `extent` pixels.
fn scaled_pixel(negative: bool, whole: &Vec<u8>, fraction: &Vec<u8>, extent: u32) -> (r: u32)
    requires
        are_digits(whole@),
        are_digits(fraction@),
    ensures
        r as nat == scaled_floor(negative, whole@, fraction@, extent as nat),
{
    if negative {
        return 0;
    }
    let ghost w = extent as nat;
    let cap: u64 = 0x1_0000_0000;
    // The whole part, held at `cap` once it reaches it.
    let mut acc: u64 = 0;
    let mut i: usize = 0;
    while i < whole.len()
        invariant
            i <= whole.len(),
            are_digits(whole@),
            acc <= cap,
            cap == 0x1_0000_0000,
            acc as nat == if digits_value(whole@.take(i as int)) >= cap {
                cap as nat
            } else {
                digits_value(whole@.take(i as int))
            },
        decreases whole.len() - i,
    {
        assert(whole@.take(i + 1).drop_last() =~= whole@.take(i as int));
        let d = whole[i] as u64;
        assert(whole@[i as int] < 10);
        acc = acc * 10 + d;
        if acc > cap {
            acc = cap;
        }
        i += 1;
    }
    assert(whole@.take(whole.len() as int) =~= whole@);
    // The fraction part times `extent`, rounded down, from the last digit back.
    let n = fraction.len();
    let mut r: u64 = 0;
    let mut k: usize = n;
    proof {
        assert(fraction@.skip(n as int) =~= Seq::<u8>::empty());
        assert(digits_value(Seq::<u8>::empty()) == 0);
        assert(pow10(0) == 1);
    }
    while k > 0
        invariant
            k <= n == fraction.len(),
            are_digits(fraction@),
            w == extent as nat,
            r as nat == (digits_value(fraction@.skip(k as int)) * w) / pow10((n - k) as nat),
            r <= extent,
        decreases k,
    {
        let d = fraction[k - 1] as u64;
        proof {
            let f = fraction@;
            let p = pow10((n - k) as nat);
            let v = digits_value(f.skip(k as int));
            assert(f.skip(k - 1) =~= seq![f[k - 1]] + f.skip(k as int));
            lemma_digits_concat(seq![f[k - 1]], f.skip(k as int));
            assert(digits_value(seq![f[k - 1]]) == f[k - 1] as nat) by {
                assert(seq![f[k - 1]].drop_last() =~= Seq::<u8>::empty());
                assert(seq![f[k - 1]].last() == f[k - 1]);
                assert(digits_value(Seq::<u8>::empty()) == 0);
            }
            assert(pow10(0) == 1);
            assert(f[k - 1] < 10);
            lemma_pow10_positive((n - k) as nat);
            lemma_digits_bound(f.skip(k as int));
            lemma_scaled_step(d as nat, v, w, p);
            assert(pow10((n - k + 1) as nat) == 10 * p);
        }
        r = (d * (extent as u64) + r) / 10;
        k -= 1;
    }
    assert(fraction@.skip(0) =~= fraction@);
    proof {
        let p = pow10(n as nat);
        let big = digits_value(whole@);
        let f = digits_value(fraction@);
        lemma_digits_concat(whole@, fraction@);
        lemma_pow10_positive(n as nat);
        lemma_split_whole(big, f, w, p);
    }
    proof {
        lemma_cap_agrees(digits_value(whole@), acc as nat, cap as nat, w, r as nat);
    }
    let total = acc * (extent as u64) + r;
    if total > 0xFFFF_FFFF {
        0xFFFF_FFFF
    } else {
        total as u32
    }
}

fn append_digits(v: &mut Vec<u8>, src: &Vec<u8>)
    ensures
        final(v)@ == old(v)@ + src@,
{
    let n = src.len();
    append_range(v, src, 0, n);
    assert(src@.subrange(0, n as int) =~= src@);
}

fn append_range(v: &mut Vec<u8>, src: &Vec<u8>, lo: usize, hi: usize)
    requires
        lo <= hi <= src.len(),
    ensures
        final(v)@ == old(v)@ + src@.subrange(lo as int, hi as int),
{
    let ghost start = v@;
    let mut i: usize = lo;
    while i < hi
        invariant
            lo <= i <= hi <= src.len(),
            v@ =~= start + src@.subrange(lo as int, i as int),
        decreases hi - i,
    {
        v.push(src[i]);
        i += 1;
    }
}

fn push_zeros(v: &mut Vec<u8>, n: usize)
    ensures
        final(v)@ == old(v)@ + zeros(n as nat),
{
    let ghost start = v@;
    let mut i: usize = 0;
    while i < n
        invariant
            i <= n,
            v@ =~= start + zeros(i as nat),
        decreases n - i,
    {
        v.push(0);
        i += 1;
    }
}

fn all_zero(d: &Vec<u8>) -> (r: bool)
    ensures
        r == forall|i: int| 0 <= i < d.len() ==> #[trigger] d@[i] == 0,
{
    let mut i: usize = 0;
    while i < d.len()
        invariant
            i <= d.len(),
            forall|j: int| 0 <= j < i ==> #[trigger] d@[j] == 0,
        decreases d.len() - i,
    {
        if d[i] != 0 {
            return false;
        }
        i += 1;
    }
    true
}

/// The value of the digits `d`, held at `cap` once it reaches it.
fn capped_value(d: &Vec<u8>, cap: u128) -> (r: u128)
    requires
        are_digits(d@),
        cap <= 0x10_0000_0000_0000_0000_0000_0000,
    ensures
        r == if digits_value(d@) >= cap {
            cap as nat
        } else {
            digits_value(d@)
        },
{
    let mut acc: u128 = 0;
    let mut i: usize = 0;
    while i < d.len()
        invariant
            i <= d.len(),
            are_digits(d@),
            cap <= 0x10_0000_0000_0000_0000_0000_0000,
            acc <= cap,
            acc as nat == if digits_value(d@.take(i as int)) >= cap {
                cap as nat
            } else {
                digits_value(d@.take(i as int))
            },
        decreases d.len() - i,
    {
        assert(d@.take(i + 1).drop_last() =~= d@.take(i as int));
        assert(d@[i as int] < 10);
        acc = acc * 10 + d[i] as u128;
        if acc > cap {
            acc = cap;
        }
        i += 1;
    }
    assert(d@.take(d.len() as int) =~= d@);
    acc
}

pub proof fn lemma_zeros_value(n: nat)
    ensures
        digits_value(zeros(n)) == 0,
    decreases n,
{
    if n > 0 {
        assert(zeros(n).drop_last() =~= zeros((n - 1) as nat));
        lemma_zeros_value((n - 1) as nat);
    }
}

pub proof fn lemma_pow10_add(a: nat, b: nat)
    ensures
        pow10(a + b) == pow10(a) * pow10(b),
    decreases b,
{
    if b > 0 {
        lemma_pow10_add(a, (b - 1) as nat);
        let pa = pow10(a);
        let pb = pow10((b - 1) as nat);
        assert(pow10(a + b) == 10 * pow10((a + b - 1) as nat));
        assert(10 * (pa * pb) == pa * (10 * pb)) by (nonlinear_arith);
    } else {
        assert(pow10(a) * 1 == pow10(a));
    }
}

proof fn lemma_pow10_exceeds_u32(n: nat)
    requires
        n >= 10,
    ensures
        pow10(n) > u32::MAX,
{
    reveal_with_fuel(pow10, 11);
    assert(pow10(10) == 10_000_000_000nat);
    lemma_pow10_add(10, (n - 10) as nat);
    lemma_pow10_positive((n - 10) as nat);
    let p = pow10((n - 10) as nat);
    assert(10_000_000_000nat * p >= 10_000_000_000nat) by (nonlinear_arith)
        requires
            p >= 1,
    ;
}

pub proof fn lemma_zero_digits(d: Seq<u8>)
    ensures
        (digits_value(d) == 0) == (forall|i: int| 0 <= i < d.len() ==> #[trigger] d[i] == 0),
    decreases d.len(),
{
    if d.len() > 0 {
        let dl = d.drop_last();
        lemma_zero_digits(dl);
        if forall|i: int| 0 <= i < d.len() ==> #[trigger] d[i] == 0 {
            assert forall|i: int| 0 <= i < dl.len() implies #[trigger] dl[i] == 0 by {
                assert(dl[i] == d[i]);
            }
            assert(d.last() == d[d.len() - 1]);
        }
        if digits_value(d) == 0 {
            assert forall|i: int| 0 <= i < d.len() implies #[trigger] d[i] == 0 by {
                if i < d.len() - 1 {
                    assert(dl[i] == d[i]);
                }
            }
        }
    }
}

/// A number at least ten times past its last digit overflows the axis.
proof fn lemma_saturates(d: Seq<u8>, s: nat, w: nat)
    requires
        s > 10,
    ensures
        scaled_floor(false, d + zeros(s), Seq::empty(), w) == if w == 0 || digits_value(d) == 0 {
            0
        } else {
            u32::MAX as nat
        },
{
    lemma_digits_concat(d, zeros(s));
    lemma_zeros_value(s);
    lemma_pow10_exceeds_u32(s);
    assert(pow10(0) == 1);
    let n = digits_value(d);
    let p = pow10(s);
    let x = n * p * w;
    assert(digits_value(d + zeros(s)) * w == x);
    assert(x / 1 == x);
    if w == 0 || n == 0 {
        assert(x == 0) by (nonlinear_arith)
            requires
                w == 0 || n == 0,
                x == n * p * w,
        ;
    } else {
        assert(x >= p) by (nonlinear_arith)
            requires
                w >= 1,
                n >= 1,
                x == n * p * w,
        ;
    }
}

/// A number whose first digit lies more than ten places past the point is
/// below one pixel on any axis.
proof fn lemma_vanishes(d: Seq<u8>, j: nat, w: nat)
    requires
        are_digits(d),
        j > 10,
        w <= u32::MAX,
    ensures
        scaled_floor(false, Seq::empty(), zeros(j) + d, w) == 0,
{
    let z = zeros(j) + d;
    assert(Seq::<u8>::empty() + z =~= z);
    lemma_digits_concat(zeros(j), d);
    lemma_zeros_value(j);
    lemma_digits_bound(d);
    lemma_pow10_exceeds_u32(10);
    lemma_pow10_add(d.len(), 10);
    lemma_pow10_add(d.len() + 10, (j - 10) as nat);
    lemma_pow10_positive((j - 10) as nat);
    lemma_pow10_positive(d.len());
    let n = digits_value(d);
    let pm = pow10(d.len());
    let pt = pow10(10);
    let pj = pow10((j - 10) as nat);
    assert(digits_value(z) == n);
    assert(z.len() == d.len() + 10 + (j - 10));
    assert(n * w < pm * pt * pj) by (nonlinear_arith)
        requires
            n < pm,
            w < pt,
            pj >= 1,
            pm >= 1,
    ;
    vstd::arithmetic::div_mod::lemma_basic_div((n * w) as int, (pm * pt * pj) as int);
}

pub proof fn lemma_pow10_positive(n: nat)
    ensures
        pow10(n) >= 1,
    decreases n,
{
    if n > 0 {
        lemma_pow10_positive((n - 1) as nat);
    }
}

pub proof fn lemma_digits_concat(a: Seq<u8>, b: Seq<u8>)
    ensures
        digits_value(a + b) == digits_value(a) * pow10(b.len()) + digits_value(b),
    decreases b.len(),
{
    if b.len() == 0 {
        assert(a + b =~= a);
        assert(pow10(0) == 1);
        assert(digits_value(a) * 1 == digits_value(a));
    } else {
        assert((a + b).drop_last() =~= a + b.drop_last());
        assert((a + b).last() == b.last());
        lemma_digits_concat(a, b.drop_last());
        let x = digits_value(a);
        let p = pow10(b.drop_last().len());
        let y = digits_value(b.drop_last());
        assert(pow10(b.len()) == 10 * p);
        assert((x * p + y) * 10 == x * (10 * p) + y * 10) by (nonlinear_arith);
        assert(digits_value(a + b) == digits_value(a + b.drop_last()) * 10 + b.last() as nat);
        assert(digits_value(b) == y * 10 + b.last() as nat);
    }
}

pub proof fn lemma_digits_bound(d: Seq<u8>)
    requires
        are_digits(d),
    ensures
        digits_value(d) < pow10(d.len()),
    decreases d.len(),
{
    if d.len() > 0 {
        lemma_digits_bound(d.drop_last());
        let v = digits_value(d.drop_last());
        let p = pow10(d.drop_last().len());
        assert(d.last() < 10);
        assert(v * 10 + 9 < 10 * p) by (nonlinear_arith)
            requires
                v < p,
        ;
    }
}

/// One step of the rounding-down product, taken from the last digit back.
proof fn lemma_scaled_step(d: nat, v: nat, w: nat, p: nat)
    requires
        p >= 1,
        d < 10,
        v < p,
    ensures
        ((d * p + v) * w) / (10 * p) == (d * w + (v * w) / p) / 10,
        (d * w + (v * w) / p) / 10 <= w,
{
    let x = d * w * p + v * w;
    assert((d * p + v) * w == d * w * p + v * w) by (nonlinear_arith);
    vstd::arithmetic::div_mod::lemma_hoist_over_denominator((v * w) as int, (d * w) as int, p);
    assert(v * w + d * w * p == (v * w) as int + (d * w) as int * p) by (nonlinear_arith);
    assert(x >= 0);
    vstd::arithmetic::div_mod::lemma_div_denominator(x as int, p as int, 10);
    assert(p * 10 == 10 * p) by (nonlinear_arith);
    assert((v * w) / p <= w) by {
        assert(v * w <= p * w) by (nonlinear_arith)
            requires
                v < p,
        ;
        vstd::arithmetic::div_mod::lemma_div_is_ordered((v * w) as int, (p * w) as int, p as int);
        vstd::arithmetic::div_mod::lemma_div_multiples_vanish(w as int, p as int);
        assert(p * w == w * p) by (nonlinear_arith);
    }
    assert(d * w <= 9 * w) by (nonlinear_arith)
        requires
            d < 10,
    ;
}

/// Whole and fraction parts scale apart.
proof fn lemma_split_whole(big: nat, f: nat, w: nat, p: nat)
    requires
        p >= 1,
    ensures
        ((big * p + f) * w) / p == big * w + (f * w) / p,
{
    assert((big * p + f) * w == f * w + (big * w) * p) by (nonlinear_arith);
    vstd::arithmetic::div_mod::lemma_hoist_over_denominator((f * w) as int, (big * w) as int, p);
}

/// Holding the whole part at `cap` does not change the clamped result.
proof fn lemma_cap_agrees(big: nat, acc: nat, cap: nat, w: nat, r: nat)
    requires
        cap == 0x1_0000_0000,
        acc == if big >= cap {
            cap
        } else {
            big
        },
        w <= u32::MAX,
        r <= w,
    ensures
        acc * w + r <= u64::MAX,
        (acc * w + r > u32::MAX) == (big * w + r > u32::MAX),
        acc * w + r <= u32::MAX ==> acc * w + r == big * w + r,
{
    if big >= cap {
        if w >= 1 {
            assert(acc * w >= cap) by (nonlinear_arith)
                requires
                    acc == cap,
                    w >= 1,
            ;
            assert(big * w >= cap) by (nonlinear_arith)
                requires
                    big >= cap,
                    w >= 1,
            ;
        } else {
            assert(acc * w == 0 && big * w == 0) by (nonlinear_arith)
                requires
                    w == 0,
            ;
        }
    }
    assert(acc * w <= cap * u32::MAX) by (nonlinear_arith)
        requires
            acc <= cap,
            w <= u32::MAX,
    ;
}

/// The digit values of the range `lo..hi` of `t`, when every character there is a digit.
fn digits_in(t: &Vec<char>, lo: usize, hi: usize) -> (r: Option<Vec<u8>>)
    requires
        lo <= hi <= t.len(),
    ensures
        match r {
            Some(d) => all_digits(t@.subrange(lo as int, hi as int)) && d@ == digit_seq(
                t@.subrange(lo as int, hi as int),
            ) && are_digits(d@),
            None => !all_digits(t@.subrange(lo as int, hi as int)),
        },
{
    let mut d: Vec<u8> = Vec::new();
    let mut i: usize = lo;
    while i < hi
        invariant
            lo <= i <= hi <= t.len(),
            all_digits(t@.subrange(lo as int, i as int)),
            d@ == digit_seq(t@.subrange(lo as int, i as int)),
            are_digits(d@),
        decreases hi - i,
    {
        let c = t[i];
        if !('0' <= c && c <= '9') {
            assert(t@.subrange(lo as int, hi as int)[i - lo] == c);
            return None;
        }
        d.push(((c as u32) - ('0' as u32)) as u8);
        assert(t@.subrange(lo as int, i + 1) =~= t@.subrange(lo as int, i as int).push(c));
        assert(d@ =~= digit_seq(t@.subrange(lo as int, i + 1)));
        i += 1;
    }
    Some(d)
}

/// Whether the range `lo..hi` of `t` is `word`, ignoring ASCII case.
fn range_is_word(t: &Vec<char>, lo: usize, hi: usize, word: &Vec<char>) -> (r: bool)
    requires
        lo <= hi <= t.len(),
    ensures
        r == eq_ignore_ascii_case(t@.subrange(lo as int, hi as int), word@),
{
    if hi - lo != word.len() {
        return false;
    }
    let mut i: usize = 0;
    while i < word.len()
        invariant
            lo <= hi <= t.len(),
            hi - lo == word.len(),
            i <= word.len(),
            forall|j: int| 0 <= j < i ==> ascii_lower(#[trigger] t@.subrange(lo as int, hi as int)[j]) == ascii_lower(word@[j]),
        decreases word.len() - i,
    {
        assert(t@.subrange(lo as int, hi as int)[i as int] == t@[lo + i]);
        if lower_char(t[lo + i]) != lower_char(word[i]) {
            return false;
        }
        i += 1;
    }
    true
}

/// Reads a mantissa from the range `lo..hi` of `t`.
fn parse_mantissa(t: &Vec<char>, lo: usize, hi: usize) -> (r: Option<(Vec<u8>, Vec<u8>)>)
    requires
        lo <= hi <= t.len(),
    ensures
        match r {
            Some(p) => are_digits(p.0@) && are_digits(p.1@) && mantissa_of(
                t@.subrange(lo as int, hi as int),
            ) == Some((p.0@, p.1@)),
            None => mantissa_of(t@.subrange(lo as int, hi as int)) is None,
        },
{
    let ghost body = t@.subrange(lo as int, hi as int);
    proof {
        lemma_rfind_bounds(body, '.');
    }
    let (wlo, whi, flo, fhi) = match rfind_in(t, lo, hi, '.') {
        Some(p) => {
            assert(body.take(p - lo) =~= t@.subrange(lo as int, p as int));
            assert(body.skip(p - lo + 1) =~= t@.subrange(p + 1, hi as int));
            (lo, p, p + 1, hi)
        },
        None => {
            assert(t@.subrange(hi as int, hi as int) =~= Seq::<char>::empty());
            (lo, hi, hi, hi)
        },
    };
    if whi - wlo + (fhi - flo) == 0 {
        return None;
    }
    let whole = match digits_in(t, wlo, whi) {
        Some(d) => d,
        None => {
            return None;
        },
    };
    let fraction = match digits_in(t, flo, fhi) {
        Some(d) => d,
        None => {
            return None;
        },
    };
    Some((whole, fraction))
}

/// Reads the number written in the range `lo..hi` of `t`.
pub fn parse_decimal(t: &Vec<char>, lo: usize, hi: usize) -> (r: Option<UvCoord>)
    requires
        lo <= hi <= t.len(),
    ensures
        match r {
            Some(c) => c.wf() && decimal_of(t@.subrange(lo as int, hi as int)) == Some(c@),
            None => decimal_of(t@.subrange(lo as int, hi as int)) is None,
        },
{
    let ghost s = t@.subrange(lo as int, hi as int);
    let has_sign = lo < hi && (t[lo] == '+' || t[lo] == '-');
    let negative = has_sign && t[lo] == '-';
    let start: usize = if has_sign {
        lo + 1
    } else {
        lo
    };
    let ghost body = t@.subrange(start as int, hi as int);
    assert(s.skip(sign_len(s)) =~= body);
    let inf_word = vec!['i', 'n', 'f'];
    let infinity_word = vec!['i', 'n', 'f', 'i', 'n', 'i', 't', 'y'];
    let nan_word = vec!['n', 'a', 'n'];
    assert(inf_word@ =~= word_inf() && infinity_word@ =~= word_infinity() && nan_word@ =~= word_nan());
    if range_is_word(t, start, hi, &inf_word) || range_is_word(t, start, hi, &infinity_word) {
        return Some(
            UvCoord {
                kind: CoordKind::Infinity,
                negative,
                whole: Vec::new(),
                fraction: Vec::new(),
                exponent_negative: false,
                exponent: Vec::new(),
            },
        );
    }
    if range_is_word(t, start, hi, &nan_word) {
        return Some(
            UvCoord {
                kind: CoordKind::NotANumber,
                negative,
                whole: Vec::new(),
                fraction: Vec::new(),
                exponent_negative: false,
                exponent: Vec::new(),
            },
        );
    }
    parse_number(t, start, hi, negative)
}

/// Reads a mantissa with an optional exponent from the range `start..hi` of `t`.
fn parse_number(t: &Vec<char>, start: usize, hi: usize, negative: bool) -> (r: Option<UvCoord>)
    requires
        start <= hi <= t.len(),
    ensures
        match r {
            Some(c) => c.wf() && number_of(t@.subrange(start as int, hi as int), negative) == Some(c@),
            None => number_of(t@.subrange(start as int, hi as int), negative) is None,
        },
{
    let ghost body = t@.subrange(start as int, hi as int);
    proof {
        lemma_rfind_bounds(body, 'e');
        lemma_rfind_bounds(body, 'E');
    }
    let mark: Option<usize> = match (rfind_in(t, start, hi, 'e'), rfind_in(t, start, hi, 'E')) {
        (Some(a), Some(b)) => Some(if a > b { a } else { b }),
        (Some(a), None) => Some(a),
        (None, Some(b)) => Some(b),
        (None, None) => None,
    };
    let mend: usize = match mark {
        Some(p) => p,
        None => hi,
    };
    match mark {
        Some(p) => {
            assert(exponent_mark(body) == p - start);
            assert(body.take(p - start) =~= t@.subrange(start as int, p as int));
        },
        None => {
            assert(exponent_mark(body) < 0);
        },
    }
    let (whole, fraction) = match parse_mantissa(t, start, mend) {
        Some(m) => m,
        None => {
            return None;
        },
    };
    match mark {
        None => Some(
            UvCoord {
                kind: CoordKind::Number,
                negative,
                whole,
                fraction,
                exponent_negative: false,
                exponent: Vec::new(),
            },
        ),
        Some(p) => {
            let ghost ex = t@.subrange(p + 1, hi as int);
            assert(body.skip(p - start + 1) =~= ex);
            let has_esign = p + 1 < hi && (t[p + 1] == '+' || t[p + 1] == '-');
            let exponent_negative = has_esign && t[p + 1] == '-';
            let dstart: usize = if has_esign {
                p + 2
            } else {
                p + 1
            };
            assert(ex.skip(sign_len(ex)) =~= t@.subrange(dstart as int, hi as int));
            if dstart == hi {
                return None;
            }
            match digits_in(t, dstart, hi) {
                Some(exponent) => Some(
                    UvCoord {
                        kind: CoordKind::Number,
                        negative,
                        whole,
                        fraction,
                        exponent_negative,
                        exponent,
                    },
                ),
                None => None,
            }
        },
    }
}

} // verus!
