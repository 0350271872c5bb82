//! Round-to-nearest binary64 arithmetic on exact decimals: what `f64`
//! makes of a decimal number and of its product with a power of ten.
use vstd::prelude::*;

use crate::numtext::{clamp_usize, lemma_pow10_monotone, lemma_pow10_positive, pow10, shift_decimal};

verus! {

pub open spec fn two_pow(n: nat) -> nat
    decreases n,
{
    if n == 0 {
        1
    } else {
        2 * two_pow((n - 1) as nat)
    }
}

/// The number that the decimal digits `s` write, least significant first.
pub open spec fn le_value(s: Seq<u8>) -> nat
    decreases s.len(),
{
    if s.len() == 0 {
        0
    } else {
        s[0] as nat + 10 * le_value(s.drop_first())
    }
}

pub open spec fn decimal_digits(s: Seq<u8>) -> bool {
    forall|i: int| 0 <= i < s.len() ==> #[trigger] s[i] < 10
}

/// `a / b` rounded to the nearest integer, a tie going to the even one.
pub open spec fn round_half_even(a: nat, b: nat) -> nat {
    let q = a / b;
    let r = a % b;
    if 2 * r > b || (2 * r == b && q % 2 == 1) {
        q + 1
    } else {
        q
    }
}

/// The positive number `num / den` lies in binade `t`: divided by
/// `2^(t - 200)` it is at least `2^52` and below `2^53`, so that a normal
/// `f64` near it is an integer of 53 bits times `2^(t - 200)`.
pub open spec fn in_binade(num: nat, den: nat, t: nat) -> bool {
    &&& two_pow(52) * den * two_pow(t) <= num * two_pow(200)
    &&& num * two_pow(200) < two_pow(53) * den * two_pow(t)
}

pub open spec fn binade(num: nat, den: nat) -> nat {
    choose|t: nat| in_binade(num, den, t)
}

/// The `f64` nearest to `num / den` (a tie going to the even significand),
/// for a number in the range of normal `f64`s that is at least `2^-148`,
/// so that it has a binade `t`: `(q, t)` stands for `q * 2^(t - 200)`,
/// where `2^52 <= q <= 2^53`.
pub open spec fn nearest_double(num: nat, den: nat) -> (nat, nat) {
    let t = binade(num, den);
    (round_half_even(num * two_pow(200), den * two_pow(t)), t)
}

/// `q * 2^k` rounded down to an integer.
pub open spec fn floor_scaled(q: nat, k: int) -> nat {
    if k >= 0 {
        q * two_pow(k as nat)
    } else {
        q / two_pow((-k) as nat)
    }
}

/// `(x * 10^scale) as usize` where `x` is the `f64` nearest to the
/// non-negative number `m * 10^e` and the product is rounded to the
/// nearest `f64` too (`10^scale` itself an `f64` exactly, `scale <= 6`).
/// Below `10^-13` the product stays below one and truncates to 0; from
/// `10^20` on it is past `2^64` and saturates at `usize::MAX`. In between,
/// every value involved is a normal `f64`.
pub open spec fn f64_scaled(m: nat, e: int, scale: nat) -> nat {
    if shift_decimal(m, e + 13) == 0 {
        0
    } else if shift_decimal(m, e - 20) > 0 {
        usize::MAX as nat
    } else {
        let num = if e >= 0 {
            m * pow10(e as nat)
        } else {
            m
        };
        let den = if e >= 0 {
            1
        } else {
            pow10((-e) as nat)
        };
        scaled_from(num, den, scale)
    }
}

/// `(x * 10^scale) as usize` for `x` the `f64` nearest to `num / den`, the
/// product rounded to the nearest `f64`, where every value involved is a
/// normal `f64` below `2^1024`.
pub open spec fn scaled_from(num: nat, den: nat, scale: nat) -> nat {
    let (q, t) = nearest_double(num, den);
    let (q2, t2) = nearest_double(q * pow10(scale), 1);
    clamp_usize(floor_scaled(q2, (t - 200) + (t2 - 200)))
}

/// The digits `dv` with `f` of them after the point stand for `num / den`
/// divided by `2^(t - 200)`.
pub open spec fn tracks(dv: nat, f: nat, t: nat, num: nat, den: nat) -> bool {
    dv * (den * two_pow(t)) == (num * two_pow(200)) * pow10(f)
}

// ---------------------------------------------------------------------------
// Lemmas
pub proof fn lemma_two_pow_positive(n: nat)
    ensures
        two_pow(n) >= 1,
    decreases n,
{
    if n > 0 {
        lemma_two_pow_positive((n - 1) as nat);
    }
}

pub proof fn lemma_two_pow_add(a: nat, b: nat)
    ensures
        two_pow(a + b) == two_pow(a) * two_pow(b),
    decreases a,
{
    if a > 0 {
        lemma_two_pow_add((a - 1) as nat, b);
        assert(two_pow(a + b) == 2 * two_pow((a - 1 + b) as nat));
        assert(2 * (two_pow((a - 1) as nat) * two_pow(b)) == (2 * two_pow((a - 1) as nat)) * two_pow(b))
            by (nonlinear_arith);
    } else {
        assert(two_pow(0) == 1);
        assert(a + b == b);
    }
}

pub proof fn lemma_pow10_add(a: nat, b: nat)
    ensures
        pow10(a + b) == pow10(a) * pow10(b),
    decreases a,
{
    if a > 0 {
        lemma_pow10_add((a - 1) as nat, b);
        assert(pow10(a + b) == 10 * pow10((a - 1 + b) as nat));
        assert(10 * (pow10((a - 1) as nat) * pow10(b)) == (10 * pow10((a - 1) as nat)) * pow10(b))
            by (nonlinear_arith);
    } else {
        assert(pow10(0) == 1);
        assert(a + b == b);
    }
}

proof fn lemma_two_pow_monotone(a: nat, b: nat)
    requires
        a <= b,
    ensures
        two_pow(a) <= two_pow(b),
    decreases b,
{
    if a < b {
        lemma_two_pow_monotone(a, (b - 1) as nat);
        lemma_two_pow_positive((b - 1) as nat);
    }
}

/// Appending a digit at the most significant end.
pub proof fn lemma_le_push(s: Seq<u8>, d: u8)
    ensures
        le_value(s.push(d)) == le_value(s) + d * pow10(s.len()),
    decreases s.len(),
{
    if s.len() == 0 {
        assert(s.push(d).drop_first() =~= Seq::<u8>::empty());
        assert(s.push(d)[0] == d);
        assert(pow10(0) == 1);
        assert(le_value(Seq::<u8>::empty()) == 0);
    } else {
        assert(s.push(d).drop_first() =~= s.drop_first().push(d));
        assert(s.push(d)[0] == s[0]);
        lemma_le_push(s.drop_first(), d);
        assert(pow10(s.len()) == 10 * pow10((s.len() - 1) as nat));
        assert(10 * (le_value(s.drop_first()) + d * pow10((s.len() - 1) as nat)) == 10 * le_value(
            s.drop_first(),
        ) + d * (10 * pow10((s.len() - 1) as nat))) by (nonlinear_arith);
    }
}

proof fn lemma_le_bound(s: Seq<u8>)
    requires
        decimal_digits(s),
    ensures
        le_value(s) < pow10(s.len()),
    decreases s.len(),
{
    if s.len() == 0 {
        assert(pow10(0) == 1);
    } else {
        let rest = s.drop_first();
        assert(decimal_digits(rest)) by {
            assert forall|i: int| 0 <= i < rest.len() implies #[trigger] rest[i] < 10 by {
                assert(rest[i] == s[i + 1]);
            }
        }
        lemma_le_bound(rest);
        assert(s[0] < 10);
        assert(pow10(s.len()) == 10 * pow10(rest.len()));
    }
}

/// Splitting the digits at `f`: the low `f` digits and the rest.
proof fn lemma_le_split(s: Seq<u8>, f: nat)
    requires
        f <= s.len(),
    ensures
        le_value(s) == le_value(s.take(f as int)) + pow10(f) * le_value(s.skip(f as int)),
    decreases f,
{
    if f == 0 {
        assert(s.take(0) =~= Seq::<u8>::empty());
        assert(s.skip(0) =~= s);
        assert(pow10(0) == 1);
    } else {
        let rest = s.drop_first();
        lemma_le_split(rest, (f - 1) as nat);
        assert(s.take(f as int).drop_first() =~= rest.take(f - 1));
        assert(rest.skip(f - 1) =~= s.skip(f as int));
        assert(s.take(f as int)[0] == s[0]);
        let a = le_value(rest.take(f - 1));
        let b = le_value(s.skip(f as int));
        let p = pow10((f - 1) as nat);
        assert(pow10(f) == 10 * p);
        assert(10 * (a + p * b) == 10 * a + (10 * p) * b) by (nonlinear_arith);
    }
}

/// The digits write 0 exactly when each of them is 0.
proof fn lemma_le_zero(s: Seq<u8>)
    ensures
        le_value(s) == 0 <==> forall|i: int| 0 <= i < s.len() ==> #[trigger] s[i] == 0,
    decreases s.len(),
{
    if s.len() > 0 {
        let rest = s.drop_first();
        lemma_le_zero(rest);
        if le_value(s) == 0 {
            assert forall|i: int| 0 <= i < s.len() implies #[trigger] s[i] == 0 by {
                if i > 0 {
                    assert(s[i] == rest[i - 1]);
                }
            }
        }
        if forall|i: int| 0 <= i < s.len() ==> #[trigger] s[i] == 0 {
            assert forall|i: int| 0 <= i < rest.len() implies #[trigger] rest[i] == 0 by {
                assert(rest[i] == s[i + 1]);
            }
            assert(s[0] == 0);
        }
    }
}

/// Two fractions of equal value round alike.
proof fn lemma_round_cross(a: nat, b: nat, c: nat, d: nat)
    requires
        b > 0,
        d > 0,
        a * d == c * b,
    ensures
        round_half_even(a, b) == round_half_even(c, d),
        a / b == c / d,
{
    let q = a / b;
    let r = a % b;
    vstd::arithmetic::div_mod::lemma_fundamental_div_mod(a as int, b as int);
    assert(a == q * b + r);
    assert(0 <= r < b);
    assert(c * b == q * d * b + r * d) by (nonlinear_arith)
        requires
            a * d == c * b,
            a == q * b + r,
    ;
    let r2: int = c - q * d;
    assert(r2 * b == r * d) by (nonlinear_arith)
        requires
            c * b == q * d * b + r * d,
            r2 == c - q * d,
    ;
    assert(r2 >= 0) by (nonlinear_arith)
        requires
            r2 * b == r * d,
            r >= 0,
            d > 0,
            b > 0,
    ;
    assert(r2 < d) by (nonlinear_arith)
        requires
            r2 * b == r * d,
            r < b,
            d > 0,
            b > 0,
    ;
    vstd::arithmetic::div_mod::lemma_fundamental_div_mod_converse(c as int, d as int, q as int, r2);
    assert((2 * r2 > d) == (2 * r > b)) by (nonlinear_arith)
        requires
            r2 * b == r * d,
            d > 0,
            b > 0,
    ;
    assert((2 * r2 == d) == (2 * r == b)) by (nonlinear_arith)
        requires
            r2 * b == r * d,
            d > 0,
            b > 0,
    ;
}

/// A number lies in one binade only.
proof fn lemma_binade_unique(num: nat, den: nat, t1: nat, t2: nat)
    requires
        in_binade(num, den, t1),
        in_binade(num, den, t2),
    ensures
        t1 == t2,
{
    if t1 < t2 {
        lemma_binade_order(num, den, t1, t2);
    } else if t2 < t1 {
        lemma_binade_order(num, den, t2, t1);
    }
}

proof fn lemma_binade_order(num: nat, den: nat, t1: nat, t2: nat)
    requires
        in_binade(num, den, t1),
        t1 < t2,
    ensures
        !in_binade(num, den, t2),
{
    lemma_two_pow_monotone((t1 + 1) as nat, t2);
    assert(two_pow((t1 + 1) as nat) == 2 * two_pow(t1));
    assert(two_pow(53) == 2 * two_pow(52));
    let x = num * two_pow(200);
    assert(two_pow(53) * den * two_pow(t1) == two_pow(52) * den * two_pow((t1 + 1) as nat))
        by (nonlinear_arith)
        requires
            two_pow((t1 + 1) as nat) == 2 * two_pow(t1),
            two_pow(53) == 2 * two_pow(52),
    ;
    assert(two_pow(52) * den * two_pow((t1 + 1) as nat) <= two_pow(52) * den * two_pow(t2))
        by (nonlinear_arith)
        requires
            two_pow((t1 + 1) as nat) <= two_pow(t2),
    ;
}

/// Once a binade is found, it is the one that `binade` names.
proof fn lemma_binade_is(num: nat, den: nat, t: nat)
    requires
        in_binade(num, den, t),
    ensures
        binade(num, den) == t,
{
    let b = binade(num, den);
    assert(in_binade(num, den, b));
    lemma_binade_unique(num, den, b, t);
}

/// The digits `ds` times `c`, one digit longer.
pub fn mul_digits(ds: &Vec<u8>, c: u8) -> (r: Vec<u8>)
    requires
        decimal_digits(ds@),
        1 <= c <= 9,
    ensures
        decimal_digits(r@),
        r@.len() == ds@.len() + 1,
        le_value(r@) == c * le_value(ds@),
{
    let n = ds.len();
    let mut out: Vec<u8> = Vec::new();
    let mut carry: u8 = 0;
    assert(ds@.take(0) =~= Seq::<u8>::empty());
    assert(pow10(0) == 1);
    assert(le_value(Seq::<u8>::empty()) == 0);
    assert(le_value(ds@.take(0)) == 0);
    assert(le_value(out@) + carry * pow10(0) == c * le_value(ds@.take(0)));
    for i in 0..n
        invariant
            n == ds@.len(),
            decimal_digits(ds@),
            1 <= c <= 9,
            out@.len() == i,
            decimal_digits(out@),
            carry < 9,
            le_value(out@) + carry * pow10(i as nat) == c * le_value(ds@.take(i as int)),
    {
        let d = ds[i];
        assert(d < 10);
        assert(c * d <= 81) by (nonlinear_arith)
            requires
                c <= 9,
                d < 10,
        ;
        let x: u8 = c * d + carry;
        let digit = x % 10;
        let next = x / 10;
        proof {
            assert(ds@.take(i + 1) =~= ds@.take(i as int).push(d));
            lemma_le_push(ds@.take(i as int), d);
            lemma_le_push(out@, digit);
            let p = pow10(i as nat);
            assert(pow10((i + 1) as nat) == 10 * p);
            let lo = le_value(out@);
            let lt = le_value(ds@.take(i as int));
            assert(lo + digit * p + next * (10 * p) == c * (lt + d * p)) by (nonlinear_arith)
                requires
                    lo + carry * p == c * lt,
                    x == c * d + carry,
                    digit == x % 10,
                    next == x / 10,
            ;
        }
        let ghost before = out@;
        out.push(digit);
        carry = next;
        assert(decimal_digits(out@)) by {
            assert forall|j: int| 0 <= j < out@.len() implies #[trigger] out@[j] < 10 by {
                if j < i {
                    assert(out@[j] == before[j]);
                }
            }
        }
    }
    assert(ds@.take(n as int) =~= ds@);
    proof {
        lemma_le_push(out@, carry);
    }
    let ghost before = out@;
    out.push(carry);
    assert(decimal_digits(out@)) by {
        assert forall|j: int| 0 <= j < out@.len() implies #[trigger] out@[j] < 10 by {
            if j < n {
                assert(out@[j] == before[j]);
            }
        }
    }
    out
}

pub open spec fn min_of(a: nat, b: nat) -> nat {
    if a <= b {
        a
    } else {
        b
    }
}

/// The digits of `ds` from position `f` on (the integer part when the low
/// `f` digits are the fraction), capped at `2^60`.
pub fn whole_part(ds: &Vec<u8>, f: usize) -> (r: u128)
    requires
        decimal_digits(ds@),
        f <= ds@.len(),
    ensures
        r == min_of(le_value(ds@.skip(f as int)), two_pow(60)),
{
    let cap: u128 = 0x1000_0000_0000_0000;
    proof {
        lemma_two_pow_values();
    }
    let n = ds.len();
    let mut v: u128 = 0;
    let mut i = n;
    assert(ds@.subrange(n as int, n as int) =~= Seq::<u8>::empty());
    while i > f
        invariant
            decimal_digits(ds@),
            n == ds@.len(),
            f <= i <= n,
            cap == two_pow(60),
            cap == 0x1000_0000_0000_0000,
            v == min_of(le_value(ds@.subrange(i as int, n as int)), cap as nat),
        decreases i,
    {
        i = i - 1;
        let d = ds[i];
        assert(d < 10);
        let ghost next = ds@.subrange(i as int, n as int);
        assert(next.drop_first() =~= ds@.subrange(i + 1, n as int));
        assert(next[0] == d);
        let ghost x = le_value(ds@.subrange(i + 1, n as int));
        assert(le_value(next) == d + 10 * x);
        if v >= cap {
            assert(d + 10 * x >= cap);
            v = cap;
        } else {
            let w = d as u128 + 10 * v;
            v = if w > cap {
                cap
            } else {
                w
            };
        }
    }
    assert(ds@.skip(f as int) =~= ds@.subrange(f as int, n as int));
    v
}

/// Whether each of the low `hi` digits is 0.
pub fn low_digits_zero(ds: &Vec<u8>, hi: usize) -> (r: bool)
    requires
        hi <= ds@.len(),
    ensures
        r <==> le_value(ds@.take(hi as int)) == 0,
{
    proof {
        lemma_le_zero(ds@.take(hi as int));
    }
    for i in 0..hi
        invariant
            hi <= ds@.len(),
            forall|j: int| 0 <= j < i ==> #[trigger] ds@[j] == 0,
            le_value(ds@.take(hi as int)) == 0 <==> forall|j: int|
                0 <= j < hi ==> #[trigger] ds@.take(hi as int)[j] == 0,
    {
        if ds[i] != 0 {
            assert(ds@.take(hi as int)[i as int] == ds@[i as int]);
            return false;
        }
    }
    assert forall|j: int| 0 <= j < hi implies #[trigger] ds@.take(hi as int)[j] == 0 by {
        assert(ds@.take(hi as int)[j] == ds@[j]);
    }
    true
}

/// `2^n`.
pub fn two_pow_u128(n: u32) -> (r: u128)
    requires
        n <= 120,
    ensures
        r == two_pow(n as nat),
{
    proof {
        lemma_two_pow_values();
        lemma_two_pow_add(60, 60);
    }
    let mut v: u128 = 1;
    let mut i: u32 = 0;
    while i < n
        invariant
            i <= n <= 120,
            v == two_pow(i as nat),
            two_pow(120) == 0x1000_0000_0000_0000 * 0x1000_0000_0000_0000,
        decreases n - i,
    {
        proof {
            lemma_two_pow_monotone(i as nat, 120);
        }
        v = v * 2;
        i = i + 1;
    }
    v
}

/// `10^n`.
pub fn pow10_u128(n: u32) -> (r: u128)
    requires
        n <= 6,
    ensures
        r == pow10(n as nat),
{
    proof {
        crate::numtext::lemma_pow10_small();
    }
    let mut v: u128 = 1;
    let mut i: u32 = 0;
    while i < n
        invariant
            i <= n <= 6,
            v == pow10(i as nat),
            pow10(6) == 1_000_000,
        decreases n - i,
    {
        proof {
            lemma_pow10_monotone(i as nat, 6);
        }
        v = v * 10;
        i = i + 1;
    }
    v
}

proof fn lemma_whole_frac(ds: Seq<u8>, f: nat)
    requires
        decimal_digits(ds),
        f <= ds.len(),
    ensures
        le_value(ds.skip(f as int)) == le_value(ds) / pow10(f),
        le_value(ds.take(f as int)) == le_value(ds) % pow10(f),
        le_value(ds.take(f as int)) < pow10(f),
{
    lemma_le_split(ds, f);
    let lo = ds.take(f as int);
    assert(decimal_digits(lo)) by {
        assert forall|i: int| 0 <= i < lo.len() implies #[trigger] lo[i] < 10 by {
            assert(lo[i] == ds[i]);
        }
    }
    lemma_le_bound(lo);
    lemma_pow10_positive(f);
    let hi = le_value(ds.skip(f as int));
    assert(pow10(f) * hi == hi * pow10(f)) by (nonlinear_arith);
    vstd::arithmetic::div_mod::lemma_fundamental_div_mod_converse(
        le_value(ds) as int,
        pow10(f) as int,
        le_value(ds.skip(f as int)) as int,
        le_value(lo) as int,
    );
}

proof fn lemma_tracks_double(dv: nat, f: nat, t: nat, num: nat, den: nat)
    requires
        tracks(dv, f, t, num, den),
        t >= 1,
    ensures
        tracks(2 * dv, f, (t - 1) as nat, num, den),
{
    let u = two_pow((t - 1) as nat);
    assert(two_pow(t) == 2 * u);
    assert((2 * dv) * (den * u) == dv * (den * (2 * u))) by (nonlinear_arith);
}

proof fn lemma_tracks_quintuple(dv: nat, f: nat, t: nat, num: nat, den: nat)
    requires
        tracks(dv, f, t, num, den),
    ensures
        tracks(5 * dv, f + 1, t + 1, num, den),
{
    let u = two_pow(t);
    let p = pow10(f);
    assert(two_pow(t + 1) == 2 * u);
    assert(pow10(f + 1) == 10 * p);
    let b = num * two_pow(200);
    assert((5 * dv) * (den * (2 * u)) == 10 * (dv * (den * u))) by (nonlinear_arith);
    assert(10 * (b * p) == b * (10 * p)) by (nonlinear_arith);
}

#[verifier::spinoff_prover]
proof fn lemma_two_pow_values()
    ensures
        two_pow(11) == 2048,
        two_pow(12) == 4096,
        two_pow(14) == 16384,
        two_pow(21) == 2_097_152,
        two_pow(52) == 0x10_0000_0000_0000,
        two_pow(53) == 0x20_0000_0000_0000,
        two_pow(60) == 0x1000_0000_0000_0000,
        two_pow(96) == 0x1_0000_0000_0000_0000_0000_0000,
{
    assert(two_pow(2) == 4) by {
        reveal_with_fuel(two_pow, 3);
    }
    assert(two_pow(8) == 256) by {
        reveal_with_fuel(two_pow, 9);
    }
    assert(two_pow(10) == 1024) by {
        reveal_with_fuel(two_pow, 11);
    }
    assert(two_pow(11) == 2048) by {
        reveal_with_fuel(two_pow, 12);
    }
    assert(two_pow(12) == 4096);
    assert(two_pow(13) == 8192);
    assert(two_pow(14) == 16384);
    assert(two_pow(21) == 2_097_152) by {
        lemma_two_pow_add(11, 10);
    }
    assert(two_pow(42) == 0x400_0000_0000) by {
        lemma_two_pow_add(21, 21);
    }
    assert(two_pow(44) == 0x1000_0000_0000) by {
        lemma_two_pow_add(42, 2);
    }
    assert(two_pow(52) == 0x10_0000_0000_0000) by {
        lemma_two_pow_add(42, 10);
    }
    assert(two_pow(53) == 0x20_0000_0000_0000);
    assert(two_pow(60) == 0x1000_0000_0000_0000) by {
        lemma_two_pow_add(52, 8);
    }
    assert(two_pow(96) == 0x1_0000_0000_0000_0000_0000_0000) by {
        lemma_two_pow_add(52, 44);
    }
}

/// At `t = 214` a number below `10^20` has an integer part below `2^53`.
proof fn lemma_top_binade(dv: nat, f: nat, num: nat, den: nat)
    requires
        tracks(dv, f, 214, num, den),
        num < pow10(20) * den,
        den > 0,
    ensures
        dv / pow10(f) < two_pow(53),
{
    lemma_two_pow_values();
    lemma_two_pow_add(200, 14);
    lemma_two_pow_positive(200);
    crate::numtext::lemma_pow10_20();
    lemma_pow10_positive(f);
    let p = pow10(f);
    let g = two_pow(200);
    let i = dv / p;
    vstd::arithmetic::div_mod::lemma_fundamental_div_mod(dv as int, p as int);
    assert(dv * den * 16384 == num * p) by (nonlinear_arith)
        requires
            dv * (den * (g * 16384)) == (num * g) * p,
            g >= 1,
    ;
    assert(dv * 16384 < 100_000_000_000_000_000_000 * p) by (nonlinear_arith)
        requires
            dv * den * 16384 == num * p,
            num < 100_000_000_000_000_000_000 * den,
            den > 0,
            p >= 1,
    ;
    assert(i * p <= dv) by (nonlinear_arith)
        requires
            dv == p * i + dv % p,
            dv % p >= 0,
    ;
    assert(i < 0x20_0000_0000_0000) by (nonlinear_arith)
        requires
            i * p <= dv,
            dv * 16384 < 100_000_000_000_000_000_000 * p,
            p >= 1,
    ;
}

/// At `t = 104` a number of at least `10^-13` has an integer part of at
/// least `2^52`.
proof fn lemma_bottom_binade(dv: nat, f: nat, num: nat, den: nat)
    requires
        tracks(dv, f, 104, num, den),
        num * pow10(13) >= den,
        den > 0,
    ensures
        dv / pow10(f) >= two_pow(52),
{
    lemma_two_pow_values();
    lemma_two_pow_add(104, 96);
    lemma_two_pow_positive(104);
    assert(pow10(13) == 10_000_000_000_000) by {
        reveal_with_fuel(pow10, 14);
    }
    lemma_pow10_positive(f);
    let p = pow10(f);
    let h = two_pow(104);
    let i = dv / p;
    let w: nat = 0x1_0000_0000_0000_0000_0000_0000;
    vstd::arithmetic::div_mod::lemma_fundamental_div_mod(dv as int, p as int);
    assert(dv * den == num * w * p) by (nonlinear_arith)
        requires
            dv * (den * h) == (num * (h * w)) * p,
            h >= 1,
    ;
    assert(dv * 10_000_000_000_000 >= w * p) by (nonlinear_arith)
        requires
            dv * den == num * w * p,
            num * 10_000_000_000_000 >= den,
            den > 0,
    ;
    let r = dv % p;
    assert(dv < (i + 1) * p) by (nonlinear_arith)
        requires
            dv == p * i + r,
            r < p,
    ;
    assert((i + 1) * 10_000_000_000_000 > w) by (nonlinear_arith)
        requires
            dv < (i + 1) * p,
            dv * 10_000_000_000_000 >= w * p,
            p >= 1,
    ;
}

/// An integer part in `[2^52, 2^53)` puts the number in binade `t`.
proof fn lemma_found_binade(dv: nat, f: nat, t: nat, num: nat, den: nat)
    requires
        tracks(dv, f, t, num, den),
        two_pow(52) <= dv / pow10(f) < two_pow(53),
        den > 0,
    ensures
        in_binade(num, den, t),
{
    lemma_two_pow_positive(t);
    lemma_pow10_positive(f);
    let p = pow10(f);
    let i = dv / p;
    let a = den * two_pow(t);
    let b = num * two_pow(200);
    vstd::arithmetic::div_mod::lemma_fundamental_div_mod(dv as int, p as int);
    let r = dv % p;
    let lo = two_pow(52);
    let hi = two_pow(53);
    assert(lo * p <= dv) by (nonlinear_arith)
        requires
            dv == p * i + r,
            r >= 0,
            lo <= i,
    ;
    assert(dv < hi * p) by (nonlinear_arith)
        requires
            dv == p * i + r,
            r < p,
            i < hi,
    ;
    assert(lo * a <= b) by (nonlinear_arith)
        requires
            lo * p <= dv,
            dv * a == b * p,
            p >= 1,
    ;
    assert(a > 0) by (nonlinear_arith)
        requires
            a == den * two_pow(t),
            den > 0,
            two_pow(t) >= 1,
    ;
    assert(b < hi * a) by (nonlinear_arith)
        requires
            dv < hi * p,
            dv * a == b * p,
            p >= 1,
            a > 0,
    ;
    let u = two_pow(t);
    assert(lo * den * u == lo * a) by (nonlinear_arith)
        requires
            a == den * u,
    ;
    assert(hi * den * u == hi * a) by (nonlinear_arith)
        requires
            a == den * u,
    ;
}

/// How the low digits compare with one half: `top` is the first digit
/// after the point and `rest` what the digits after it write.
proof fn lemma_half(rest: nat, top: nat, p: nat)
    requires
        rest < p,
        top < 10,
    ensures
        (2 * (rest + top * p) > 10 * p) == (top > 5 || (top == 5 && rest > 0)),
        (2 * (rest + top * p) == 10 * p) == (top == 5 && rest == 0),
{
    if top > 5 {
        assert(top * p >= 6 * p) by (nonlinear_arith)
            requires
                top >= 6,
        ;
    } else if top < 5 {
        assert(top * p <= 4 * p) by (nonlinear_arith)
            requires
                top <= 4,
        ;
    }
}

/// `(x * 10^scale) as usize` for `x` the `f64` nearest to the number that
/// the digits `ds` write with `f` of them after the point (see
/// `scaled_from`), for a number of at least `10^-13` and below `10^20`.
#[verifier::spinoff_prover]
pub fn scaled_nearest(ds: Vec<u8>, f: usize, scale: u32, Ghost(num): Ghost<nat>, Ghost(den): Ghost<nat>) -> (r: usize)
    requires
        decimal_digits(ds@),
        f < ds@.len(),
        den > 0,
        tracks(le_value(ds@), f as nat, 200, num, den),
        num * pow10(13) >= den,
        num < pow10(20) * den,
        scale <= 6,
    ensures
        r == scaled_from(num, den, scale as nat),
{
    let two52: u128 = 0x10_0000_0000_0000;
    let two53: u128 = 0x20_0000_0000_0000;
    proof {
        lemma_two_pow_values();
        lemma_whole_frac(ds@, f as nat);
    }
    let mut ds = ds;
    let mut f = f;
    let mut t: u32 = 200;
    let mut ip = whole_part(&ds, f);
    while ip >= two53
        invariant
            decimal_digits(ds@),
            f < ds@.len(),
            den > 0,
            200 <= t <= 214,
            tracks(le_value(ds@), f as nat, t as nat, num, den),
            num < pow10(20) * den,
            num * pow10(13) >= den,
            ip == min_of(le_value(ds@) / pow10(f as nat), two_pow(60)),
            two52 == two_pow(52),
            two53 == two_pow(53),
            two52 == 0x10_0000_0000_0000,
            two53 == 0x20_0000_0000_0000,
            two_pow(60) == 0x1000_0000_0000_0000,
        decreases 214 - t,
    {
        proof {
            if t == 214 {
                lemma_top_binade(le_value(ds@), f as nat, num, den);
            }
            lemma_tracks_quintuple(le_value(ds@), f as nat, t as nat, num, den);
        }
        let n = ds.len();
        assert(f < n);
        ds = mul_digits(&ds, 5);
        f = f + 1;
        t = t + 1;
        ip = whole_part(&ds, f);
        proof {
            lemma_whole_frac(ds@, f as nat);
        }
    }
    while ip < two52
        invariant
            decimal_digits(ds@),
            f < ds@.len(),
            den > 0,
            104 <= t <= 214,
            tracks(le_value(ds@), f as nat, t as nat, num, den),
            num * pow10(13) >= den,
            ip == min_of(le_value(ds@) / pow10(f as nat), two_pow(60)),
            ip < two53,
            two52 == two_pow(52),
            two53 == two_pow(53),
            two52 == 0x10_0000_0000_0000,
            two53 == 0x20_0000_0000_0000,
            two_pow(60) == 0x1000_0000_0000_0000,
        decreases t,
    {
        let ghost dv = le_value(ds@);
        let ghost p = pow10(f as nat);
        proof {
            if t == 104 {
                lemma_bottom_binade(dv, f as nat, num, den);
            }
            lemma_tracks_double(dv, f as nat, t as nat, num, den);
            lemma_pow10_positive(f as nat);
            let i = dv / p;
            let r = dv % p;
            vstd::arithmetic::div_mod::lemma_fundamental_div_mod(dv as int, p as int);
            vstd::arithmetic::div_mod::lemma_fundamental_div_mod((2 * dv) as int, p as int);
            let i2 = (2 * dv) / p;
            let r2 = (2 * dv) % p;
            assert(i2 <= 2 * i + 1) by (nonlinear_arith)
                requires
                    dv == p * i + r,
                    r < p,
                    2 * dv == p * i2 + r2,
                    r2 >= 0,
                    p >= 1,
            ;
        }
        assert(t > 104);
        ds = mul_digits(&ds, 2);
        t = t - 1;
        ip = whole_part(&ds, f);
        proof {
            lemma_whole_frac(ds@, f as nat);
        }
    }
    let ghost dv = le_value(ds@);
    let ghost p = pow10(f as nat);
    proof {
        lemma_whole_frac(ds@, f as nat);
        lemma_found_binade(dv, f as nat, t as nat, num, den);
        lemma_binade_is(num, den, t as nat);
    }
    let q0 = ip;
    let mut q = q0;
    if f > 0 {
        let top = ds[f - 1];
        let rest_zero = low_digits_zero(&ds, f - 1);
        proof {
            let lo = ds@.take(f as int);
            let lo1 = ds@.take(f - 1);
            assert(lo =~= lo1.push(top));
            lemma_le_push(lo1, top);
            assert(decimal_digits(lo1)) by {
                assert forall|i: int| 0 <= i < lo1.len() implies #[trigger] lo1[i] < 10 by {
                    assert(lo1[i] == ds@[i]);
                }
            }
            lemma_le_bound(lo1);
            assert(top < 10);
            let p1 = pow10((f - 1) as nat);
            assert(p == 10 * p1);
            lemma_half(le_value(lo1), top as nat, p1);
        }
        if top > 5 || (top == 5 && (!rest_zero || q0 % 2 == 1)) {
            q = q0 + 1;
        }
    } else {
        proof {
            assert(ds@.take(0) =~= Seq::<u8>::empty());
            assert(le_value(Seq::<u8>::empty()) == 0);
            assert(pow10(0) == 1);
        }
    }
    assert(q == round_half_even(dv, p));
    proof {
        lemma_two_pow_positive(t as nat);
        lemma_pow10_positive(f as nat);
        assert(den * two_pow(t as nat) > 0) by (nonlinear_arith)
            requires
                den > 0,
                two_pow(t as nat) >= 1,
        ;
        lemma_round_cross(dv, p, num * two_pow(200), den * two_pow(t as nat));
    }
    let ghost first = nearest_double(num, den);
    assert(first == (q as nat, t as nat));
    let sc = pow10_u128(scale);
    proof {
        lemma_pow10_monotone(scale as nat, 6);
        crate::numtext::lemma_pow10_small();
        lemma_pow10_positive(scale as nat);
        assert(q * sc <= 0x20_0000_0000_0000 * 1_000_000) by (nonlinear_arith)
            requires
                q <= 0x20_0000_0000_0000,
                sc <= 1_000_000,
        ;
        assert(q * sc >= 0x10_0000_0000_0000) by (nonlinear_arith)
            requires
                q >= 0x10_0000_0000_0000,
                sc >= 1,
        ;
    }
    let p2: u128 = q * sc;
    let mut pj: u128 = 1;
    let mut j: u32 = 0;
    assert(two_pow(0) == 1);
    while p2 >= two53 * pj
        invariant
            pj == two_pow(j as nat),
            two52 * pj <= p2,
            p2 <= 0x20_0000_0000_0000 * 1_000_000,
            pj <= 2_000_000,
            j <= 21,
            two52 == two_pow(52),
            two53 == two_pow(53),
            two52 == 0x10_0000_0000_0000,
            two53 == 0x20_0000_0000_0000,
            two_pow(21) == 2_097_152,
        decreases p2 - pj,
    {
        proof {
            lemma_two_pow_positive(j as nat);
            assert(2 * pj <= 2_000_000) by (nonlinear_arith)
                requires
                    p2 >= two53 * pj,
                    two53 == 2 * two52,
                    two52 == 0x10_0000_0000_0000,
                    p2 <= 0x20_0000_0000_0000 * 1_000_000,
            ;
            if j == 21 {
                assert(two_pow(22) == 2 * two_pow(21));
            }
        }
        pj = pj * 2;
        j = j + 1;
    }
    proof {
        lemma_two_pow_positive(j as nat);
        lemma_two_pow_add(j as nat, 200);
        lemma_two_pow_positive(200);
        let g = two_pow(200);
        assert(two_pow(52) * 1 * two_pow((j + 200) as nat) <= p2 * g) by (nonlinear_arith)
            requires
                two_pow((j + 200) as nat) == pj * g,
                two_pow(52) * pj <= p2,
        ;
        assert(p2 * g < two_pow(53) * 1 * two_pow((j + 200) as nat)) by (nonlinear_arith)
            requires
                two_pow((j + 200) as nat) == pj * g,
                p2 < two_pow(53) * pj,
                g >= 1,
        ;
        assert(in_binade(p2 as nat, 1, (j + 200) as nat));
        lemma_binade_is(p2 as nat, 1, (j + 200) as nat);
        assert(p2 * (1 * two_pow((j + 200) as nat)) == (p2 * g) * pj) by (nonlinear_arith)
            requires
                two_pow((j + 200) as nat) == pj * g,
        ;
        lemma_two_pow_positive((j + 200) as nat);
        lemma_round_cross(p2 as nat, pj as nat, (p2 * g) as nat, 1 * two_pow((j + 200) as nat));
    }
    let qq = p2 / pj;
    let rr = p2 % pj;
    let q2 = if 2 * rr > pj || (2 * rr == pj && qq % 2 == 1) {
        qq + 1
    } else {
        qq
    };
    proof {
        vstd::arithmetic::div_mod::lemma_fundamental_div_mod(p2 as int, pj as int);
        assert(qq < two53) by (nonlinear_arith)
            requires
                p2 == pj * qq + rr,
                rr >= 0,
                p2 < two53 * pj,
                pj >= 1,
        ;
        assert(qq >= two52) by (nonlinear_arith)
            requires
                p2 == pj * qq + rr,
                rr < pj,
                two52 * pj <= p2,
                pj >= 1,
        ;
    }
    let ghost second = nearest_double((q * pow10(scale as nat)) as nat, 1);
    assert(second == (q2 as nat, (j + 200) as nat));
    let k: i64 = (t as i64 - 200) + j as i64;
    assert(k == (t - 200) + (j + 200 - 200));
    let v: u128 = if k >= 0 {
        if k >= 12 {
            proof {
                lemma_two_pow_monotone(12, k as nat);
                assert(q2 * two_pow(k as nat) >= two52 * 4096) by (nonlinear_arith)
                    requires
                        q2 >= two52,
                        two_pow(k as nat) >= 4096,
                ;
            }
            return usize::MAX;
        }
        let pk = two_pow_u128(k as u32);
        proof {
            lemma_two_pow_monotone(k as nat, 11);
            assert(q2 * pk <= 0x20_0000_0000_0000 * 2048) by (nonlinear_arith)
                requires
                    q2 <= 0x20_0000_0000_0000,
                    pk <= 2048,
            ;
        }
        q2 * pk
    } else {
        let pk = two_pow_u128((-k) as u32);
        proof {
            lemma_two_pow_positive((-k) as nat);
        }
        q2 / pk
    };
    if v > usize::MAX as u128 {
        usize::MAX
    } else {
        v as usize
    }
}

/// `round_half_even(a, b)` is an integer nearest to `a / b`: it lies within
/// half of `b` of `a` in units of `b`, and on a tie (exactly half way) it
/// is even.
pub proof fn lemma_round_half_even_nearest(a: nat, b: nat)
    requires
        b > 0,
    ensures
        ({
            let r = round_half_even(a, b);
            let e = a - r * b;
            let m = if e >= 0 {
                e
            } else {
                -e
            };
            &&& 2 * m <= b
            &&& 2 * m == b ==> r % 2 == 0
        }),
{
    let q = a / b;
    let rm = a % b;
    vstd::arithmetic::div_mod::lemma_fundamental_div_mod(a as int, b as int);
    vstd::arithmetic::div_mod::lemma_mod_bound(a as int, b as int);
    assert(a == q * b + rm) by (nonlinear_arith)
        requires
            a == b * q + rm,
    ;
    assert((q + 1) * b == q * b + b) by (nonlinear_arith);
    if 2 * rm == b && q % 2 == 1 {
        assert((q + 1) % 2 == 0);
    }
}

/// A number `num` that is exactly `a * 2^(t - 200)`, with `a` an integer of
/// 53 bits, is an `f64`: the nearest `f64` is itself.
proof fn lemma_nearest_of_exact(num: nat, a: nat, t: nat)
    requires
        two_pow(52) <= a < two_pow(53),
        num * two_pow(200) == a * two_pow(t),
    ensures
        nearest_double(num, 1) == (a, t),
{
    lemma_two_pow_positive(t);
    let g = two_pow(t);
    assert(two_pow(52) * 1 * g <= num * two_pow(200) < two_pow(53) * 1 * g) by (nonlinear_arith)
        requires
            two_pow(52) <= a < two_pow(53),
            num * two_pow(200) == a * g,
            g >= 1,
    ;
    assert(in_binade(num, 1, t));
    lemma_binade_is(num, 1, t);
    vstd::arithmetic::div_mod::lemma_fundamental_div_mod_converse((a * g) as int, (1 * g) as int, a as int, 0);
}

/// Doubling a whole number from 1 up to 2^53 until it has 53 bits.
proof fn lemma_normalize(n: nat) -> (e: nat)
    requires
        1 <= n < two_pow(53),
    ensures
        two_pow(52) <= n * two_pow(e) < two_pow(53),
    decreases two_pow(53) - n,
{
    assert(two_pow(53) == 2 * two_pow(52));
    if n >= two_pow(52) {
        assert(two_pow(0) == 1);
        0
    } else {
        let e = lemma_normalize(2 * n);
        assert(two_pow(e + 1) == 2 * two_pow(e));
        assert(n * two_pow(e + 1) == (2 * n) * two_pow(e)) by (nonlinear_arith)
            requires
                two_pow(e + 1) == 2 * two_pow(e),
        ;
        e + 1
    }
}

/// A whole number `m` below `2^53` times `10^scale` (the product also below
/// `2^53`) goes through `f64` exactly: `f64_scaled` gives the product itself,
/// up to `usize::MAX`.
pub proof fn lemma_whole_amounts_exact(m: nat, scale: nat)
    requires
        m * pow10(scale) < two_pow(53),
    ensures
        f64_scaled(m, 0, scale) == (if m * pow10(scale) <= usize::MAX {
            m * pow10(scale)
        } else {
            usize::MAX as nat
        }),
{
    lemma_two_pow_values();
    lemma_pow10_positive(scale);
    lemma_pow10_positive(13);
    crate::numtext::lemma_pow10_20();
    if m == 0 {
        assert(0 * pow10(scale) == 0);
        assert(shift_decimal(0, 13) == 0 * pow10(13));
    } else {
        let big = m * pow10(scale);
        assert(m <= big) by (nonlinear_arith)
            requires
                big == m * pow10(scale),
                pow10(scale) >= 1,
        ;
        assert(shift_decimal(m, 13) >= 1) by (nonlinear_arith)
            requires
                shift_decimal(m, 13) == m * pow10(13),
                m >= 1,
                pow10(13) >= 1,
        ;
        assert(shift_decimal(m, -20) == m / pow10(20));
        assert(m / pow10(20) == 0) by {
            vstd::arithmetic::div_mod::lemma_basic_div(m as int, pow10(20) as int);
        }
        assert(pow10(0) == 1);
        assert(m * pow10(0) == m);
        // the number itself
        let e = lemma_normalize(m);
        let a1 = m * two_pow(e);
        if e > 52 {
            lemma_two_pow_monotone(53, e);
            assert(m * two_pow(e) >= two_pow(53)) by (nonlinear_arith)
                requires
                    m >= 1,
                    two_pow(e) >= two_pow(53),
            ;
        }
        assert(e <= 52);
        let t = (200 - e) as nat;
        lemma_two_pow_add(e, t);
        assert(m * two_pow(200) == a1 * two_pow(t)) by (nonlinear_arith)
            requires
                two_pow(200) == two_pow(e) * two_pow(t),
                a1 == m * two_pow(e),
        ;
        lemma_nearest_of_exact(m, a1, t);
        // the product
        let e2 = lemma_normalize(big);
        let a2 = big * two_pow(e2);
        if e2 > e {
            lemma_two_pow_monotone(e + 1, e2);
            assert(two_pow(e + 1) == 2 * two_pow(e));
            assert(big * two_pow(e2) >= 2 * (m * two_pow(e))) by (nonlinear_arith)
                requires
                    big >= m,
                    two_pow(e2) >= 2 * two_pow(e),
                    two_pow(e) >= 1,
            ;
        }
        assert(e2 <= e);
        let j = (e - e2) as nat;
        let p = a1 * pow10(scale);
        assert(p == big * two_pow(e)) by (nonlinear_arith)
            requires
                p == a1 * pow10(scale),
                a1 == m * two_pow(e),
                big == m * pow10(scale),
        ;
        lemma_two_pow_add(e2, j);
        lemma_two_pow_add(200, j);
        assert(p * two_pow(200) == a2 * two_pow(200 + j)) by (nonlinear_arith)
            requires
                p == big * two_pow(e),
                two_pow(e) == two_pow(e2) * two_pow(j),
                two_pow(200 + j) == two_pow(200) * two_pow(j),
                a2 == big * two_pow(e2),
        ;
        lemma_nearest_of_exact(p, a2, 200 + j);
        assert(nearest_double(m, 1) == (a1, t));
        assert(nearest_double(a1 * pow10(scale), 1) == (a2, (200 + j) as nat));
        let k: int = (t - 200) + ((200 + j) as nat - 200);
        assert(k == -(e2 as int));
        lemma_two_pow_positive(e2);
        vstd::arithmetic::div_mod::lemma_fundamental_div_mod_converse(a2 as int, two_pow(e2) as int, big as int, 0);
        assert((-k) as nat == e2);
        assert(a2 / two_pow(e2) == big);
        if e2 == 0 {
            assert(two_pow(0) == 1);
            assert(a2 == big * 1);
            assert(floor_scaled(a2, 0) == a2 * two_pow(0));
        }
        assert(floor_scaled(a2, k) == big);
        assert(scaled_from(m, 1, scale) == crate::numtext::clamp_usize(big));
    }
}

/// `2^53`, the first power of two past the whole numbers that every `f64`
/// significand holds.
pub proof fn lemma_two_pow_53()
    ensures
        two_pow(53) == 0x20_0000_0000_0000,
{
    lemma_two_pow_values();
}

} // verus!
