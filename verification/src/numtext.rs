use vstd::prelude::*;
use vstd::string::StrSliceExecFns;

use crate::binary64::{decimal_digits, f64_scaled, le_value, lemma_pow10_add, scaled_nearest, tracks};

verus! {

pub open spec fn is_digit(c: char) -> bool {
    '0' <= c && c <= '9'
}

pub open spec fn digit_value(c: char) -> nat {
    (c as int - '0' as int) as nat
}

pub open spec fn all_digits(s: Seq<char>) -> bool {
    forall|i: int| 0 <= i < s.len() ==> is_digit(#[trigger] s[i])
}

/// The number that the ASCII digits `s` write in decimal, most significant
/// first; 0 for no digits.
pub open spec fn digits_value(s: Seq<char>) -> nat
    decreases s.len(),
{
    if s.len() == 0 {
        0
    } else {
        digits_value(s.drop_last()) * 10 + digit_value(s.last())
    }
}

pub open spec fn pow10(n: nat) -> nat
    decreases n,
{
    if n == 0 {
        1
    } else {
        10 * pow10((n - 1) as nat)
    }
}

pub open spec fn min_nat(a: nat, b: nat) -> nat {
    if a <= b {
        a
    } else {
        b
    }
}

/// The value of an unsigned integer written as `usize`'s `from_str` reads
/// it: an optional '+', then one or more ASCII digits, at most `usize::MAX`;
/// `None` for any other text.
pub open spec fn usize_text_value(s: Seq<char>) -> Option<nat> {
    let digits = if s.len() > 0 && s[0] == '+' {
        s.drop_first()
    } else {
        s
    };
    if digits.len() > 0 && all_digits(digits) && digits_value(digits) <= usize::MAX {
        Some(digits_value(digits))
    } else {
        None
    }
}

/// A number written as `f64`'s `from_str` reads it.
pub enum FloatText {
    NotANumber,
    Infinite { negative: bool },
    /// The number `mantissa * 10^exponent`, negated when `negative`.
    Finite { negative: bool, mantissa: nat, exponent: int },
}

/// The position of the first `a` or `b` in `s`, or the length of `s` when
/// there is none.
pub open spec fn first_of(s: Seq<char>, a: char, b: char) -> nat
    decreases s.len(),
{
    if s.len() == 0 {
        0
    } else if s[0] == a || s[0] == b {
        0
    } else {
        1 + first_of(s.drop_first(), a, b)
    }
}

/// `s` spells the word whose lower-case letters are `lower` and whose
/// upper-case letters are `upper`, each letter in either case.
pub open spec fn spells(s: Seq<char>, lower: Seq<char>, upper: Seq<char>) -> bool {
    &&& s.len() == lower.len()
    &&& forall|i: int| 0 <= i < s.len() ==> #[trigger] s[i] == lower[i] || s[i] == upper[i]
}

/// An optional sign and one or more ASCII digits: the signed value.
pub open spec fn signed_digits_value(s: Seq<char>) -> Option<int> {
    let negative = s.len() > 0 && s[0] == '-';
    let digits = if s.len() > 0 && (s[0] == '+' || s[0] == '-') {
        s.drop_first()
    } else {
        s
    };
    if digits.len() > 0 && all_digits(digits) {
        Some(
            if negative {
                -digits_value(digits)
            } else {
                digits_value(digits) as int
            },
        )
    } else {
        None
    }
}

/// A decimal number without sign: digits with at most one '.', at least one
/// digit, then optionally 'e' or 'E' and a signed exponent. The value is the
/// digits read as one integer (the mantissa) times ten to the exponent less
/// the number of digits after the '.'.
pub open spec fn unsigned_decimal(s: Seq<char>) -> Option<(nat, int)> {
    let e = first_of(s, 'e', 'E') as int;
    let mant = s.take(e);
    let exponent = if e == s.len() {
        Some(0int)
    } else {
        signed_digits_value(s.skip(e + 1))
    };
    let d = first_of(mant, '.', '.') as int;
    let whole = mant.take(d);
    let frac = if d < mant.len() {
        mant.skip(d + 1)
    } else {
        Seq::<char>::empty()
    };
    if all_digits(whole) && all_digits(frac) && whole.len() + frac.len() > 0 && exponent is Some {
        Some((digits_value(whole + frac), exponent->0 - frac.len()))
    } else {
        None
    }
}

/// What `f64`'s `from_str` reads from `s`: an optional sign, then "inf",
/// "infinity" or "nan" in any case, or a decimal number; `None` for any
/// other text.
pub open spec fn float_text(s: Seq<char>) -> Option<FloatText> {
    let negative = s.len() > 0 && s[0] == '-';
    let body = if s.len() > 0 && (s[0] == '+' || s[0] == '-') {
        s.drop_first()
    } else {
        s
    };
    if spells(body, seq!['i', 'n', 'f'], seq!['I', 'N', 'F']) || spells(
        body,
        seq!['i', 'n', 'f', 'i', 'n', 'i', 't', 'y'],
        seq!['I', 'N', 'F', 'I', 'N', 'I', 'T', 'Y'],
    ) {
        Some(FloatText::Infinite { negative })
    } else if spells(body, seq!['n', 'a', 'n'], seq!['N', 'A', 'N']) {
        Some(FloatText::NotANumber)
    } else {
        match unsigned_decimal(body) {
            Some((mantissa, exponent)) => Some(FloatText::Finite { negative, mantissa, exponent }),
            None => None,
        }
    }
}

/// `m * 10^e`, rounded down to an integer.
pub open spec fn shift_decimal(m: nat, e: int) -> nat {
    if e >= 0 {
        m * pow10(e as nat)
    } else {
        m / pow10((-e) as nat)
    }
}

pub open spec fn clamp_usize(x: nat) -> nat {
    min_nat(x, usize::MAX as nat)
}

/// `(x * 10^scale) as usize` for the `f64` `x` that `t` reads as: the
/// product is rounded to the nearest `f64` (see `f64_scaled`), then
/// rounded toward zero, a negative number or NaN going to 0, and a number
/// past `usize::MAX` (or infinity) to `usize::MAX`.
pub open spec fn scaled_amount(t: FloatText, scale: nat) -> nat {
    match t {
        FloatText::NotANumber => 0,
        FloatText::Infinite { negative } => if negative {
            0
        } else {
            usize::MAX as nat
        },
        FloatText::Finite { negative, mantissa, exponent } => if negative {
            0
        } else {
            f64_scaled(mantissa, exponent, scale)
        },
    }
}

// ---------------------------------------------------------------------------
// Lemmas
pub proof fn lemma_pow10_positive(n: nat)
    ensures
        pow10(n) >= 1,
    decreases n,
{
    if n > 0 {
        lemma_pow10_positive((n - 1) as nat);
    }
}

pub proof fn lemma_pow10_monotone(a: nat, b: nat)
    requires
        a <= b,
    ensures
        pow10(a) <= pow10(b),
    decreases b,
{
    if a < b {
        lemma_pow10_monotone(a, (b - 1) as nat);
        lemma_pow10_positive((b - 1) as nat);
    }
}

pub proof fn lemma_pow10_20()
    ensures
        pow10(20) == 100_000_000_000_000_000_000,
{
    reveal_with_fuel(pow10, 21);
}

proof fn lemma_digits_value_bound(s: Seq<char>)
    requires
        all_digits(s),
    ensures
        digits_value(s) < pow10(s.len()),
    decreases s.len(),
{
    if s.len() > 0 {
        let init = s.drop_last();
        assert(all_digits(init)) by {
            assert forall|i: int| 0 <= i < init.len() implies is_digit(#[trigger] init[i]) by {
                assert(init[i] == s[i]);
            }
        }
        lemma_digits_value_bound(init);
        assert(is_digit(s[s.len() - 1]));
        assert(digits_value(s) == digits_value(init) * 10 + digit_value(s.last()));
        assert(digit_value(s.last()) < 10);
        assert(digits_value(init) + 1 <= pow10(init.len()));
        assert(digits_value(s) < (digits_value(init) + 1) * 10) by (nonlinear_arith)
            requires
                digits_value(s) == digits_value(init) * 10 + digit_value(s.last()),
                digit_value(s.last()) < 10,
        ;
        assert((digits_value(init) + 1) * 10 <= pow10(init.len()) * 10) by (nonlinear_arith)
            requires
                digits_value(init) + 1 <= pow10(init.len()),
        ;
    }
}

proof fn lemma_all_digits_take(s: Seq<char>, n: int)
    requires
        all_digits(s),
        0 <= n <= s.len(),
    ensures
        all_digits(s.take(n)),
{
    assert forall|i: int| 0 <= i < s.take(n).len() implies is_digit(#[trigger] s.take(n)[i]) by {
        assert(s.take(n)[i] == s[i]);
    }
}

/// Dropping the last `k` digits divides by `10^k`.
proof fn lemma_digits_value_take(s: Seq<char>, k: nat)
    requires
        all_digits(s),
        k <= s.len(),
    ensures
        digits_value(s.take(s.len() - k)) == digits_value(s) / pow10(k),
    decreases k,
{
    if k == 0 {
        assert(s.take(s.len() as int) =~= s);
        assert(pow10(0) == 1);
        assert(digits_value(s) / 1 == digits_value(s));
    } else {
        let t = s.take(s.len() - k + 1);
        lemma_digits_value_take(s, (k - 1) as nat);
        lemma_all_digits_take(s, s.len() - k + 1);
        assert(t.drop_last() =~= s.take(s.len() - k));
        assert(t.last() == t[t.len() - 1]);
        assert(is_digit(t.last()));
        let x = digits_value(s);
        let p = pow10((k - 1) as nat);
        lemma_pow10_positive((k - 1) as nat);
        let y = digits_value(t);
        assert(y == x / p);
        assert(digits_value(t.drop_last()) == y / 10) by {
            vstd::arithmetic::div_mod::lemma_fundamental_div_mod_converse(
                y as int,
                10,
                digits_value(t.drop_last()) as int,
                digit_value(t.last()) as int,
            );
        }
        vstd::arithmetic::div_mod::lemma_div_denominator(x as int, p as int, 10);
        assert(pow10(k) == 10 * p);
        assert(p * 10 == 10 * p) by (nonlinear_arith);
        assert((x as int / p as int) / 10 == x as int / (p * 10) as int);
    }
}

/// One more digit on a value that is capped at `cap` keeps the cap.
proof fn lemma_capped_step(x: nat, d: nat, cap: nat)
    ensures
        min_nat(x * 10 + d, cap) == min_nat(min_nat(x, cap) * 10 + d, cap),
{
    if x > cap {
        assert(x * 10 + d >= cap) by (nonlinear_arith)
            requires
                x > cap,
        ;
        assert(cap * 10 + d >= cap) by (nonlinear_arith);
    }
}

// ---------------------------------------------------------------------------
// Executable functions
/// The characters of `s`, in order.
pub fn chars_of(s: &str) -> (r: Vec<char>)
    ensures
        r@ == s@,
{
    let n = s.unicode_len();
    let mut r: Vec<char> = Vec::new();
    for i in 0..n
        invariant
            n == s@.len(),
            r@ == s@.take(i as int),
    {
        r.push(s.get_char(i));
        assert(r@ =~= s@.take(i + 1));
    }
    assert(s@.take(n as int) =~= s@);
    r
}

fn is_digit_char(c: char) -> (r: bool)
    ensures
        r == is_digit(c),
{
    '0' <= c && c <= '9'
}

pub(crate) fn digit_of(c: char) -> (r: u128)
    requires
        is_digit(c),
    ensures
        r == digit_value(c),
        r < 10,
{
    (c as u32 - '0' as u32) as u128
}

/// Whether `cs[lo..hi]` is made of ASCII digits only.
fn all_digits_in(cs: &Vec<char>, lo: usize, hi: usize) -> (r: bool)
    requires
        lo <= hi <= cs@.len(),
    ensures
        r == all_digits(cs@.subrange(lo as int, hi as int)),
{
    let ghost sub = cs@.subrange(lo as int, hi as int);
    for i in lo..hi
        invariant
            lo <= hi <= cs@.len(),
            sub == cs@.subrange(lo as int, hi as int),
            forall|j: int| 0 <= j < i - lo ==> is_digit(#[trigger] sub[j]),
    {
        assert(sub[i - lo] == cs@[i as int]);
        if !is_digit_char(cs[i]) {
            return false;
        }
    }
    true
}

/// The value of the digits `cs[lo..hi]`, capped at `cap`.
fn digits_capped(cs: &Vec<char>, lo: usize, hi: usize, cap: u128) -> (r: u128)
    requires
        lo <= hi <= cs@.len(),
        all_digits(cs@.subrange(lo as int, hi as int)),
        cap < 0x1_0000_0000_0000_0000_0000_0000_0000,
    ensures
        r == min_nat(digits_value(cs@.subrange(lo as int, hi as int)), cap as nat),
{
    let mut v: u128 = 0;
    for i in lo..hi
        invariant
            lo <= hi <= cs@.len(),
            all_digits(cs@.subrange(lo as int, hi as int)),
            cap < 0x1_0000_0000_0000_0000_0000_0000_0000,
            v == min_nat(digits_value(cs@.subrange(lo as int, i as int)), cap as nat),
    {
        let ghost prev = cs@.subrange(lo as int, i as int);
        let ghost next = cs@.subrange(lo as int, i + 1);
        assert(cs@.subrange(lo as int, hi as int)[i - lo] == cs@[i as int]);
        let d = digit_of(cs[i]);
        assert(next.drop_last() =~= prev);
        assert(next.last() == cs@[i as int]);
        proof {
            lemma_capped_step(digits_value(prev), d as nat, cap as nat);
        }
        if v >= cap {
            v = cap;
        } else {
            let w = v * 10 + d;
            v = if w > cap {
                cap
            } else {
                w
            };
        }
    }
    v
}

/// The position of the first `a` or `b` in `cs[lo..hi]`, counted from `lo`;
/// `hi - lo` when there is none.
fn find_first_of(cs: &Vec<char>, lo: usize, hi: usize, a: char, b: char) -> (r: usize)
    requires
        lo <= hi <= cs@.len(),
    ensures
        r <= hi - lo,
        r == first_of(cs@.subrange(lo as int, hi as int), a, b),
{
    let ghost sub = cs@.subrange(lo as int, hi as int);
    let mut i = lo;
    while i < hi
        invariant
            lo <= i <= hi <= cs@.len(),
            sub == cs@.subrange(lo as int, hi as int),
            forall|j: int| 0 <= j < i - lo ==> #[trigger] sub[j] != a && sub[j] != b,
        decreases hi - i,
    {
        if cs[i] == a || cs[i] == b {
            assert(sub[i - lo] == cs@[i as int]);
            proof {
                lemma_first_of(sub, a, b, (i - lo) as nat);
            }
            return i - lo;
        }
        assert(sub[i - lo] == cs@[i as int]);
        i = i + 1;
    }
    proof {
        lemma_first_of(sub, a, b, (hi - lo) as nat);
    }
    hi - lo
}

proof fn lemma_first_of(s: Seq<char>, a: char, b: char, i: nat)
    requires
        i <= s.len(),
        forall|j: int| 0 <= j < i ==> #[trigger] s[j] != a && s[j] != b,
        i == s.len() || s[i as int] == a || s[i as int] == b,
    ensures
        first_of(s, a, b) == i,
    decreases i,
{
    if i > 0 {
        let t = s.drop_first();
        assert forall|j: int| 0 <= j < i - 1 implies #[trigger] t[j] != a && t[j] != b by {
            assert(t[j] == s[j + 1]);
        }
        if i < s.len() {
            assert(t[i - 1] == s[i as int]);
        }
        lemma_first_of(t, a, b, (i - 1) as nat);
    }
}

/// Whether `cs[lo..hi]` spells the word `lower` / `upper`.
fn spells_at(cs: &Vec<char>, lo: usize, hi: usize, lower: &[char], upper: &[char]) -> (r: bool)
    requires
        lo <= hi <= cs@.len(),
        lower@.len() == upper@.len(),
    ensures
        r == spells(cs@.subrange(lo as int, hi as int), lower@, upper@),
{
    let ghost sub = cs@.subrange(lo as int, hi as int);
    if hi - lo != lower.len() {
        return false;
    }
    let n = lower.len();
    for i in 0..n
        invariant
            lo <= hi <= cs@.len(),
            hi - lo == n,
            n == lower@.len(),
            n == upper@.len(),
            sub == cs@.subrange(lo as int, hi as int),
            forall|j: int| 0 <= j < i ==> #[trigger] sub[j] == lower@[j] || sub[j] == upper@[j],
    {
        assert(sub[i as int] == cs@[lo + i]);
        if cs[lo + i] != lower[i] && cs[lo + i] != upper[i] {
            return false;
        }
    }
    true
}

/// The unsigned integer that `s` writes, as `usize`'s `from_str` reads it;
/// `None` where that refuses the text.
pub fn parse_usize_text(cs: &Vec<char>, lo: usize, hi: usize) -> (r: Option<usize>)
    requires
        lo <= hi <= cs@.len(),
    ensures
        r matches Some(v) ==> usize_text_value(cs@.subrange(lo as int, hi as int)) == Some(v as nat),
        r is None ==> usize_text_value(cs@.subrange(lo as int, hi as int)) is None,
{
    let ghost s = cs@.subrange(lo as int, hi as int);
    let start = if lo < hi && cs[lo] == '+' {
        lo + 1
    } else {
        lo
    };
    let ghost digits = cs@.subrange(start as int, hi as int);
    assert(digits =~= (if s.len() > 0 && s[0] == '+' {
        s.drop_first()
    } else {
        s
    }));
    if start == hi || !all_digits_in(cs, start, hi) {
        return None;
    }
    let cap: u128 = usize::MAX as u128 + 1;
    let v = digits_capped(cs, start, hi, cap);
    if v > usize::MAX as u128 {
        None
    } else {
        Some(v as usize)
    }
}

/// Beyond 2^100 an exponent decides nothing more: the exponent's digits
/// are read up to this cap.
const EXPONENT_CAP: u128 = 0x10_0000_0000_0000_0000_0000_0000;

proof fn lemma_shift_zero(e: int)
    ensures
        shift_decimal(0, e) == 0,
{
    if e < 0 {
        lemma_pow10_positive((-e) as nat);
        assert(0nat / pow10((-e) as nat) == 0nat);
    } else {
        assert(0 * pow10(e as nat) == 0);
    }
}

proof fn lemma_shift_big(m: nat, e: int)
    requires
        m >= 1,
        e >= 20,
    ensures
        shift_decimal(m, e) > usize::MAX,
{
    lemma_pow10_monotone(20, e as nat);
    lemma_pow10_20();
    let p = pow10(e as nat);
    assert(m * p >= p) by (nonlinear_arith)
        requires
            m >= 1,
            p >= 0,
    ;
}

proof fn lemma_shift_small(d: Seq<char>, e: int)
    requires
        all_digits(d),
        e < 0,
        -e >= d.len(),
    ensures
        shift_decimal(digits_value(d), e) == 0,
{
    lemma_digits_value_bound(d);
    lemma_pow10_monotone(d.len(), (-e) as nat);
    vstd::arithmetic::div_mod::lemma_basic_div(digits_value(d) as int, pow10((-e) as nat) as int);
}

/// `m` times ten `times` times, capped at `cap`.
fn times_ten_capped(m: u128, times: u32, cap: u128) -> (r: u128)
    requires
        m <= cap,
        cap < 0x1_0000_0000_0000_0000_0000_0000_0000,
    ensures
        r == min_nat(m as nat * pow10(times as nat), cap as nat),
{
    let mut v = m;
    let mut i: u32 = 0;
    assert(pow10(0) == 1);
    assert(m as nat * pow10(0) == m);
    while i < times
        invariant
            i <= times,
            m <= cap,
            cap < 0x1_0000_0000_0000_0000_0000_0000_0000,
            v == min_nat(m as nat * pow10(i as nat), cap as nat),
        decreases times - i,
    {
        proof {
            lemma_capped_step(m as nat * pow10(i as nat), 0, cap as nat);
            assert(m * pow10((i + 1) as nat) == (m * pow10(i as nat)) * 10) by (nonlinear_arith)
                requires
                    pow10((i + 1) as nat) == 10 * pow10(i as nat),
            ;
        }
        let w = v * 10;
        v = if w > cap {
            cap
        } else {
            w
        };
        i = i + 1;
    }
    v
}

fn copy_range(cs: &Vec<char>, lo: usize, hi: usize, out: &mut Vec<char>)
    requires
        lo <= hi <= cs@.len(),
    ensures
        final(out)@ == old(out)@ + cs@.subrange(lo as int, hi as int),
{
    let ghost start = out@;
    for i in lo..hi
        invariant
            lo <= hi <= cs@.len(),
            out@ == start + cs@.subrange(lo as int, i as int),
    {
        out.push(cs[i]);
        assert(out@ =~= start + cs@.subrange(lo as int, i + 1));
    }
}

/// A decimal number taken apart: its digits (before and after the '.'),
/// how many of them follow the '.', and its exponent, whose magnitude is
/// read up to `EXPONENT_CAP`.
struct DecimalParts {
    digits: Vec<char>,
    frac_len: usize,
    exp_negative: bool,
    exp_mag: u128,
    exp_value: Ghost<nat>,
}

impl DecimalParts {
    spec fn well_formed(&self) -> bool {
        &&& all_digits(self.digits@)
        &&& self.frac_len <= self.digits@.len()
        &&& self.exp_mag == min_nat(self.exp_value@, EXPONENT_CAP as nat)
    }

    /// The power of ten that the digits, read as one integer, are scaled by.
    spec fn exponent(&self) -> int {
        (if self.exp_negative {
            -self.exp_value@
        } else {
            self.exp_value@ as int
        }) - self.frac_len
    }
}

proof fn lemma_capped_scale(x: nat, p: nat, cap: nat)
    requires
        p >= 1,
    ensures
        min_nat(min_nat(x, cap) * p, cap) == min_nat(x * p, cap),
{
    if x > cap {
        assert(x * p >= cap) by (nonlinear_arith)
            requires
                x > cap,
                p >= 1,
        ;
        assert(cap * p >= cap) by (nonlinear_arith)
            requires
                p >= 1,
        ;
    }
}

/// Reads a decimal number without sign (see `unsigned_decimal`).
fn read_unsigned_decimal(cs: &Vec<char>, lo: usize, hi: usize) -> (r: Option<DecimalParts>)
    requires
        lo <= hi <= cs@.len(),
    ensures
        r is None <==> unsigned_decimal(cs@.subrange(lo as int, hi as int)) is None,
        r matches Some(parts) ==> {
            &&& parts.well_formed()
            &&& parts.digits@.len() <= hi - lo
            &&& unsigned_decimal(cs@.subrange(lo as int, hi as int))->0 == (
                digits_value(parts.digits@),
                parts.exponent(),
            )
        },
{
    let ghost body = cs@.subrange(lo as int, hi as int);
    let e_rel = find_first_of(cs, lo, hi, 'e', 'E');
    let epos = lo + e_rel;
    let ghost mant = body.take(e_rel as int);
    assert(mant =~= cs@.subrange(lo as int, epos as int));
    let mut exp_negative = false;
    let mut exp_mag: u128 = 0;
    let ghost mut exp_value: nat = 0;
    if epos < hi {
        let q = epos + 1;
        let ghost et = body.skip(e_rel + 1);
        assert(et =~= cs@.subrange(q as int, hi as int));
        exp_negative = q < hi && cs[q] == '-';
        let qs = if q < hi && (cs[q] == '+' || cs[q] == '-') {
            q + 1
        } else {
            q
        };
        let ghost ed = cs@.subrange(qs as int, hi as int);
        assert(ed =~= (if et.len() > 0 && (et[0] == '+' || et[0] == '-') {
            et.drop_first()
        } else {
            et
        }));
        if qs == hi || !all_digits_in(cs, qs, hi) {
            return None;
        }
        exp_mag = digits_capped(cs, qs, hi, EXPONENT_CAP);
        proof {
            exp_value = digits_value(ed);
        }
    }
    let ghost signed_exp: int = if exp_negative {
        -exp_value
    } else {
        exp_value as int
    };
    assert(epos < hi ==> signed_digits_value(body.skip(e_rel + 1)) == Some(signed_exp));
    let d_rel = find_first_of(cs, lo, epos, '.', '.');
    let dot = lo + d_rel;
    let fl = if dot < epos {
        dot + 1
    } else {
        epos
    };
    let ghost whole = mant.take(d_rel as int);
    let ghost frac = if d_rel < mant.len() {
        mant.skip(d_rel + 1)
    } else {
        Seq::<char>::empty()
    };
    assert(whole =~= cs@.subrange(lo as int, dot as int));
    assert(frac =~= cs@.subrange(fl as int, epos as int));
    if !all_digits_in(cs, lo, dot) || !all_digits_in(cs, fl, epos) || (dot - lo) + (epos - fl) == 0 {
        return None;
    }
    let mut digits: Vec<char> = Vec::new();
    copy_range(cs, lo, dot, &mut digits);
    copy_range(cs, fl, epos, &mut digits);
    let ghost d = whole + frac;
    assert(digits@ =~= d);
    assert(all_digits(d)) by {
        assert forall|i: int| 0 <= i < d.len() implies is_digit(#[trigger] d[i]) by {
            if i < whole.len() {
                assert(d[i] == whole[i]);
            } else {
                assert(d[i] == frac[i - whole.len()]);
            }
        }
    }
    let parts = DecimalParts {
        digits,
        frac_len: epos - fl,
        exp_negative,
        exp_mag,
        exp_value: Ghost(exp_value),
    };
    assert(unsigned_decimal(body) == Some((digits_value(d), signed_exp - frac.len())));
    Some(parts)
}

/// The digits of `parts`, read as one integer, times ten to its exponent
/// plus `scale`, rounded down and capped at `usize::MAX`.
fn shifted_amount(parts: &DecimalParts, scale: i32) -> (r: usize)
    requires
        parts.well_formed(),
        -20 <= scale <= 18,
    ensures
        r == clamp_usize(shift_decimal(digits_value(parts.digits@), parts.exponent() + scale)),
{
    let ghost d = parts.digits@;
    let ghost mv = digits_value(d);
    let ghost e_true = parts.exponent() + scale;
    let n = parts.digits.len();
    let cap: u128 = usize::MAX as u128 + 1;
    assert(parts.digits@.subrange(0, n as int) =~= d);
    let m = digits_capped(&parts.digits, 0, n, cap);
    if m == 0 {
        proof {
            lemma_shift_zero(e_true);
        }
        return 0;
    }
    let mag = parts.exp_mag as i128;
    let signed_exp: i128 = if parts.exp_negative {
        -mag
    } else {
        mag
    };
    let e: i128 = signed_exp - parts.frac_len as i128 + scale as i128;
    if e >= 0 {
        if e >= 20 {
            proof {
                lemma_shift_big(mv, e_true);
            }
            return usize::MAX;
        }
        assert(e == e_true);
        let v = times_ten_capped(m, e as u32, cap);
        proof {
            lemma_pow10_positive(e as nat);
            lemma_capped_scale(mv, pow10(e as nat), cap as nat);
        }
        if v > usize::MAX as u128 {
            usize::MAX
        } else {
            v as usize
        }
    } else {
        let k = -e;
        if k >= n as i128 {
            proof {
                lemma_shift_small(d, e_true);
            }
            return 0;
        }
        assert(e == e_true);
        let kk = k as usize;
        proof {
            lemma_digits_value_take(d, kk as nat);
            assert(parts.digits@.subrange(0, (n - kk) as int) =~= d.take(d.len() - kk));
            lemma_all_digits_take(d, d.len() - kk);
        }
        let t = digits_capped(&parts.digits, 0, n - kk, cap);
        if t > usize::MAX as u128 {
            usize::MAX
        } else {
            t as usize
        }
    }
}

/// What `f64_scaled` reads as the range in which it rounds: from `10^-13`
/// up to (not including) `10^20`.
#[verifier::spinoff_prover]
proof fn lemma_window(m: nat, e: int, n: nat)
    requires
        shift_decimal(m, e + 13) > 0,
        shift_decimal(m, e - 20) == 0,
        m < pow10(n),
    ensures
        m >= 1,
        -13 - (n as int) < e < 20,
        (if e >= 0 {
            m * pow10(e as nat)
        } else {
            m
        }) * pow10(13) >= (if e >= 0 {
            1
        } else {
            pow10((-e) as nat)
        }),
        (if e >= 0 {
            m * pow10(e as nat)
        } else {
            m
        }) < pow10(20) * (if e >= 0 {
            1
        } else {
            pow10((-e) as nat)
        }),
{
    if m == 0 {
        lemma_shift_zero(e + 13);
    }
    lemma_pow10_positive(13);
    if e >= 20 {
        lemma_pow10_positive((e - 20) as nat);
        assert(m * pow10((e - 20) as nat) >= 1) by (nonlinear_arith)
            requires
                m >= 1,
                pow10((e - 20) as nat) >= 1,
        ;
    }
    // below 10^20
    let up = (20 - e) as nat;
    lemma_pow10_positive(up);
    assert(m / pow10(up) == 0);
    vstd::arithmetic::div_mod::lemma_fundamental_div_mod(m as int, pow10(up) as int);
    assert(m < pow10(up));
    if e >= 0 {
        lemma_pow10_add(up, e as nat);
        lemma_pow10_positive(e as nat);
        assert(m * pow10(e as nat) < pow10(up) * pow10(e as nat)) by (nonlinear_arith)
            requires
                m < pow10(up),
                pow10(e as nat) >= 1,
        ;
        assert(m * pow10(e as nat) * pow10(13) >= 1) by (nonlinear_arith)
            requires
                m >= 1,
                pow10(e as nat) >= 1,
                pow10(13) >= 1,
        ;
    } else {
        lemma_pow10_add(20, (-e) as nat);
        if e >= -13 {
            lemma_pow10_add((13 + e) as nat, (-e) as nat);
            lemma_pow10_positive((13 + e) as nat);
            assert(m * pow10(13) >= pow10((-e) as nat)) by (nonlinear_arith)
                requires
                    m >= 1,
                    pow10(13) == pow10((13 + e) as nat) * pow10((-e) as nat),
                    pow10((13 + e) as nat) >= 1,
            ;
        } else {
            let lo = (-e - 13) as nat;
            lemma_pow10_positive(lo);
            vstd::arithmetic::div_mod::lemma_fundamental_div_mod(m as int, pow10(lo) as int);
            assert(m >= pow10(lo)) by (nonlinear_arith)
                requires
                    m / pow10(lo) >= 1,
                    m == pow10(lo) * (m / pow10(lo)) + m % pow10(lo),
                    m % pow10(lo) >= 0,
            ;
            lemma_pow10_add(lo, 13);
            assert(m * pow10(13) >= pow10((-e) as nat)) by (nonlinear_arith)
                requires
                    m >= pow10(lo),
                    pow10((-e) as nat) == pow10(lo) * pow10(13),
            ;
            if lo >= n {
                lemma_pow10_monotone(n, lo);
            }
        }
    }
}

/// The digits of `parts` times ten to its exponent, as the `f64` nearest
/// to that number, times `10^scale` as `f64` arithmetic rounds it, then
/// converted to `usize` (see `f64_scaled`).
#[verifier::spinoff_prover]
fn nearest_amount(parts: &DecimalParts, scale: u32) -> (r: usize)
    requires
        parts.well_formed(),
        parts.digits@.len() <= isize::MAX,
        scale <= 6,
    ensures
        r == f64_scaled(digits_value(parts.digits@), parts.exponent(), scale as nat),
{
    let ghost d = parts.digits@;
    let ghost m = digits_value(d);
    let ghost e = parts.exponent();
    if shifted_amount(parts, 13) == 0 {
        return 0;
    }
    if shifted_amount(parts, -20) > 0 {
        return usize::MAX;
    }
    let n = parts.digits.len();
    proof {
        lemma_digits_value_bound(d);
        lemma_window(m, e, n as nat);
        if parts.exp_mag == EXPONENT_CAP {
            if parts.exp_negative {
                lemma_shift_small(d, e + 13);
            }
        }
    }
    let mag = parts.exp_mag as i128;
    let signed_exp: i128 = if parts.exp_negative {
        -mag
    } else {
        mag
    };
    let ex: i128 = signed_exp - parts.frac_len as i128;
    assert(ex == e);
    let mut ds: Vec<u8> = Vec::new();
    for i in 0..n
        invariant
            n == d.len(),
            d == parts.digits@,
            all_digits(d),
            ds@.len() == i,
            decimal_digits(ds@),
            le_value(ds@) == digits_value(d.take(i as int)),
    {
        assert(d[i as int] == parts.digits@[i as int]);
        let dg = digit_of(parts.digits[i]) as u8;
        let ghost before = ds@;
        ds.insert(0, dg);
        assert(ds@.drop_first() =~= before);
        assert(ds@[0] == dg);
        assert(d.take(i + 1).drop_last() =~= d.take(i as int));
        assert(d.take(i + 1).last() == d[i as int]);
        assert(decimal_digits(ds@)) by {
            assert forall|j: int| 0 <= j < ds@.len() implies #[trigger] ds@[j] < 10 by {
                if j > 0 {
                    assert(ds@[j] == before[j - 1]);
                }
            }
        }
    }
    assert(d.take(n as int) =~= d);
    let ghost num: nat = if e >= 0 {
        m * pow10(e as nat)
    } else {
        m
    };
    let ghost den: nat = if e >= 0 {
        1
    } else {
        pow10((-e) as nat)
    };
    let mut f: usize = 0;
    if ex >= 0 {
        let z = ex as usize;
        assert(pow10(0) == 1);
        assert(m * pow10(0) == m);
        for i in 0..z
            invariant
                decimal_digits(ds@),
                le_value(ds@) == m * pow10(i as nat),
        {
            let ghost before = ds@;
            ds.insert(0, 0);
            assert(ds@.drop_first() =~= before);
            assert(ds@[0] == 0);
            assert(m * pow10((i + 1) as nat) == 10 * (m * pow10(i as nat))) by (nonlinear_arith)
                requires
                    pow10((i + 1) as nat) == 10 * pow10(i as nat),
            ;
            assert(decimal_digits(ds@)) by {
                assert forall|j: int| 0 <= j < ds@.len() implies #[trigger] ds@[j] < 10 by {
                    if j > 0 {
                        assert(ds@[j] == before[j - 1]);
                    }
                }
            }
        }
    } else {
        f = (-ex) as usize;
    }
    while ds.len() <= f
        invariant
            decimal_digits(ds@),
            le_value(ds@) == (if e >= 0 {
                m * pow10(e as nat)
            } else {
                m
            }),
        decreases f + 1 - ds@.len(),
    {
        let ghost before = ds@;
        proof {
            crate::binary64::lemma_le_push(ds@, 0);
        }
        ds.push(0);
        assert(decimal_digits(ds@)) by {
            assert forall|j: int| 0 <= j < ds@.len() implies #[trigger] ds@[j] < 10 by {
                if j < before.len() {
                    assert(ds@[j] == before[j]);
                }
            }
        }
    }
    proof {
        crate::binary64::lemma_two_pow_positive(200);
        let g = crate::binary64::two_pow(200);
        if e >= 0 {
            assert(pow10(0) == 1);
            assert(num * (1 * g) == (num * g) * 1) by (nonlinear_arith);
        } else {
            assert(m * (den * g) == (m * g) * den) by (nonlinear_arith);
        }
        assert(tracks(le_value(ds@), f as nat, 200, num, den));
        if e < 0 {
            lemma_pow10_positive((-e) as nat);
        }
    }
    scaled_nearest(ds, f, scale, Ghost(num), Ghost(den))
}

/// The number that `cs[lo..hi]` writes, as `f64`'s `from_str` reads it,
/// times `10^scale` and converted to `usize` (see `scaled_amount`); `None`
/// where `from_str` refuses the text.
pub fn parse_scaled_float(cs: &Vec<char>, lo: usize, hi: usize, scale: u32) -> (r: Option<usize>)
    requires
        lo <= hi <= cs@.len(),
        cs@.len() <= isize::MAX,
        scale <= 6,
    ensures
        r is None <==> float_text(cs@.subrange(lo as int, hi as int)) is None,
        r matches Some(v) ==> v == scaled_amount(
            float_text(cs@.subrange(lo as int, hi as int))->0,
            scale as nat,
        ),
{
    let ghost s = cs@.subrange(lo as int, hi as int);
    let negative = lo < hi && cs[lo] == '-';
    let p = if lo < hi && (cs[lo] == '+' || cs[lo] == '-') {
        lo + 1
    } else {
        lo
    };
    let ghost body = cs@.subrange(p as int, hi as int);
    assert(body =~= (if s.len() > 0 && (s[0] == '+' || s[0] == '-') {
        s.drop_first()
    } else {
        s
    }));
    assert(negative == (s.len() > 0 && s[0] == '-'));
    let inf_lower = ['i', 'n', 'f'];
    let inf_upper = ['I', 'N', 'F'];
    let infinity_lower = ['i', 'n', 'f', 'i', 'n', 'i', 't', 'y'];
    let infinity_upper = ['I', 'N', 'F', 'I', 'N', 'I', 'T', 'Y'];
    let nan_lower = ['n', 'a', 'n'];
    let nan_upper = ['N', 'A', 'N'];
    assert(inf_lower@ =~= seq!['i', 'n', 'f']);
    assert(inf_upper@ =~= seq!['I', 'N', 'F']);
    assert(infinity_lower@ =~= seq!['i', 'n', 'f', 'i', 'n', 'i', 't', 'y']);
    assert(infinity_upper@ =~= seq!['I', 'N', 'F', 'I', 'N', 'I', 'T', 'Y']);
    assert(nan_lower@ =~= seq!['n', 'a', 'n']);
    assert(nan_upper@ =~= seq!['N', 'A', 'N']);
    if spells_at(cs, p, hi, &inf_lower, &inf_upper) || spells_at(
        cs,
        p,
        hi,
        &infinity_lower,
        &infinity_upper,
    ) {
        return Some(
            if negative {
                0
            } else {
                usize::MAX
            },
        );
    }
    if spells_at(cs, p, hi, &nan_lower, &nan_upper) {
        return Some(0);
    }
    match read_unsigned_decimal(cs, p, hi) {
        None => None,
        Some(parts) => {
            if negative {
                Some(0)
            } else {
                Some(nearest_amount(&parts, scale))
            }
        },
    }
}

/// Digits alone read as `f64`'s `from_str` reads them: the integer they
/// write.
pub proof fn lemma_digits_read_as_float(d: Seq<char>)
    requires
        d.len() > 0,
        all_digits(d),
    ensures
        float_text(d) == Some(FloatText::Finite { negative: false, mantissa: digits_value(d), exponent: 0 }),
{
    assert(is_digit(d[0]));
    assert forall|j: int| 0 <= j < d.len() implies #[trigger] d[j] != 'e' && d[j] != 'E' by {
        assert(is_digit(d[j]));
    }
    lemma_first_of(d, 'e', 'E', d.len());
    assert(d.take(d.len() as int) =~= d);
    assert forall|j: int| 0 <= j < d.len() implies #[trigger] d[j] != '.' && d[j] != '.' by {
        assert(is_digit(d[j]));
    }
    lemma_first_of(d, '.', '.', d.len());
    assert(d + Seq::<char>::empty() =~= d);
    assert(!spells(d, seq!['i', 'n', 'f'], seq!['I', 'N', 'F']));
    assert(!spells(d, seq!['i', 'n', 'f', 'i', 'n', 'i', 't', 'y'], seq!['I', 'N', 'F', 'I', 'N', 'I', 'T', 'Y']));
    assert(!spells(d, seq!['n', 'a', 'n'], seq!['N', 'A', 'N']));
}

/// Ten to the sixth and third powers.
pub proof fn lemma_pow10_small()
    ensures
        pow10(3) == 1_000,
        pow10(6) == 1_000_000,
{
    reveal_with_fuel(pow10, 7);
}

} // verus!
