//! Byte sizes written as text: `2048`, `512b`, `64KB`, `1.5 mb`, `1e3kb`.
use vstd::prelude::*;
use crate::text::{
    all_digits,
    chars_of,
    digits_capped,
    digits_only,
    digits_value,
    is_digit,
    is_digit_char,
    lemma_digits_value_bound,
    lemma_digits_value_concat,
    lemma_div_shift,
    lemma_pow10_add,
    lemma_pow10_mono,
    lemma_pow10_positive,
    pow10,
    scaled_fraction,
    trim,
    trim_range,
};
use vstd::arithmetic::div_mod::{
    lemma_basic_div,
    lemma_div_denominator,
    lemma_div_is_ordered_by_denominator,
};

verus! {

/// `c` is the lower-case ASCII letter `l` or its upper-case form.
pub open spec fn same_letter(c: char, l: char) -> bool {
    c == l || c as u32 + 32 == l as u32
}

/// `t` without one leading `+`.
pub open spec fn without_plus(t: Seq<char>) -> Seq<char> {
    if t.len() > 0 && t[0] == '+' {
        t.drop_first()
    } else {
        t
    }
}

/// What std's parser for an unsigned integer type whose largest value is `max`
/// makes of `t`: an optional `+`, then one or more digits whose value fits.
pub open spec fn parse_uint(t: Seq<char>, max: nat) -> Option<nat> {
    let b = without_plus(t);
    if b.len() > 0 && all_digits(b) && digits_value(b) <= max {
        Some(digits_value(b))
    } else {
        None
    }
}

pub open spec fn parse_usize(t: Seq<char>) -> Option<nat> {
    parse_uint(t, usize::MAX as nat)
}

/// `b[p]` is a decimal point with only digits on either side of it.
pub open spec fn dot_split(b: Seq<char>, p: int) -> bool {
    &&& 0 <= p < b.len()
    &&& b[p] == '.'
    &&& all_digits(b.subrange(0, p))
    &&& all_digits(b.subrange(p + 1, b.len() as int))
}

/// The digits before and after the decimal point of an unsigned number written
/// `ddd`, `ddd.ddd`, `ddd.` or `.ddd`.
pub open spec fn decimal_parts(b: Seq<char>) -> Option<(Seq<char>, Seq<char>)> {
    if b.len() > 0 && all_digits(b) {
        Some((b, Seq::<char>::empty()))
    } else if b.len() > 1 && exists|p: int| dot_split(b, p) {
        let p = choose|p: int| dot_split(b, p);
        Some((b.subrange(0, p), b.subrange(p + 1, b.len() as int)))
    } else {
        None
    }
}

/// `n` times `mul` times `10^t`, rounded to the nearest integer, halves up.
pub open spec fn round_shifted(n: nat, t: int, mul: nat) -> int {
    if t >= 0 {
        (n * mul * pow10(t as nat)) as int
    } else {
        let m = pow10((-t) as nat) as int;
        (2 * n * mul + m) / (2 * m)
    }
}

/// `x` held within `0..=usize::MAX`.
pub open spec fn saturate(x: int) -> nat {
    if x > usize::MAX {
        usize::MAX as nat
    } else if x < 0 {
        0
    } else {
        x as nat
    }
}

/// `b` is the word `w`, letter by letter in either case.
pub open spec fn same_word(b: Seq<char>, w: Seq<char>) -> bool {
    b.len() == w.len() && forall|i: int| 0 <= i < b.len() ==> same_letter(#[trigger] b[i], w[i])
}

pub open spec fn is_exp_mark(c: char) -> bool {
    c == 'e' || c == 'E'
}

/// `p` is where the first exponent mark of `b` stands, or `b.len()` where it has none.
pub open spec fn first_mark(b: Seq<char>, p: int) -> bool {
    &&& 0 <= p <= b.len()
    &&& forall|j: int| 0 <= j < p ==> !is_exp_mark(#[trigger] b[j])
    &&& p < b.len() ==> is_exp_mark(b[p])
}

/// An exponent: an optional sign, then one or more digits.
pub open spec fn exponent_value(x: Seq<char>) -> Option<int> {
    let neg = x.len() > 0 && x[0] == '-';
    let d = if x.len() > 0 && (x[0] == '+' || x[0] == '-') {
        x.drop_first()
    } else {
        x
    };
    if d.len() > 0 && all_digits(d) {
        Some(
            if neg {
                -(digits_value(d) as int)
            } else {
                digits_value(d) as int
            },
        )
    } else {
        None
    }
}

/// An unsigned finite number in the forms of Rust's `f64` parser: a decimal
/// number, then optionally `e` or `E` and an exponent. The parts are all its
/// digits, how many of them follow the decimal point, and the exponent.
pub open spec fn finite_parts(b: Seq<char>) -> Option<(Seq<char>, nat, int)> {
    let p = choose|p: int| first_mark(b, p);
    let e = if p < b.len() {
        exponent_value(b.subrange(p + 1, b.len() as int))
    } else {
        Some(0int)
    };
    match (decimal_parts(b.subrange(0, p)), e) {
        (Some(parts), Some(e)) => Some((parts.0 + parts.1, parts.1.len(), e)),
        _ => None,
    }
}

/// The number of bytes that a signed number of units of `mul` bytes stands
/// for, as Rust's `f64` parser reads it and a saturating conversion to `usize`
/// makes of it: rounded to the nearest byte, halves up; zero when negative or
/// `nan`; `usize::MAX` when larger or `inf`.
pub open spec fn scaled_size(t: Seq<char>, mul: nat) -> Option<nat> {
    let neg = t.len() > 0 && t[0] == '-';
    let b = if t.len() > 0 && (t[0] == '+' || t[0] == '-') {
        t.drop_first()
    } else {
        t
    };
    if same_word(b, "inf"@) || same_word(b, "infinity"@) {
        Some(
            if neg {
                0
            } else {
                usize::MAX as nat
            },
        )
    } else if same_word(b, "nan"@) {
        Some(0)
    } else {
        match finite_parts(b) {
            None => None,
            Some(f) => if neg {
                Some(0)
            } else {
                Some(saturate(round_shifted(digits_value(f.0), f.2 - f.1, mul)))
            },
        }
    }
}

/// `t` ends in the two-letter unit `l0 l1`, in either case.
pub open spec fn ends_with_unit(t: Seq<char>, l0: char, l1: char) -> bool {
    t.len() >= 2 && same_letter(t[t.len() - 2], l0) && same_letter(t[t.len() - 1], l1)
}

/// The byte count that `s` spells. Surrounding whitespace is ignored. A plain
/// unsigned integer is a count of bytes; otherwise the text is a number in the
/// forms that Rust's `f64` parser reads (a sign, a fractional part, an
/// exponent, `inf`, `infinity`, `nan`), followed by the unit `kb` (1024 bytes),
/// `mb` (1024 * 1024 bytes) or `b` (one byte), in either case.
pub open spec fn size_value(s: Seq<char>) -> Option<nat> {
    let t = trim(s);
    if parse_usize(t) is Some {
        parse_usize(t)
    } else if ends_with_unit(t, 'k', 'b') {
        scaled_size(trim(t.subrange(0, t.len() - 2)), 1024)
    } else if ends_with_unit(t, 'm', 'b') {
        scaled_size(trim(t.subrange(0, t.len() - 2)), 1024 * 1024)
    } else if t.len() >= 1 && same_letter(t[t.len() - 1], 'b') {
        scaled_size(trim(t.subrange(0, t.len() - 1)), 1)
    } else {
        None
    }
}

fn is_letter(c: char, l: char) -> (r: bool)
    ensures
        r == same_letter(c, l),
{
    c == l || c as u32 + 32 == l as u32
}

/// Whether `v[lo..hi]` is the word `w`, in either case.
fn word_matches(v: &Vec<char>, lo: usize, hi: usize, w: &str) -> (r: bool)
    requires
        lo <= hi <= v@.len(),
    ensures
        r == same_word(v@.subrange(lo as int, hi as int), w@),
{
    let ghost b = v@.subrange(lo as int, hi as int);
    let n = w.unicode_len();
    if hi - lo != n {
        return false;
    }
    let mut i: usize = 0;
    while i < n
        invariant
            lo <= hi <= v@.len(),
            b == v@.subrange(lo as int, hi as int),
            n == w@.len(),
            hi - lo == n,
            i <= n,
            forall|j: int| 0 <= j < i ==> same_letter(#[trigger] b[j], w@[j]),
        decreases n - i,
    {
        assert(b[i as int] == v@[lo + i]);
        if !is_letter(v[lo + i], w.get_char(i)) {
            return false;
        }
        i = i + 1;
    }
    true
}

/// Where the first `e` or `E` of `v[lo..hi]` stands, or `hi`.
fn find_mark(v: &Vec<char>, lo: usize, hi: usize) -> (p: usize)
    requires
        lo <= hi <= v@.len(),
    ensures
        lo <= p <= hi,
        first_mark(v@.subrange(lo as int, hi as int), p - lo),
{
    let ghost b = v@.subrange(lo as int, hi as int);
    let mut p = lo;
    while p < hi && !(v[p] == 'e' || v[p] == 'E')
        invariant
            lo <= p <= hi <= v@.len(),
            forall|j: int| lo <= j < p ==> !is_exp_mark(#[trigger] v@[j]),
        decreases hi - p,
    {
        p = p + 1;
    }
    assert forall|j: int| 0 <= j < p - lo implies !is_exp_mark(#[trigger] b[j]) by {
        assert(b[j] == v@[lo + j]);
    }
    if p < hi {
        assert(b[p - lo] == v@[p as int]);
    }
    p
}

/// Splits `v[lo..hi]` as a decimal number: where its integer digits end and
/// where its fractional digits start.
fn split_decimal(v: &Vec<char>, lo: usize, hi: usize) -> (r: Option<(usize, usize)>)
    requires
        lo <= hi <= v@.len(),
    ensures
        r is None <==> decimal_parts(v@.subrange(lo as int, hi as int)) is None,
        r matches Some(s) ==> lo <= s.0 <= s.1 <= hi && decimal_parts(
            v@.subrange(lo as int, hi as int),
        ) == Some((v@.subrange(lo as int, s.0 as int), v@.subrange(s.1 as int, hi as int))),
{
    let a = lo;
    let ghost b = v@.subrange(a as int, hi as int);
    let mut i = a;
    while i < hi && is_digit_char(v[i])
        invariant
            a <= i <= hi <= v@.len(),
            forall|j: int| a <= j < i ==> is_digit(#[trigger] v@[j]),
        decreases hi - i,
    {
        i = i + 1;
    }
    assert(all_digits(b.subrange(0, i - a)));
    assert(b.subrange(0, i - a) =~= v@.subrange(a as int, i as int));
    if i == hi {
        if a == hi {
            assert(b.len() == 0);
            return None;
        }
        assert(b =~= b.subrange(0, i - a));
        assert(decimal_parts(b) == Some((b, Seq::<char>::empty())));
        assert(v@.subrange(hi as int, hi as int) =~= Seq::<char>::empty());
        return Some((hi, hi));
    }
    assert(b[i - a] == v@[i as int]);
    assert(!all_digits(b)) by {
        assert(!is_digit(b[i - a]));
    }
    if !(v[i] == '.' && hi - a > 1 && digits_only(v, i + 1, hi)) {
        proof {
            if b.len() > 1 {
                assert forall|p: int| !dot_split(b, p) by {
                    if dot_split(b, p) {
                        if p < i - a {
                            assert(b.subrange(p + 1, b.len() as int)[i - a - p - 1] == b[i
                                - a]);
                        } else if p > i - a {
                            assert(b.subrange(0, p)[i - a] == b[i - a]);
                        } else {
                            assert(b.subrange(p + 1, b.len() as int) =~= v@.subrange(
                                i + 1,
                                hi as int,
                            ));
                        }
                    }
                }
            }
        }
        return None;
    }
    let ghost p = i - a;
    assert(b.subrange(p + 1, b.len() as int) =~= v@.subrange(i + 1, hi as int));
    assert(dot_split(b, p));
    let ghost q = choose|q: int| dot_split(b, q);
    assert(q == p) by {
        if q < p {
            assert(b.subrange(0, p)[q] == b[q]);
        } else if q > p {
            assert(b.subrange(0, q)[p] == b[p]);
        }
    }
    Some((i, i + 1))
}

/// Exponents at least this large, either way, are held at it.
pub const EXP_CAP: u128 = 0x2_0000_0000_0000_0000;

/// Reads `v[lo..hi]` as an exponent: its sign, and its size held at `EXP_CAP`.
fn parse_exponent(v: &Vec<char>, lo: usize, hi: usize) -> (r: Option<(bool, u128)>)
    requires
        lo <= hi <= v@.len(),
    ensures
        r is None <==> exponent_value(v@.subrange(lo as int, hi as int)) is None,
        r matches Some(e) ==> ({
            let x = exponent_value(v@.subrange(lo as int, hi as int))->0;
            &&& e.1 <= EXP_CAP
            &&& e.1 < EXP_CAP ==> x == (if e.0 {
                -(e.1 as int)
            } else {
                e.1 as int
            })
            &&& e.1 == EXP_CAP ==> (if e.0 {
                x <= -(EXP_CAP as int)
            } else {
                x >= EXP_CAP
            })
        }),
{
    let ghost t = v@.subrange(lo as int, hi as int);
    let neg = lo < hi && v[lo] == '-';
    let mut a = lo;
    if lo < hi && (v[lo] == '+' || v[lo] == '-') {
        a = a + 1;
        assert(t.drop_first() =~= v@.subrange(a as int, hi as int));
    } else {
        assert(t =~= v@.subrange(a as int, hi as int));
    }
    if a == hi || !digits_only(v, a, hi) {
        return None;
    }
    let m = digits_capped(v, a, hi, EXP_CAP);
    Some((neg, m))
}

/// `n * mul * 10^t`, held within `0..=usize::MAX`, for a digit run of value `n`.
fn shift_up(d: &Vec<char>, t: u128, mul: u64) -> (r: usize)
    requires
        all_digits(d@),
        1 <= mul <= 1024 * 1024,
    ensures
        r == saturate(digits_value(d@) * mul * pow10(t as nat)),
{
    let ghost n = digits_value(d@);
    assert(d@.subrange(0, d@.len() as int) =~= d@);
    let cap: u128 = usize::MAX as u128 + 1;
    let nc = digits_capped(d, 0, d.len(), cap);
    assert(nc * (mul as u128) <= cap * 0x10_0000) by (nonlinear_arith)
        requires
            nc <= cap,
            mul <= 0x10_0000,
    ;
    let mut v: u128 = nc * (mul as u128);
    proof {
        assert(pow10(0) == 1);
        if n >= cap {
            assert(n * mul >= n) by (nonlinear_arith)
                requires
                    mul >= 1,
                    n >= 0,
            ;
            assert(nc * mul >= nc) by (nonlinear_arith)
                requires
                    mul >= 1,
            ;
        }
    }
    let mut j: u128 = 0;
    while j < t && v <= usize::MAX as u128
        invariant
            j <= t,
            cap == usize::MAX as u128 + 1,
            1 <= mul <= 1024 * 1024,
            n == digits_value(d@),
            v <= cap * 0x10_0000,
            n * mul * pow10(j as nat) <= usize::MAX ==> v == n * mul * pow10(j as nat),
            n * mul * pow10(j as nat) > usize::MAX ==> v > usize::MAX,
        decreases t - j,
    {
        proof {
            assert(pow10((j + 1) as nat) == 10 * pow10(j as nat));
            assert(n * mul * (10 * pow10(j as nat)) == 10 * (n * mul * pow10(j as nat)))
                by (nonlinear_arith);
        }
        v = v * 10;
        j = j + 1;
    }
    proof {
        if j < t {
            lemma_pow10_mono(j as nat, t as nat);
            assert(n * mul * pow10(j as nat) <= n * mul * pow10(t as nat)) by (nonlinear_arith)
                requires
                    pow10(j as nat) <= pow10(t as nat),
                    n * mul >= 0,
            ;
        }
    }
    if v > usize::MAX as u128 {
        usize::MAX
    } else {
        v as usize
    }
}

/// `(X + m) / (2 * m) == (X / m + 1) / 2`: rounding `X / m` half up.
proof fn lemma_round_half(x: int, m: int)
    requires
        x >= 0,
        m >= 1,
    ensures
        (x + m) / (2 * m) == (x / m + 1) / 2,
{
    lemma_div_denominator(x + m, m, 2);
    lemma_div_shift(1, x, m);
    assert(m * 1 + x == x + m);
    assert(m * 2 == 2 * m);
}

/// `n * mul / 10^s`, rounded half up and held within `0..=usize::MAX`, for a
/// digit run of value `n`.
fn shift_down(d: &Vec<char>, s: u128, mul: u64) -> (r: usize)
    requires
        all_digits(d@),
        1 <= mul <= 1024 * 1024,
        s >= 1,
    ensures
        ({
            let m = pow10(s as nat) as int;
            r == saturate((2 * digits_value(d@) * mul + m) / (2 * m))
        }),
{
    let ghost n = digits_value(d@) as int;
    let ghost m = pow10(s as nat) as int;
    let len = d.len();
    let q: u64 = 2 * mul;
    proof {
        lemma_pow10_positive(s as nat);
        assert(n >= 0);
        assert(2 * n * mul == q * n) by (nonlinear_arith)
            requires
                q == 2 * mul,
        ;
        assert(q * n >= 0) by (nonlinear_arith)
            requires
                q >= 0,
                n >= 0,
        ;
        lemma_round_half(q * n, m);
    }
    if s <= len as u128 {
        let cut = len - s as usize;
        let ghost hd = d@.subrange(0, cut as int);
        let ghost tl = d@.subrange(cut as int, len as int);
        assert(d@ =~= hd + tl);
        assert(d@.subrange(0, len as int) =~= d@);
        assert(all_digits(hd)) by {
            assert forall|i: int| 0 <= i < hd.len() implies is_digit(#[trigger] hd[i]) by {
                assert(hd[i] == d@[i]);
            }
        }
        assert(all_digits(tl)) by {
            assert forall|i: int| 0 <= i < tl.len() implies is_digit(#[trigger] tl[i]) by {
                assert(tl[i] == d@[cut + i]);
            }
        }
        let cap: u128 = usize::MAX as u128 + 1;
        let whole = digits_capped(d, 0, cut, cap);
        let carry = scaled_fraction(d, cut, len, q);
        assert(whole * (mul as u128) <= cap * 0x10_0000) by (nonlinear_arith)
            requires
                whole <= cap,
                mul <= 0x10_0000,
        ;
        let total: u128 = whole * (mul as u128) + ((carry as u128 + 1) / 2);
        proof {
            let iv = digits_value(hd) as int;
            let dv = digits_value(tl) as int;
            lemma_digits_value_concat(hd, tl);
            assert(tl.len() == s);
            assert(n == iv * m + dv);
            // q * n == (2 * m) * (iv * mul) / ... split as in the fraction case
            assert(q * n == m * (q * iv) + q * dv) by (nonlinear_arith)
                requires
                    n == iv * m + dv,
            ;
            assert(q * dv >= 0) by (nonlinear_arith)
                requires
                    q >= 0,
                    dv >= 0,
            ;
            lemma_div_shift(q * iv, q * dv, m);
            assert(q * iv == 2 * (iv * mul)) by (nonlinear_arith)
                requires
                    q == 2 * mul,
            ;
            lemma_div_shift(iv * mul, carry + 1, 2);
            assert((q * n) / m + 1 == 2 * (iv * mul) + (carry + 1));
            if iv >= cap {
                assert(iv * mul >= cap) by (nonlinear_arith)
                    requires
                        iv >= cap,
                        mul >= 1,
                ;
                assert(whole * mul >= cap) by (nonlinear_arith)
                    requires
                        whole == cap,
                        mul >= 1,
                ;
            }
        }
        if total > usize::MAX as u128 {
            usize::MAX
        } else {
            total as usize
        }
    } else {
        let mut carry = scaled_fraction(d, 0, len, q);
        let extra: u128 = s - len as u128;
        let mut j: u128 = 0;
        proof {
            assert(d@.subrange(0, len as int) =~= d@);
        }
        while j < extra && carry > 0
            invariant
                j <= extra,
                extra == s - len,
                carry as int == (q * n) / (pow10((len + j) as nat) as int),
                carry < q,
                q * n >= 0,
            decreases extra - j,
        {
            proof {
                lemma_pow10_positive((len + j) as nat);
                lemma_div_denominator(q * n, pow10((len + j) as nat) as int, 10);
                assert(pow10((len + j + 1) as nat) == 10 * pow10((len + j) as nat));
                assert(pow10((len + j) as nat) * 10 == 10 * pow10((len + j) as nat));
            }
            carry = carry / 10;
            j = j + 1;
        }
        proof {
            if j < extra {
                lemma_pow10_positive((len + j) as nat);
                lemma_pow10_mono((len + j) as nat, s as nat);
                lemma_div_is_ordered_by_denominator(
                    q * n,
                    pow10((len + j) as nat) as int,
                    m,
                );
                assert((q * n) / m >= 0) by {
                    vstd::arithmetic::div_mod::lemma_div_pos_is_pos(q * n, m);
                }
            }
        }
        ((carry + 1) / 2) as usize
    }
}

/// The number whose digits are `v[a..i]` then `v[f..p]`, the last `p - f` of
/// them after the decimal point, times `10^e` and `mul`: rounded half up and
/// held within `0..=usize::MAX`. The exponent is given by its sign and its size
/// held at `EXP_CAP`.
#[verifier::rlimit(60)]
fn scaled_digits(
    v: &Vec<char>,
    a: usize,
    i: usize,
    f: usize,
    p: usize,
    e_neg: bool,
    e_mag: u128,
    e: Ghost<int>,
    mul: u64,
) -> (r: usize)
    requires
        a <= i <= f <= p <= v@.len(),
        all_digits(v@.subrange(a as int, i as int)),
        all_digits(v@.subrange(f as int, p as int)),
        1 <= mul <= 1024 * 1024,
        e_mag <= EXP_CAP,
        e_mag < EXP_CAP ==> e@ == (if e_neg {
            -(e_mag as int)
        } else {
            e_mag as int
        }),
        e_mag == EXP_CAP ==> (if e_neg {
            e@ <= -(EXP_CAP as int)
        } else {
            e@ >= EXP_CAP
        }),
    ensures
        r == saturate(
            round_shifted(
                digits_value(v@.subrange(a as int, i as int) + v@.subrange(f as int, p as int)),
                e@ - (p - f),
                mul as nat,
            ),
        ),
{
    let ghost e = e@;
    // all the digits, the fractional ones after the integer ones
    let mut d: Vec<char> = Vec::new();
    let mut j = a;
    while j < i
        invariant
            a <= j <= i <= f <= p <= v@.len(),
            d@ == v@.subrange(a as int, j as int),
        decreases i - j,
    {
        d.push(v[j]);
        j = j + 1;
        assert(d@ =~= v@.subrange(a as int, j as int));
    }
    let mut j = f;
    while j < p
        invariant
            a <= i <= f <= j <= p <= v@.len(),
            d@ == v@.subrange(a as int, i as int) + v@.subrange(f as int, j as int),
        decreases p - j,
    {
        d.push(v[j]);
        j = j + 1;
        assert(d@ =~= v@.subrange(a as int, i as int) + v@.subrange(f as int, j as int));
    }
    let k = p - f;
    proof {
        let ip = v@.subrange(a as int, i as int);
        let fp = v@.subrange(f as int, p as int);
        assert(all_digits(d@)) by {
            assert forall|x: int| 0 <= x < d@.len() implies is_digit(#[trigger] d@[x]) by {
                if x < ip.len() {
                    assert(d@[x] == ip[x]);
                } else {
                    assert(d@[x] == fp[x - ip.len()]);
                }
            }
        }
    }
    let ghost n = digits_value(d@);
    let ghost tt = e - k;
    assert(d@.subrange(0, d@.len() as int) =~= d@);
    let nz = digits_capped(&d, 0, d.len(), 1);
    if nz == 0 {
        proof {
            assert(n == 0);
            if tt < 0 {
                let m = pow10((-tt) as nat) as int;
                lemma_pow10_positive((-tt) as nat);
                assert(2 * n * mul == 0) by (nonlinear_arith)
                    requires
                        n == 0,
                ;
                lemma_basic_div(m, 2 * m);
            } else {
                assert(n * mul * pow10(tt as nat) == 0) by (nonlinear_arith)
                    requires
                        n == 0,
                ;
            }
        }
        return 0;
    }
    if e_mag == EXP_CAP {
        proof {
            lemma_digits_value_bound(d@);
            assert(d@.len() <= v@.len());
        }
        if e_neg {
            proof {
                let s = (-tt) as nat;
                assert(s >= d@.len() + 7);
                let m = pow10(s) as int;
                lemma_pow10_add(d@.len(), 7);
                lemma_pow10_mono(d@.len() + 7, s);
                reveal_with_fuel(pow10, 8);
                assert(pow10(7) == 10000000);
                assert(2 * n * mul < pow10(d@.len()) * 10000000) by (nonlinear_arith)
                    requires
                        n < pow10(d@.len()),
                        2 * mul <= 10000000,
                ;
                assert(2 * n * mul >= 0) by (nonlinear_arith)
                    requires
                        n >= 0,
                        mul >= 1,
                ;
                lemma_round_half(2 * n * mul, m);
                lemma_basic_div(2 * n * mul, m);
                lemma_basic_div(1, 2);
            }
            return 0;
        } else {
            proof {
                let t0 = tt as nat;
                assert(t0 >= 20);
                lemma_pow10_mono(20, t0);
                reveal_with_fuel(pow10, 21);
                assert(pow10(20) == 100000000000000000000);
                assert(n * mul * pow10(t0) >= pow10(t0)) by (nonlinear_arith)
                    requires
                        n >= 1,
                        mul >= 1,
                        pow10(t0) >= 0,
                ;
            }
            return usize::MAX;
        }
    }
    let kk = k as u128;
    let up = if e_neg {
        e_mag == 0 && kk == 0
    } else {
        e_mag >= kk
    };
    if up {
        shift_up(&d, if e_neg { 0 } else { e_mag - kk }, mul)
    } else {
        let s: u128 = if e_neg {
            e_mag + kk
        } else {
            kk - e_mag
        };
        shift_down(&d, s, mul)
    }
}
/// Reads `v[lo..hi]` as a signed number of units of `mul` bytes.
fn parse_scaled(v: &Vec<char>, lo: usize, hi: usize, mul: u64) -> (r: Option<usize>)
    requires
        lo <= hi <= v@.len(),
        1 <= mul <= 1024 * 1024,
    ensures
        r is Some <==> scaled_size(v@.subrange(lo as int, hi as int), mul as nat) is Some,
        r is Some ==> r->0 == scaled_size(v@.subrange(lo as int, hi as int), mul as nat)->0,
{
    let ghost t = v@.subrange(lo as int, hi as int);
    let mut a = lo;
    let neg = lo < hi && v[lo] == '-';
    if lo < hi && (v[lo] == '+' || v[lo] == '-') {
        a = a + 1;
        assert(t.drop_first() =~= v@.subrange(a as int, hi as int));
    } else {
        assert(t =~= v@.subrange(a as int, hi as int));
    }
    let ghost b = v@.subrange(a as int, hi as int);
    if word_matches(v, a, hi, "inf") || word_matches(v, a, hi, "infinity") {
        return Some(if neg { 0 } else { usize::MAX });
    }
    if word_matches(v, a, hi, "nan") {
        return Some(0);
    }
    let p = find_mark(v, a, hi);
    let ghost pp = choose|x: int| first_mark(b, x);
    assert(pp == p - a) by {
        assert(first_mark(b, p - a));
        if pp < p - a {
            assert(is_exp_mark(b[pp]));
        } else if pp > p - a {
            assert(is_exp_mark(b[p - a]));
        }
    }
    assert(b.subrange(0, p - a) =~= v@.subrange(a as int, p as int));
    let split = split_decimal(v, a, p);
    let (i, f) = match split {
        Some(s) => s,
        None => {
            return None;
        },
    };
    let (e_neg, e_mag) = if p < hi {
        assert(b.subrange(p - a + 1, b.len() as int) =~= v@.subrange(p + 1, hi as int));
        match parse_exponent(v, p + 1, hi) {
            Some(e) => e,
            None => {
                return None;
            },
        }
    } else {
        (false, 0u128)
    };
    if neg {
        return Some(0);
    }
    let ghost parts = finite_parts(b)->0;
    assert(parts.0 == v@.subrange(a as int, i as int) + v@.subrange(f as int, p as int));
    assert(parts.1 == p - f);
    Some(scaled_digits(v, a, i, f, p, e_neg, e_mag, Ghost(parts.2), mul))
}


/// Reads `v[lo..hi]` as std's parser for an unsigned type up to `max` does.
pub fn parse_unsigned(v: &Vec<char>, lo: usize, hi: usize, max: u64) -> (r: Option<u64>)
    requires
        lo <= hi <= v@.len(),
    ensures
        r is Some <==> parse_uint(v@.subrange(lo as int, hi as int), max as nat) is Some,
        r is Some ==> r->0 == parse_uint(v@.subrange(lo as int, hi as int), max as nat)->0,
{
    let ghost t = v@.subrange(lo as int, hi as int);
    let mut a = lo;
    if a < hi && v[a] == '+' {
        a = a + 1;
        assert(t.drop_first() =~= v@.subrange(a as int, hi as int));
    } else {
        assert(t =~= v@.subrange(a as int, hi as int));
    }
    if a == hi || !digits_only(v, a, hi) {
        return None;
    }
    let cap: u128 = max as u128 + 1;
    let n = digits_capped(v, a, hi, cap);
    if n <= max as u128 {
        Some(n as u64)
    } else {
        None
    }
}

/// Reads a byte size: a plain unsigned integer, or a number followed by `kb`,
/// `mb` or `b` in either case; `None` where the text is neither.
pub fn parse_size_bytes(s: &str) -> (r: Option<usize>)
    ensures
        r is Some <==> size_value(s@) is Some,
        r is Some ==> r->0 == size_value(s@)->0,
{
    let v = chars_of(s);
    assert(v@.subrange(0, v@.len() as int) =~= s@);
    let (lo, hi) = trim_range(&v, 0, v.len());
    let ghost t = v@.subrange(lo as int, hi as int);
    assert(t == trim(s@));
    if let Some(n) = parse_unsigned(&v, lo, hi, usize::MAX as u64) {
        return Some(n as usize);
    }
    if hi - lo >= 2 && is_letter(v[hi - 2], 'k') && is_letter(v[hi - 1], 'b') {
        assert(t.subrange(0, t.len() - 2) =~= v@.subrange(lo as int, hi - 2));
        let (a, b) = trim_range(&v, lo, hi - 2);
        return parse_scaled(&v, a, b, 1024);
    }
    if hi - lo >= 2 && is_letter(v[hi - 2], 'm') && is_letter(v[hi - 1], 'b') {
        assert(t.subrange(0, t.len() - 2) =~= v@.subrange(lo as int, hi - 2));
        let (a, b) = trim_range(&v, lo, hi - 2);
        return parse_scaled(&v, a, b, 1024 * 1024);
    }
    if hi - lo >= 1 && is_letter(v[hi - 1], 'b') {
        assert(t.subrange(0, t.len() - 1) =~= v@.subrange(lo as int, hi - 1));
        let (a, b) = trim_range(&v, lo, hi - 1);
        return parse_scaled(&v, a, b, 1);
    }
    None
}

} // verus!
