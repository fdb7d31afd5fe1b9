//! Character-level helpers: whitespace trimming and decimal digit runs.
use vstd::prelude::*;
use vstd::arithmetic::div_mod::{
    lemma_div_denominator,
    lemma_div_multiples_vanish_fancy,
    lemma_fundamental_div_mod,
    lemma_mod_pos_bound,
};

verus! {

/// The Unicode `White_Space` property, which is what `char::is_whitespace` tests.
pub open spec fn is_space(c: char) -> bool {
    let u = c as u32;
    ||| 9 <= u <= 13
    ||| u == 32 || u == 0x85 || u == 0xa0 || u == 0x1680
    ||| 0x2000 <= u <= 0x200a
    ||| u == 0x2028 || u == 0x2029 || u == 0x202f || u == 0x205f || u == 0x3000
}

pub open spec fn trim_start(s: Seq<char>) -> Seq<char>
    decreases s.len(),
{
    if s.len() > 0 && is_space(s[0]) {
        trim_start(s.drop_first())
    } else {
        s
    }
}

pub open spec fn trim_end(s: Seq<char>) -> Seq<char>
    decreases s.len(),
{
    if s.len() > 0 && is_space(s.last()) {
        trim_end(s.drop_last())
    } else {
        s
    }
}

/// `s` without its leading and trailing whitespace.
pub open spec fn trim(s: Seq<char>) -> Seq<char> {
    trim_end(trim_start(s))
}

pub open spec fn is_digit(c: char) -> bool {
    '0' as u32 <= c as u32 <= '9' as u32
}

pub open spec fn digit_value(c: char) -> nat {
    (c as u32 - '0' as u32) as nat
}

pub open spec fn all_digits(s: Seq<char>) -> bool {
    forall|i: int| 0 <= i < s.len() ==> is_digit(#[trigger] s[i])
}

/// The number that a run of decimal digits spells, most significant first.
pub open spec fn digits_value(s: Seq<char>) -> nat
    decreases s.len(),
{
    if s.len() == 0 {
        0
    } else {
        digits_value(s.drop_last()) * 10 + digit_value(s.last())
    }
}

pub open spec fn pow10(n: nat) -> nat
    decreases n,
{
    if n == 0 {
        1
    } else {
        10 * pow10((n - 1) as nat)
    }
}

pub proof fn lemma_pow10_positive(n: nat)
    ensures
        pow10(n) >= 1,
    decreases n,
{
    if n > 0 {
        lemma_pow10_positive((n - 1) as nat);
    }
}

/// Splitting off the leading digit of a digit run.
pub proof fn lemma_digits_value_first(s: Seq<char>)
    requires
        s.len() > 0,
    ensures
        digits_value(s) == digit_value(s[0]) * pow10((s.len() - 1) as nat) + digits_value(
            s.drop_first(),
        ),
    decreases s.len(),
{
    let t = s.drop_last();
    assert(digits_value(s) == digits_value(t) * 10 + digit_value(s.last()));
    if s.len() > 1 {
        lemma_digits_value_first(t);
        assert(digits_value(s.drop_first()) == digits_value(s.drop_first().drop_last()) * 10
            + digit_value(s.drop_first().last()));
        assert(t.drop_first() =~= s.drop_first().drop_last());
        assert(t[0] == s[0]);
        assert(s.drop_first().last() == s.last());
        let p = pow10((t.len() - 1) as nat);
        assert(pow10((s.len() - 1) as nat) == 10 * p);
        assert((digit_value(s[0]) * p + digits_value(t.drop_first())) * 10 == digit_value(s[0])
            * (10 * p) + digits_value(t.drop_first()) * 10) by (nonlinear_arith);
    } else {
        assert(s.drop_first().len() == 0);
        assert(t.len() == 0);
        assert(s.last() == s[0]);
    }
}

pub proof fn lemma_pow10_add(a: nat, b: nat)
    ensures
        pow10(a + b) == pow10(a) * pow10(b),
    decreases b,
{
    if b > 0 {
        lemma_pow10_add(a, (b - 1) as nat);
        assert(pow10(a + b) == 10 * pow10((a + b - 1) as nat));
        assert(pow10(b) == 10 * pow10((b - 1) as nat));
        assert((a + b - 1) as nat == a + (b - 1) as nat);
        assert(pow10(a) * (10 * pow10((b - 1) as nat)) == 10 * (pow10(a) * pow10((b - 1) as nat)))
            by (nonlinear_arith);
    } else {
        assert(pow10(0) == 1);
        assert(a + b == a);
    }
}

pub proof fn lemma_pow10_mono(a: nat, b: nat)
    requires
        a <= b,
    ensures
        pow10(a) <= pow10(b),
{
    lemma_pow10_add(a, (b - a) as nat);
    lemma_pow10_positive((b - a) as nat);
    lemma_pow10_positive(a);
    assert(pow10(a) * pow10((b - a) as nat) >= pow10(a)) by (nonlinear_arith)
        requires
            pow10((b - a) as nat) >= 1,
            pow10(a) >= 1,
    ;
}

/// A digit run of length `n` is below `10^n`.
pub proof fn lemma_digits_value_bound(s: Seq<char>)
    requires
        all_digits(s),
    ensures
        digits_value(s) < pow10(s.len()),
    decreases s.len(),
{
    if s.len() > 0 {
        let t = s.drop_last();
        assert(all_digits(t)) by {
            assert forall|i: int| 0 <= i < t.len() implies is_digit(#[trigger] t[i]) by {
                assert(t[i] == s[i]);
            }
        }
        lemma_digits_value_bound(t);
        assert(is_digit(s[s.len() - 1]));
        assert(pow10(s.len()) == 10 * pow10(t.len()));
        assert(digits_value(t) * 10 + digit_value(s.last()) < 10 * pow10(t.len())) by (nonlinear_arith)
            requires
                digits_value(t) < pow10(t.len()),
                digit_value(s.last()) <= 9,
        ;
    }
}

/// The value of two digit runs written one after the other.
pub proof fn lemma_digits_value_concat(a: Seq<char>, b: Seq<char>)
    ensures
        digits_value(a + b) == digits_value(a) * pow10(b.len()) + digits_value(b),
    decreases b.len(),
{
    if b.len() == 0 {
        assert(a + b =~= a);
        assert(digits_value(b) == 0);
        assert(pow10(0) == 1);
    } else {
        let b0 = b.drop_last();
        lemma_digits_value_concat(a, b0);
        assert((a + b).drop_last() =~= a + b0);
        assert((a + b).last() == b.last());
        assert(digits_value(a + b) == digits_value((a + b).drop_last()) * 10 + digit_value(
            (a + b).last(),
        ));
        assert(digits_value(b) == digits_value(b0) * 10 + digit_value(b.last()));
        assert(pow10(b.len()) == 10 * pow10(b0.len()));
        assert((digits_value(a) * pow10(b0.len()) + digits_value(b0)) * 10 + digit_value(b.last())
            == digits_value(a) * (10 * pow10(b0.len())) + (digits_value(b0) * 10 + digit_value(
            b.last(),
        ))) by (nonlinear_arith);
    }
}

/// `(m * a + b) / m == a + b / m` for a non-negative `b`.
pub proof fn lemma_div_shift(a: int, b: int, m: int)
    requires
        0 < m,
        0 <= b,
    ensures
        (m * a + b) / m == a + b / m,
{
    lemma_fundamental_div_mod(b, m);
    lemma_mod_pos_bound(b, m);
    assert(m * a + b == m * (a + b / m) + b % m) by (nonlinear_arith)
        requires
            b == m * (b / m) + b % m,
    ;
    lemma_div_multiples_vanish_fancy(a + b / m, b % m, m);
}

/// Tests `char::is_whitespace`.
pub fn is_space_char(c: char) -> (r: bool)
    ensures
        r == is_space(c),
{
    let u = c as u32;
    (9 <= u && u <= 13) || u == 32 || u == 0x85 || u == 0xa0 || u == 0x1680 || (0x2000 <= u && u
        <= 0x200a) || u == 0x2028 || u == 0x2029 || u == 0x202f || u == 0x205f || u == 0x3000
}

pub fn is_digit_char(c: char) -> (r: bool)
    ensures
        r == is_digit(c),
{
    let u = c as u32;
    '0' as u32 <= u && u <= '9' as u32
}

/// The characters of `s`, in order.
pub fn chars_of(s: &str) -> (r: Vec<char>)
    ensures
        r@ == s@,
{
    let n = s.unicode_len();
    let mut r: Vec<char> = Vec::new();
    let mut i: usize = 0;
    while i < n
        invariant
            n == s@.len(),
            i <= n,
            r@ == s@.subrange(0, i as int),
        decreases n - i,
    {
        r.push(s.get_char(i));
        i = i + 1;
        assert(r@ =~= s@.subrange(0, i as int));
    }
    assert(r@ =~= s@);
    r
}

/// The bounds of `v[lo..hi]` once its whitespace at both ends is cut off.
pub fn trim_range(v: &Vec<char>, lo: usize, hi: usize) -> (r: (usize, usize))
    requires
        lo <= hi <= v@.len(),
    ensures
        lo <= r.0 <= r.1 <= hi,
        v@.subrange(r.0 as int, r.1 as int) == trim(v@.subrange(lo as int, hi as int)),
{
    let mut a = lo;
    while a < hi && is_space_char(v[a])
        invariant
            lo <= a <= hi <= v@.len(),
            trim_start(v@.subrange(lo as int, hi as int)) == trim_start(
                v@.subrange(a as int, hi as int),
            ),
        decreases hi - a,
    {
        assert(v@.subrange(a as int, hi as int).drop_first() =~= v@.subrange(a + 1, hi as int));
        a = a + 1;
    }
    let mut b = hi;
    while a < b && is_space_char(v[b - 1])
        invariant
            lo <= a <= b <= hi <= v@.len(),
            trim_end(v@.subrange(a as int, hi as int)) == trim_end(
                v@.subrange(a as int, b as int),
            ),
        decreases b - a,
    {
        assert(v@.subrange(a as int, b as int).drop_last() =~= v@.subrange(a as int, b - 1));
        b = b - 1;
    }
    (a, b)
}

/// Whether `v[lo..hi]` is made of digits only.
pub fn digits_only(v: &Vec<char>, lo: usize, hi: usize) -> (r: bool)
    requires
        lo <= hi <= v@.len(),
    ensures
        r == all_digits(v@.subrange(lo as int, hi as int)),
{
    let mut i = lo;
    while i < hi
        invariant
            lo <= i <= hi <= v@.len(),
            all_digits(v@.subrange(lo as int, i as int)),
        decreases hi - i,
    {
        if !is_digit_char(v[i]) {
            assert(v@.subrange(lo as int, hi as int)[i - lo] == v@[i as int]);
            return false;
        }
        i = i + 1;
        assert forall|j: int| 0 <= j < i - lo implies is_digit(
            #[trigger] v@.subrange(lo as int, i as int)[j],
        ) by {
            if j < i - 1 - lo {
                assert(v@.subrange(lo as int, i - 1)[j] == v@[lo + j]);
            }
        }
    }
    true
}

/// The value of the digit run `v[lo..hi]`, or `cap` where it is `cap` or more.
pub fn digits_capped(v: &Vec<char>, lo: usize, hi: usize, cap: u128) -> (r: u128)
    requires
        lo <= hi <= v@.len(),
        all_digits(v@.subrange(lo as int, hi as int)),
        cap <= 0x1_0000_0000_0000_0000_0000_0000,
    ensures
        r as int == if digits_value(v@.subrange(lo as int, hi as int)) < cap {
            digits_value(v@.subrange(lo as int, hi as int)) as int
        } else {
            cap as int
        },
{
    let mut acc: u128 = 0;
    let mut i = lo;
    while i < hi
        invariant
            lo <= i <= hi <= v@.len(),
            all_digits(v@.subrange(lo as int, hi as int)),
            cap <= 0x1_0000_0000_0000_0000_0000_0000,
            acc as int == if digits_value(v@.subrange(lo as int, i as int)) < cap {
                digits_value(v@.subrange(lo as int, i as int)) as int
            } else {
                cap as int
            },
        decreases hi - i,
    {
        let c = v[i];
        assert(v@.subrange(lo as int, hi as int)[i - lo] == c);
        assert(is_digit(c));
        let d = (c as u32 - '0' as u32) as u128;
        let ghost prev = v@.subrange(lo as int, i as int);
        let ghost next = v@.subrange(lo as int, i + 1);
        assert(next.drop_last() =~= prev);
        assert(digits_value(next) == digits_value(prev) * 10 + d);
        if acc >= cap {
            assert(digits_value(next) >= digits_value(prev));
            acc = cap;
        } else {
            let t = acc * 10 + d;
            if t >= cap {
                acc = cap;
            } else {
                acc = t;
            }
        }
        i = i + 1;
    }
    acc
}

/// `floor(q * 0.d1 d2 ... dk)` for the digit run `v[lo..hi]`, computed from the last
/// digit to the first so that no intermediate value outgrows `10 * q`.
pub fn scaled_fraction(v: &Vec<char>, lo: usize, hi: usize, q: u64) -> (r: u64)
    requires
        lo <= hi <= v@.len(),
        all_digits(v@.subrange(lo as int, hi as int)),
        0 < q <= 0x1_0000_0000,
    ensures
        r as int == (q * digits_value(v@.subrange(lo as int, hi as int))) / (pow10(
            (hi - lo) as nat,
        ) as int),
        r < q,
{
    let mut carry: u64 = 0;
    let mut i = hi;
    assert(v@.subrange(hi as int, hi as int).len() == 0);
    while i > lo
        invariant
            lo <= i <= hi <= v@.len(),
            all_digits(v@.subrange(lo as int, hi as int)),
            0 < q <= 0x1_0000_0000,
            carry as int == (q * digits_value(v@.subrange(i as int, hi as int))) / (pow10(
                (hi - i) as nat,
            ) as int),
            carry < q,
        decreases i - lo,
    {
        let c = v[i - 1];
        assert(v@.subrange(lo as int, hi as int)[i - 1 - lo] == c);
        assert(is_digit(c));
        let d = (c as u32 - '0' as u32) as u64;
        assert(d == digit_value(c));
        let ghost tail = v@.subrange(i as int, hi as int);
        let ghost s = v@.subrange(i - 1, hi as int);
        let ghost m = (hi - i) as nat;
        proof {
            lemma_digits_value_first(s);
            assert(s.drop_first() =~= tail);
            assert(s[0] == c);
            lemma_pow10_positive(m);
            let p = pow10(m) as int;
            let dv = digits_value(tail) as int;
            // q * value(s) == p * (q * d) + q * value(tail)
            assert(q * (d * p + dv) == p * (q * d) + q * dv) by (nonlinear_arith);
            lemma_div_shift(q * d, q * dv, p);
            lemma_div_denominator(q * (d * p + dv), p, 10);
            assert(pow10(m + 1) == 10 * p);
            assert(p * 10 == 10 * p);
            assert(d * q <= 9 * q) by (nonlinear_arith)
                requires
                    d <= 9,
            ;
        }
        let t = d * q + carry;
        carry = t / 10;
        i = i - 1;
    }
    carry
}

} // verus!
