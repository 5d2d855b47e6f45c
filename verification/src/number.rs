//! Numbers as they are written in file names and rules.
//!
//! A written number stands for the nearest value of the IEEE 754 double-precision format. Such a
//! value is held as its *ordinal*: its place among the non-negative values of the format, counted
//! from zero, which is also its bit pattern.

use crate::decimal::{
    all_digits,
    count_digits,
    decimal_text,
    digit_run,
    digits_value,
    integer_of,
    is_digit,
    lemma_decimal_text,
    lemma_digit_run,
    lemma_digit_run_is,
    lemma_digits_value_bound,
    lemma_zero_padded_value,
    pad_with_zeros,
    push_natural,
    read_integer,
    saturated,
    text_of_u64,
    value_of_digit,
    zero_padded,
    SATURATION,
};
use crate::natural::{Natural, Relation};
use crate::text::{chars_of, lemma_trimmed_is, trimmed};
use crate::unicode::is_space;
use vstd::arithmetic::div_mod::{lemma_fundamental_div_mod, lemma_fundamental_div_mod_converse};
use vstd::arithmetic::power::{
    lemma_pow0,
    lemma_pow1,
    lemma_pow_adds,
    lemma_pow_increases,
    lemma_pow_positive,
    pow,
};
use vstd::arithmetic::power2::{
    lemma2_to64,
    lemma2_to64_rest,
    lemma_pow2_adds,
    lemma_pow2_pos,
    lemma_pow2_strictly_increases,
    lemma_pow2_unfold,
    pow2,
};
use vstd::prelude::*;

verus! {

/// The ordinal of infinity; every smaller ordinal belongs to a finite value.
pub const INFINITE: u64 = 0x7ff0_0000_0000_0000;

/// The number of values that share one exponent.
pub const BLOCK: u64 = 0x10_0000_0000_0000;

/// The significand of the value with ordinal `n`.
pub open spec fn significand(n: nat) -> nat {
    if n / (BLOCK as nat) == 0 {
        n
    } else {
        BLOCK as nat + n % (BLOCK as nat)
    }
}

/// The power of two by which the significand of the value with ordinal `n` is scaled.
pub open spec fn scale(n: nat) -> nat {
    if n / (BLOCK as nat) == 0 {
        0
    } else {
        (n / (BLOCK as nat) - 1) as nat
    }
}

/// The value with ordinal `n`, counted in units of the smallest positive value, `2^-1074`.
pub open spec fn units(n: nat) -> nat {
    significand(n) * pow2(scale(n))
}

/// Whether `n` is the ordinal of the value nearest to `p / q`, where a tie goes to the even ordinal
/// and infinity counts as the value after the largest finite one.
pub open spec fn is_nearest(p: nat, q: nat, n: nat) -> bool {
    let twice = p * pow2(1075);
    &&& n <= INFINITE
    &&& n > 0 ==> {
        let lower = (units((n - 1) as nat) + units(n)) * q;
        lower < twice || lower == twice && n % 2 == 0
    }
    &&& n < INFINITE ==> {
        let upper = (units(n) + units(n + 1)) * q;
        twice < upper || twice == upper && n % 2 == 0
    }
}

/// The ordinal of the value nearest to `p / q`.
pub open spec fn nearest(p: nat, q: nat) -> nat {
    choose|n: nat| is_nearest(p, q, n)
}

/// Twice the midpoint between a value and its successor.
proof fn lemma_midpoint(n: nat)
    ensures
        units(n) + units(n + 1) == (2 * significand(n) + 1) * pow2(scale(n)),
        units(n) < units(n + 1),
{
    let b = BLOCK as nat;
    let s = significand(n);
    let e = scale(n);
    lemma_pow2_pos(e);
    let w = pow2(e);
    if (n + 1) / b == n / b {
        assert((n + 1) % b == n % b + 1);
        assert(significand(n + 1) == s + 1);
        assert(scale(n + 1) == e);
        assert(s * w + (s + 1) * w == (2 * s + 1) * w) by (nonlinear_arith);
        assert((s + 1) * w == s * w + w) by (nonlinear_arith);
    } else {
        assert((n + 1) / b == n / b + 1);
        assert((n + 1) % b == 0);
        assert(n % b == b - 1);
        if n / b == 0 {
            assert(s == b - 1);
            assert(significand(n + 1) == b);
            assert(scale(n + 1) == 0);
            assert(s * w + (s + 1) * w == (2 * s + 1) * w) by (nonlinear_arith);
            assert((s + 1) * w == s * w + w) by (nonlinear_arith);
        } else {
            assert(s == 2 * b - 1);
            assert(significand(n + 1) == b);
            assert(scale(n + 1) == e + 1);
            lemma_pow2_unfold(e + 1);
            assert(pow2(e + 1) == 2 * w);
            assert(b * (2 * w) == (s + 1) * w) by (nonlinear_arith)
                requires
                    s == 2 * b - 1,
            ;
            assert(s * w + (s + 1) * w == (2 * s + 1) * w) by (nonlinear_arith);
            assert((s + 1) * w == s * w + w) by (nonlinear_arith);
        }
    }
}

/// Larger ordinals belong to larger values.
pub proof fn lemma_units_increase(a: nat, b: nat)
    requires
        a < b,
    ensures
        units(a) < units(b),
    decreases b - a,
{
    lemma_midpoint((b - 1) as nat);
    if a < b - 1 {
        lemma_units_increase(a, (b - 1) as nat);
    }
}

/// At most one ordinal is nearest to a ratio.
pub proof fn lemma_nearest_unique(p: nat, q: nat, a: nat, b: nat)
    requires
        q > 0,
        is_nearest(p, q, a),
        is_nearest(p, q, b),
    ensures
        a == b,
{
    lemma_nearest_not_below(p, q, a, b);
    lemma_nearest_not_below(p, q, b, a);
}

proof fn lemma_nearest_not_below(p: nat, q: nat, a: nat, b: nat)
    requires
        q > 0,
        is_nearest(p, q, a),
        is_nearest(p, q, b),
    ensures
        a >= b,
{
    if a + 1 < b {
        let above = units(a) + units(a + 1);
        let below = units((b - 1) as nat) + units(b);
        lemma_units_increase(a, (b - 1) as nat);
        lemma_units_increase(a + 1, b);
        assert(above * q < below * q) by (nonlinear_arith)
            requires
                above < below,
                q > 0,
        ;
    }
}

/// Whether the value nearest to the ratio whose double is `twice / q` units is at least the one with
/// ordinal `n`.
spec fn reaches(twice: nat, q: nat, n: nat) -> bool {
    n > 0 ==> {
        let lower = (units((n - 1) as nat) + units(n)) * q;
        lower < twice || lower == twice && n % 2 == 0
    }
}

/// The significand of the value with ordinal `n`.
fn significand_of(n: u64) -> (r: u64)
    ensures
        r == significand(n as nat),
        r < 2 * BLOCK,
{
    if n / BLOCK == 0 {
        n
    } else {
        BLOCK + n % BLOCK
    }
}

/// The scale of the value with ordinal `n`.
fn scale_of(n: u64) -> (r: usize)
    ensures
        r == scale(n as nat),
        r < 4096,
{
    if n / BLOCK == 0 {
        0
    } else {
        (n / BLOCK - 1) as usize
    }
}

/// The ordinal of the value nearest to `p / q`.
pub fn round_ratio(p: &Natural, q: &Natural) -> (r: u64)
    requires
        q@ > 0,
    ensures
        is_nearest(p@, q@, r as nat),
        r == nearest(p@, q@),
{
    let mut twice = p.duplicate();
    twice.shift_left(1075);
    let ghost t = p@ * pow2(1075);
    let mut lo: u64 = 0;
    let mut hi: u64 = INFINITE + 1;
    while hi - lo > 1
        invariant
            q@ > 0,
            twice@ == t,
            lo < hi <= INFINITE + 1,
            reaches(t, q@, lo as nat),
            hi <= INFINITE ==> !reaches(t, q@, hi as nat),
        decreases hi - lo,
    {
        let mid: u64 = lo + (hi - lo) / 2;
        let below: u64 = mid - 1;
        let m: u64 = significand_of(below);
        let e: usize = scale_of(below);
        let mut bound = q.duplicate();
        bound.mul_add(2 * m + 1, 0);
        bound.shift_left(e);
        proof {
            lemma_midpoint(below as nat);
            let k = (2 * m + 1) as nat;
            let w = pow2(e as nat);
            let qq = q@;
            assert((qq * k) * w == (k * w) * qq) by (nonlinear_arith);
        }
        let reached: bool = match bound.compare(&twice) {
            Relation::Below => true,
            Relation::Same => mid % 2 == 0,
            Relation::Above => false,
        };
        if reached {
            lo = mid;
        } else {
            hi = mid;
        }
    }
    proof {
        assert(is_nearest(p@, q@, lo as nat));
        lemma_nearest_unique(p@, q@, lo as nat, nearest(p@, q@));
    }
    lo
}

/// The nearest value is at least as close as every other finite value.
///
/// Distances are compared in double units of `2^-1074 / q`.
pub proof fn lemma_nearest_is_closest(p: nat, q: nat, n: nat, m: nat)
    requires
        q > 0,
        is_nearest(p, q, n),
        n < INFINITE,
    ensures
        ({
            let twice = p * pow2(1075);
            let here = 2 * units(n) * q;
            let there = 2 * units(m) * q;
            (if here <= twice {
                twice - here
            } else {
                here - twice
            }) <= (if there <= twice {
                twice - there
            } else {
                there - twice
            })
        }),
{
    let twice = p * pow2(1075);
    let u = units(n);
    let v = units(m);
    let here = 2 * u * q;
    let there = 2 * v * q;
    if n < m {
        let s = units(n + 1);
        if n + 1 < m {
            lemma_units_increase(n + 1, m);
        }
        lemma_units_increase(n, m);
        lemma_units_increase(n, n + 1);
        assert(twice <= (u + s) * q);
        assert((u + s) * q <= (u + v) * q) by (nonlinear_arith)
            requires
                s <= v,
        ;
        assert((u + v) * q == u * q + v * q) by (nonlinear_arith);
        assert(2 * u * q == 2 * (u * q)) by (nonlinear_arith);
        assert(2 * v * q == 2 * (v * q)) by (nonlinear_arith);
        assert(u * q <= v * q) by (nonlinear_arith)
            requires
                u <= v,
        ;
    } else if m < n {
        let s = units((n - 1) as nat);
        if m < n - 1 {
            lemma_units_increase(m, (n - 1) as nat);
        }
        lemma_units_increase(m, n);
        assert((s + u) * q <= twice);
        assert((v + u) * q <= (s + u) * q) by (nonlinear_arith)
            requires
                v <= s,
        ;
        assert((v + u) * q == u * q + v * q) by (nonlinear_arith);
        assert(2 * u * q == 2 * (u * q)) by (nonlinear_arith);
        assert(2 * v * q == 2 * (v * q)) by (nonlinear_arith);
        assert(v * q <= u * q) by (nonlinear_arith)
            requires
                v <= u,
        ;
    }
}

/// `10^n` is at least `2^(3 * n)`.
proof fn lemma_ten_exceeds_eight(n: nat)
    ensures
        pow(10, n) >= pow2(3 * n),
        pow(10, n) > 0,
    decreases n,
{
    reveal(pow);
    lemma_pow_positive(10, n);
    if n == 0 {
        lemma2_to64();
    } else {
        let m = (n - 1) as nat;
        lemma_ten_exceeds_eight(m);
        lemma_pow2_adds(3 * m, 3);
        lemma2_to64();
        assert(3 * m + 3 == 3 * n);
        let x = pow2(3 * m);
        let y = pow(10, m);
        assert(10 * y >= x * 8) by (nonlinear_arith)
            requires
                y >= x,
                x >= 0,
        ;
    }
}

/// The ordinal of the value nearest to `digits * 10^exponent`.
pub open spec fn round_decimal(digits: nat, exponent: int) -> nat {
    if exponent >= 0 {
        nearest(digits * (pow(10, exponent as nat) as nat), 1)
    } else {
        nearest(digits, pow(10, (-exponent) as nat) as nat)
    }
}

proof fn lemma_round_zero(exponent: int)
    ensures
        round_decimal(0, exponent) == 0,
{
    lemma_midpoint(0);
    if exponent >= 0 {
        let p = pow(10, exponent as nat) as nat;
        assert(0 * p == 0);
        assert(is_nearest(0, 1, 0));
        lemma_nearest_unique(0, 1, 0, nearest(0, 1));
    } else {
        lemma_pow_positive(10, (-exponent) as nat);
        let q = pow(10, (-exponent) as nat) as nat;
        let u = units(0) + units(1);
        assert(u * q > 0) by (nonlinear_arith)
            requires
                u > 0,
                q > 0,
        ;
        assert(0 * pow2(1075) == 0);
        assert(is_nearest(0, q, 0));
        lemma_nearest_unique(0, q, 0, nearest(0, q));
    }
}

/// A positive number with an exponent above 400 is beyond every finite value.
proof fn lemma_round_huge(digits: nat, exponent: int)
    requires
        digits > 0,
        exponent > 400,
    ensures
        round_decimal(digits, exponent) == INFINITE,
{
    let top = (INFINITE - 1) as nat;
    let t = pow(10, exponent as nat) as nat;
    let p = digits * t;
    lemma_midpoint(top);
    assert(significand(top) == 2 * BLOCK - 1);
    assert(scale(top) == 2045);
    lemma_ten_exceeds_eight(exponent as nat);
    lemma_pow2_strictly_increases(1202, (3 * exponent) as nat);
    lemma_pow2_adds(1202, 1075);
    lemma_pow2_adds(54, 2045);
    lemma_pow2_strictly_increases(2099, 2277);
    lemma_pow2_pos(2045);
    lemma2_to64();
    lemma2_to64_rest();
    let a = pow2(1202);
    let b = pow2(1075);
    let c = pow2(2045);
    assert(pow2(54) == 4 * BLOCK);
    assert((2 * significand(top) + 1) * c < pow2(54) * c) by (nonlinear_arith)
        requires
            2 * significand(top) + 1 < pow2(54),
            c > 0,
    ;
    assert(p >= t) by (nonlinear_arith)
        requires
            digits > 0,
            p == digits * t,
    ;
    assert(p * b >= a * b) by (nonlinear_arith)
        requires
            p >= a,
    ;
    assert(is_nearest(p, 1, INFINITE as nat));
    lemma_nearest_unique(p, 1, INFINITE as nat, nearest(p, 1));
}

/// A number below `10^-400` is nearest to zero.
proof fn lemma_round_tiny(digits: nat, places: nat, exponent: int)
    requires
        digits < pow(10, places),
        exponent + places < -400,
    ensures
        round_decimal(digits, exponent) == 0,
{
    let e = (-exponent) as nat;
    let extra = (e - places) as nat;
    lemma_pow_adds(10, places, extra);
    lemma_ten_exceeds_eight(extra);
    lemma_pow_positive(10, places);
    lemma_pow_positive(10, e);
    lemma_pow2_strictly_increases(1075, 3 * extra);
    lemma_pow2_pos(1075);
    lemma_midpoint(0);
    assert(significand(0) == 0);
    assert(scale(0) == 0);
    lemma2_to64();
    assert(units(0) + units(1) == 1);
    let q = pow(10, e) as nat;
    let a = pow(10, places);
    let b = pow(10, extra);
    let w = pow2(1075);
    assert(digits * w < a * b) by (nonlinear_arith)
        requires
            digits < a,
            0 < w < b,
            digits >= 0,
    ;
    assert(is_nearest(digits, q, 0));
    lemma_nearest_unique(digits, q, 0, nearest(digits, q));
}

/// A value of the format, or none.
#[derive(Clone, Copy, Debug, PartialEq, Eq, Structural)]
pub enum Number {
    /// Not a number.
    Nan,
    /// The value with the given ordinal, or its negation.
    Real { negative: bool, ordinal: u64 },
}

/// An ASCII letter in lower case; any other character as it is.
pub open spec fn ascii_lower(c: char) -> char {
    if 'A' <= c <= 'Z' {
        (c as int + 32) as char
    } else {
        c
    }
}

/// Every character in lower case, as far as it is an ASCII letter.
pub open spec fn ascii_lower_all(s: Seq<char>) -> Seq<char> {
    s.map_values(|c: char| ascii_lower(c))
}

/// The exponent that `s` spells: nothing, or the letter `e` and an integer.
pub open spec fn exponent_of(s: Seq<char>) -> Option<int> {
    if s.len() == 0 {
        Some(0)
    } else if s[0] == 'e' || s[0] == 'E' {
        integer_of(s.skip(1))
    } else {
        None
    }
}

/// How many digits stand before the point of a decimal number.
pub open spec fn whole_places(s: Seq<char>) -> int {
    digit_run(s) as int
}

/// Whether a point follows the leading digits.
pub open spec fn is_pointed(s: Seq<char>) -> bool {
    whole_places(s) < s.len() && s[whole_places(s)] == '.'
}

/// How many digits stand behind the point of a decimal number.
pub open spec fn fraction_places(s: Seq<char>) -> int {
    if is_pointed(s) {
        digit_run(s.skip(whole_places(s) + 1)) as int
    } else {
        0
    }
}

/// Where the digits of a decimal number end.
pub open spec fn digits_end(s: Seq<char>) -> int {
    if is_pointed(s) {
        whole_places(s) + 1 + fraction_places(s)
    } else {
        whole_places(s)
    }
}

/// The digits of a decimal number, without the point.
pub open spec fn digits_of(s: Seq<char>) -> Seq<char> {
    if is_pointed(s) {
        s.take(whole_places(s)) + s.subrange(whole_places(s) + 1, digits_end(s))
    } else {
        s.take(whole_places(s))
    }
}

/// The significant digits and the exponent of the unsigned decimal number that `s` spells: digits
/// with an optional point, at least one digit, and an optional exponent.
pub open spec fn decimal_of(s: Seq<char>) -> Option<(Seq<char>, int)> {
    if digits_of(s).len() == 0 {
        None
    } else {
        match exponent_of(s.skip(digits_end(s))) {
            Some(e) => Some((digits_of(s), e - fraction_places(s))),
            None => None,
        }
    }
}

/// The value that `s` spells: an optional sign before a decimal number, `inf`, `infinity` or `nan`,
/// where the case of letters does not matter.
pub open spec fn number_of(s: Seq<char>) -> Option<Number> {
    let signed = s.len() > 0 && (s[0] == '-' || s[0] == '+');
    let negative = signed && s[0] == '-';
    let body = if signed {
        s.skip(1)
    } else {
        s
    };
    let word = ascii_lower_all(body);
    if word == "nan"@ {
        Some(Number::Nan)
    } else if word == "inf"@ || word == "infinity"@ {
        Some(Number::Real { negative, ordinal: INFINITE })
    } else {
        match decimal_of(body) {
            Some((digits, e)) => Some(
                Number::Real { negative, ordinal: round_decimal(digits_value(digits), e) as u64 },
            ),
            None => None,
        }
    }
}

/// What spells an unsigned decimal number has no white space at its ends.
proof fn lemma_decimal_ends(s: Seq<char>)
    requires
        decimal_of(s) is Some,
    ensures
        s.len() > 0,
        !is_space(s[0]),
        !is_space(s.last()),
{
    let w = whole_places(s);
    lemma_digit_run(s);
    if w > 0 {
        assert(is_digit(s.take(w)[0]));
        assert(is_digit(s.take(w)[w - 1]));
    }
    let e = digits_end(s);
    if is_pointed(s) {
        let rest = s.skip(w + 1);
        let f = fraction_places(s);
        lemma_digit_run(rest);
        if f > 0 {
            assert(is_digit(rest.take(f)[f - 1]));
            assert(rest[f - 1] == s[e - 1]);
        }
    }
    let tail = s.skip(e);
    if tail.len() > 0 {
        let power = tail.skip(1);
        assert(power.last() == s.last());
        if power[0] == '-' || power[0] == '+' {
            assert(power.skip(1).last() == s.last());
            assert(is_digit(power.skip(1)[power.len() - 2]));
        } else {
            assert(is_digit(power[power.len() - 1]));
        }
    }
}

/// What spells a number has no white space at its ends.
pub proof fn lemma_number_is_trimmed(s: Seq<char>)
    requires
        number_of(s) is Some,
    ensures
        trimmed(s) == s,
{
    let signed = s.len() > 0 && (s[0] == '-' || s[0] == '+');
    let body = if signed {
        s.skip(1)
    } else {
        s
    };
    let word = ascii_lower_all(body);
    reveal_strlit("nan");
    reveal_strlit("inf");
    reveal_strlit("infinity");
    if word == "nan"@ || word == "inf"@ || word == "infinity"@ {
        assert(word.len() == body.len());
        assert(word[0] == ascii_lower(body[0]));
        assert(word.last() == ascii_lower(body.last()));
    } else {
        lemma_decimal_ends(body);
    }
    assert(body.last() == s.last());
    lemma_trimmed_is(s);
}

/// Whether `a` is a value not above `b`.
pub open spec fn at_most(a: Number, b: Number) -> bool {
    match (a, b) {
        (Number::Real { negative: m, ordinal: x }, Number::Real { negative: n, ordinal: y }) => {
            place(m, x) <= place(n, y)
        },
        _ => false,
    }
}

/// The place of a value among all values, with zero at 0.
pub open spec fn place(negative: bool, ordinal: u64) -> int {
    if negative {
        -(ordinal as int)
    } else {
        ordinal as int
    }
}

/// Whether the characters from position `from` on spell `word`, whatever the case.
fn spells(v: &Vec<char>, from: usize, word: &str) -> (r: bool)
    requires
        from <= v@.len(),
    ensures
        r == (ascii_lower_all(v@.skip(from as int)) == word@),
{
    let w = chars_of(word);
    let n: usize = v.len();
    let ghost s = ascii_lower_all(v@.skip(from as int));
    if n - from != w.len() {
        return false;
    }
    let mut i: usize = 0;
    while i < w.len()
        invariant
            n == v@.len(),
            from + w@.len() == n,
            i <= w@.len(),
            w@ == word@,
            s == ascii_lower_all(v@.skip(from as int)),
            forall|j: int| 0 <= j < i ==> s[j] == w@[j],
        decreases w@.len() - i,
    {
        let c: char = v[from + i];
        let c: char = if 'A' <= c && c <= 'Z' {
            (c as u8 + 32) as char
        } else {
            c
        };
        assert(s[i as int] == c);
        if c != w[i] {
            return false;
        }
        i = i + 1;
    }
    assert(s =~= word@);
    true
}

/// Appends the digits at `from .. to` to the number `n`.
fn append_digits(n: &mut Natural, v: &Vec<char>, from: usize, to: usize, Ghost(head): Ghost<Seq<char>>)
    requires
        from <= to <= v@.len(),
        all_digits(v@.subrange(from as int, to as int)),
        old(n)@ == digits_value(head),
    ensures
        final(n)@ == digits_value(head + v@.subrange(from as int, to as int)),
{
    let mut i: usize = from;
    assert(head + v@.subrange(from as int, from as int) =~= head);
    while i < to
        invariant
            from <= i <= to <= v@.len(),
            all_digits(v@.subrange(from as int, to as int)),
            n@ == digits_value(head + v@.subrange(from as int, i as int)),
        decreases to - i,
    {
        assert(is_digit(v@.subrange(from as int, to as int)[i - from]));
        n.mul_add(10, value_of_digit(v[i]) as u64);
        proof {
            let t = head + v@.subrange(from as int, i + 1);
            assert(t.drop_last() =~= head + v@.subrange(from as int, i as int));
        }
        i = i + 1;
    }
}

/// Multiplies `n` by `10^k`.
fn scale_by_ten(n: &mut Natural, k: u128)
    ensures
        final(n)@ == old(n)@ * (pow(10, k as nat) as nat),
{
    let mut i: u128 = 0;
    let ghost start = n@;
    proof {
        lemma_pow0(10);
        assert(start * 1 == start);
    }
    while i < k
        invariant
            i <= k,
            pow(10, i as nat) > 0,
            n@ == start * (pow(10, i as nat) as nat),
        decreases k - i,
    {
        n.mul_add(10, 0);
        proof {
            reveal(pow);
            lemma_pow_positive(10, (i + 1) as nat);
            let x = pow(10, i as nat) as nat;
            assert(pow(10, (i + 1) as nat) == 10 * x);
            assert((start * x) * 10 == start * (10 * x)) by (nonlinear_arith);
        }
        i = i + 1;
    }
}

/// The ordinal of the value nearest to `digits * 10^exponent`, where `digits` is below
/// `10^places`.
fn round_scaled(digits: &Natural, places: usize, exponent: i128) -> (r: u64)
    requires
        digits@ < pow(10, places as nat),
        -SATURATION - usize::MAX <= exponent <= SATURATION,
    ensures
        r == round_decimal(digits@, exponent as int),
        r <= INFINITE,
{
    if digits.is_zero() {
        proof {
            lemma_round_zero(exponent as int);
        }
        0
    } else if exponent > 400 {
        proof {
            lemma_round_huge(digits@, exponent as int);
        }
        INFINITE
    } else if exponent + (places as i128) < -400 {
        proof {
            lemma_round_tiny(digits@, places as nat, exponent as int);
        }
        0
    } else if exponent >= 0 {
        let mut p = digits.duplicate();
        scale_by_ten(&mut p, exponent as u128);
        round_ratio(&p, &Natural::from_u64(1))
    } else {
        let e: u128 = (-exponent) as u128;
        let mut q = Natural::from_u64(1);
        scale_by_ten(&mut q, e);
        proof {
            lemma_pow_positive(10, e as nat);
            let x = pow(10, e as nat) as nat;
            assert(1 * x == x);
        }
        round_ratio(digits, &q)
    }
}

/// The exponent spelled from position `at` on.
fn read_exponent(v: &Vec<char>, at: usize) -> (r: Option<i128>)
    requires
        at <= v@.len(),
    ensures
        match exponent_of(v@.skip(at as int)) {
            Some(e) => r == Some(saturated(e) as i128),
            None => r is None,
        },
{
    if at == v.len() {
        Some(0)
    } else if v[at] == 'e' || v[at] == 'E' {
        assert(v@.skip(at + 1) =~= v@.skip(at as int).skip(1));
        read_integer(v, at + 1)
    } else {
        None
    }
}

proof fn lemma_digits_of(s: Seq<char>)
    ensures
        0 <= whole_places(s) <= digits_end(s) <= s.len(),
        0 <= fraction_places(s),
        digits_of(s).len() == whole_places(s) + fraction_places(s),
        all_digits(digits_of(s)),
        all_digits(s.take(whole_places(s))),
        is_pointed(s) ==> all_digits(s.subrange(whole_places(s) + 1, digits_end(s))),
{
    lemma_digit_run(s);
    if is_pointed(s) {
        let t = s.skip(whole_places(s) + 1);
        lemma_digit_run(t);
        assert(s.subrange(whole_places(s) + 1, digits_end(s)) =~= t.take(fraction_places(s)));
        let head = s.take(whole_places(s));
        let tail = t.take(fraction_places(s));
        assert forall|i: int| 0 <= i < digits_of(s).len() implies is_digit(
            #[trigger] digits_of(s)[i],
        ) by {
            if i < head.len() {
                assert(is_digit(head[i]));
            } else {
                assert(is_digit(tail[i - head.len()]));
            }
        }
    }
}

/// The digits of the unsigned decimal number spelled from position `from` on, as one number.
fn read_digits(v: &Vec<char>, from: usize, whole: usize, fraction: usize, pointed: bool) -> (r:
    Natural)
    requires
        from <= v@.len(),
        ({
            let s = v@.skip(from as int);
            &&& whole == whole_places(s)
            &&& fraction == fraction_places(s)
            &&& pointed == is_pointed(s)
        }),
    ensures
        r@ == digits_value(digits_of(v@.skip(from as int))),
{
    let ghost s = v@.skip(from as int);
    proof {
        lemma_digits_of(s);
    }
    let n: usize = v.len();
    let mut d = Natural::zero();
    let middle: usize = from + whole;
    assert(v@.subrange(from as int, middle as int) =~= s.take(whole as int));
    append_digits(&mut d, v, from, middle, Ghost(Seq::empty()));
    assert(Seq::<char>::empty() + s.take(whole as int) =~= s.take(whole as int));
    if pointed {
        let end: usize = middle + 1 + fraction;
        assert(v@.subrange(middle + 1, end as int) =~= s.subrange(whole + 1, end - from));
        append_digits(&mut d, v, middle + 1, end, Ghost(s.take(whole as int)));
    }
    d
}

/// The ordinal of the unsigned decimal number spelled from position `from` on.
fn read_decimal(v: &Vec<char>, from: usize) -> (r: Option<u64>)
    requires
        from <= v@.len(),
    ensures
        match decimal_of(v@.skip(from as int)) {
            Some((digits, e)) => r == Some(round_decimal(digits_value(digits), e) as u64),
            None => r is None,
        },
{
    let ghost s = v@.skip(from as int);
    let n: usize = v.len();
    let whole: usize = count_digits(v, from);
    let middle: usize = from + whole;
    proof {
        lemma_digits_of(s);
    }
    let pointed: bool = middle < n && v[middle] == '.';
    assert(pointed == is_pointed(s));
    let fraction: usize = if pointed {
        assert(v@.skip(middle + 1) =~= s.skip(whole + 1));
        count_digits(v, middle + 1)
    } else {
        0
    };
    assert(fraction == fraction_places(s));
    if whole + fraction == 0 {
        return None;
    }
    let end: usize = if pointed {
        middle + 1 + fraction
    } else {
        middle
    };
    assert(v@.skip(end as int) =~= s.skip(digits_end(s)));
    match read_exponent(v, end) {
        Some(exponent) => {
            let d = read_digits(v, from, whole, fraction, pointed);
            proof {
                lemma_digits_value_bound(digits_of(s));
                lemma_saturation(
                    d@,
                    digits_of(s).len(),
                    exponent_of(s.skip(digits_end(s)))->0,
                    fraction as nat,
                );
            }
            Some(round_scaled(&d, whole + fraction, exponent - fraction as i128))
        },
        None => None,
    }
}

/// A saturated exponent rounds to the same value as the full one.
proof fn lemma_saturation(digits: nat, places: nat, e: int, fraction: nat)
    requires
        digits < pow(10, places),
        fraction <= places <= usize::MAX,
    ensures
        round_decimal(digits, saturated(e) - fraction) == round_decimal(digits, e - fraction),
{
    let f = fraction as int;
    if digits == 0 {
        lemma_round_zero(saturated(e) - f);
        lemma_round_zero(e - f);
    } else if e > SATURATION {
        lemma_round_huge(digits, e - f);
        lemma_round_huge(digits, SATURATION - f);
    } else if e < -SATURATION {
        lemma_round_tiny(digits, places, e - f);
        lemma_round_tiny(digits, places, -SATURATION - f);
    }
}

/// The value that `text` spells, if it spells one.
pub fn parse_number(text: &str) -> (r: Option<Number>)
    ensures
        r == number_of(text@),
{
    let v = chars_of(text);
    let n: usize = v.len();
    let signed: bool = n > 0 && (v[0] == '-' || v[0] == '+');
    let negative: bool = n > 0 && v[0] == '-';
    let from: usize = if signed {
        1
    } else {
        0
    };
    assert(v@.skip(0) =~= v@);
    if spells(&v, from, "nan") {
        Some(Number::Nan)
    } else if spells(&v, from, "inf") || spells(&v, from, "infinity") {
        Some(Number::Real { negative, ordinal: INFINITE })
    } else {
        match read_decimal(&v, from) {
            Some(ordinal) => Some(Number::Real { negative, ordinal }),
            None => None,
        }
    }
}

/// A zero before a number does not change it.
pub proof fn lemma_leading_zero(s: Seq<char>)
    requires
        s.len() > 0,
        is_digit(s[0]),
    ensures
        number_of(seq!['0'] + s) == number_of(s),
{
    let t = seq!['0'] + s;
    assert(t.skip(1) =~= s);
    lemma_digits_of(s);
    lemma_digits_of(t);
    assert(whole_places(t) == whole_places(s) + 1);
    assert(is_pointed(t) == is_pointed(s));
    if is_pointed(s) {
        assert(t.skip(whole_places(t) + 1) =~= s.skip(whole_places(s) + 1));
    }
    assert(digits_end(t) == digits_end(s) + 1);
    assert(t.skip(digits_end(t)) =~= s.skip(digits_end(s)));
    let d = digits_of(s);
    lemma_zero_padded_value(d, d.len() + 1);
    assert(digits_of(t) =~= zero_padded(d, d.len() + 1));
    reveal_strlit("nan");
    reveal_strlit("inf");
    reveal_strlit("infinity");
    assert(ascii_lower_all(s)[0] == s[0]);
    assert(ascii_lower_all(t)[0] == '0');
}

impl Number {
    /// Whether this is a value not above `other`.
    pub fn is_at_most(&self, other: &Number) -> (r: bool)
        ensures
            r == at_most(*self, *other),
    {
        match (*self, *other) {
            (
                Number::Real { negative: m, ordinal: x },
                Number::Real { negative: n, ordinal: y },
            ) => {
                if m {
                    if n {
                        y <= x
                    } else {
                        true
                    }
                } else if n {
                    x == 0 && y == 0
                } else {
                    x <= y
                }
            },
            _ => false,
        }
    }
}

/// `a / b`, rounded to the nearest integer, where a tie goes to the even one.
pub open spec fn half_even(a: nat, b: nat) -> nat {
    let q = a / b;
    let r = a % b;
    if 2 * r < b || (2 * r == b && q % 2 == 0) {
        q
    } else {
        q + 1
    }
}

/// The value with ordinal `n` times `10^places`, rounded to an integer.
pub open spec fn fixed_point(n: nat, places: nat) -> nat {
    half_even(units(n) * (pow(10, places) as nat), pow2(1074))
}

/// The finite value with ordinal `n`, written with `places` digits behind the point.
pub open spec fn fixed_text(n: nat, places: nat) -> Seq<char> {
    let digits = zero_padded(decimal_text(fixed_point(n, places)), places + 1);
    let whole = digits.len() - places;
    digits.take(whole) + seq!['.'] + digits.skip(whole)
}

/// A number, written with `places` digits behind the point.
pub open spec fn number_text(n: Number, places: nat) -> Seq<char> {
    match n {
        Number::Nan => "NaN"@,
        Number::Real { negative, ordinal } => {
            let sign = if negative {
                "-"@
            } else {
                ""@
            };
            if ordinal >= INFINITE {
                sign + "inf"@
            } else {
                sign + fixed_text(ordinal as nat, places)
            }
        },
    }
}

/// The tenth part of a value, and five times a value, each rounded to the nearest value.
pub open spec fn tenth(n: nat) -> nat {
    nearest(units(n), 10 * pow2(1074))
}

pub open spec fn fivefold(n: nat) -> nat {
    nearest(units(n) * 5, pow2(1074))
}

/// Splits the quotient and the remainder of a division by a power of two.
proof fn lemma_halving(a: nat, q: nat, r: nat, k: nat)
    requires
        a == q * pow2(k) + r,
        r < pow2(k),
    ensures
        a / pow2(k + 1) == q / 2,
        a % pow2(k + 1) == (q % 2) * pow2(k) + r,
{
    lemma_pow2_unfold(k + 1);
    let w = pow2(k);
    let h = q / 2;
    let b = q % 2;
    assert(a == h * (2 * w) + (b * w + r)) by (nonlinear_arith)
        requires
            a == q * w + r,
            q == 2 * h + b,
    ;
    assert(0 <= b * w + r < 2 * w) by (nonlinear_arith)
        requires
            b == 0 || b == 1,
            0 <= r < w,
    ;
    lemma_fundamental_div_mod_converse(a as int, (2 * w) as int, h as int, (b * w + r) as int);
}

/// `a / 2^1074`, rounded to the nearest integer, where a tie goes to the even one.
fn round_shift(a: Natural) -> (r: Natural)
    ensures
        r@ == half_even(a@, pow2(1074)),
{
    let mut rest = a;
    let ghost whole = rest@;
    let ghost mut low: nat = 0;
    let mut inexact: bool = false;
    let mut i: u32 = 0;
    proof {
        lemma2_to64();
        lemma2_to64_rest();
        assert(whole * 1 == whole);
    }
    while i < 37
        invariant
            i <= 37,
            whole == rest@ * pow2(29 * i as nat) + low,
            low < pow2(29 * i as nat),
            inexact == (low > 0),
        decreases 37 - i,
    {
        let ghost before = rest@;
        let d: u32 = rest.div_rem(0x2000_0000);
        proof {
            let k = 29 * i as nat;
            let w = pow2(k);
            lemma_pow2_adds(k, 29);
            lemma2_to64();
            let after = rest@;
            let dd = d as nat;
            let block: nat = 0x2000_0000;
            assert(pow2(29) == block);
            assert(before == after * block + dd) by {
                lemma_fundamental_div_mod(before as int, block as int);
            }
            assert(whole == after * (w * block) + (dd * w + low)) by (nonlinear_arith)
                requires
                    whole == before * w + low,
                    before == after * block + dd,
            ;
            assert(dd * w + low < w * block) by (nonlinear_arith)
                requires
                    low < w,
                    dd + 1 <= block,
            ;
            assert((dd * w + low > 0) == (dd > 0 || low > 0)) by (nonlinear_arith)
                requires
                    low < w,
                    dd >= 0,
                    low >= 0,
            ;
            low = dd * w + low;
            assert(29 * (i + 1) as nat == k + 29);
        }
        inexact = inexact || d > 0;
        i = i + 1;
    }
    let ghost q = rest@;
    let bit: u32 = rest.div_rem(2);
    proof {
        lemma_halving(whole, q, low, 1073);
        lemma_pow2_unfold(1074);
        let w = pow2(1073);
        assert(0 * w == 0);
        assert(1 * w == w);
    }
    let mut odd = rest.duplicate();
    let parity: u32 = odd.div_rem(2);
    if bit == 1 && (inexact || parity == 1) {
        rest.mul_add(1, 1);
    }
    rest
}

/// The value with ordinal `n` in units, times `m`.
fn units_times(n: u64, m: u64) -> (r: Natural)
    ensures
        r@ == units(n as nat) * m,
{
    let mut a = Natural::from_u64(significand_of(n));
    a.mul_add(m, 0);
    a.shift_left(scale_of(n));
    proof {
        let s = significand(n as nat);
        let w = pow2(scale(n as nat));
        assert((s * m as nat) * w == (s * w) * m as nat) by (nonlinear_arith);
    }
    a
}

/// Appends the finite value with ordinal `n`, written with `places` digits behind the point.
fn push_fixed(out: &mut String, n: u64, places: u8)
    requires
        places <= 18,
    ensures
        final(out)@ == old(out)@ + fixed_text(n as nat, places as nat),
{
    let mut m: u64 = 1;
    let mut i: u8 = 0;
    proof {
        lemma_pow0(10);
    }
    while i < places
        invariant
            i <= places <= 18,
            m == pow(10, i as nat),
        decreases places - i,
    {
        proof {
            reveal(pow);
            lemma_pow_increases(10, i as nat, 17);
            lemma_ten_to_17();
            assert(pow(10, (i + 1) as nat) == 10 * pow(10, i as nat));
        }
        m = m * 10;
        i = i + 1;
    }
    let a = round_shift(units_times(n, m));
    let mut digits = String::new();
    push_natural(&mut digits, &a);
    assert(Seq::<char>::empty() + decimal_text(a@) =~= decimal_text(a@));
    let padded = pad_with_zeros(digits.as_str(), places as usize + 1);
    let v = chars_of(padded.as_str());
    let whole: usize = v.len() - places as usize;
    let ghost start = out@;
    let mut i: usize = 0;
    while i < whole
        invariant
            i <= whole <= v@.len(),
            out@ == start + v@.take(i as int),
        decreases whole - i,
    {
        out.push(v[i]);
        assert(v@.take(i + 1) =~= v@.take(i as int).push(v@[i as int]));
        i = i + 1;
    }
    out.push('.');
    let ghost middle = out@;
    assert(v@.subrange(whole as int, whole as int) =~= Seq::<char>::empty());
    while i < v.len()
        invariant
            whole <= i <= v@.len(),
            out@ == middle + v@.subrange(whole as int, i as int),
        decreases v@.len() - i,
    {
        out.push(v[i]);
        assert(v@.subrange(whole as int, i + 1) =~= v@.subrange(whole as int, i as int).push(
            v@[i as int],
        ));
        i = i + 1;
    }
    assert(v@.subrange(whole as int, v@.len() as int) =~= v@.skip(whole as int));
    assert(out@ =~= start + (v@.take(whole as int) + seq!['.'] + v@.skip(whole as int)));
}

proof fn lemma_ten_to_17()
    ensures
        pow(10, 17) == 100_000_000_000_000_000,
{
    reveal(pow);
    reveal_with_fuel(pow, 18);
}

impl Number {
    /// This number, written with `places` digits behind the point.
    pub fn to_text(&self, places: u8) -> (r: String)
        requires
            1 <= places <= 18,
        ensures
            r@ == number_text(*self, places as nat),
    {
        match *self {
            Number::Nan => String::from_str("NaN"),
            Number::Real { negative, ordinal } => {
                let mut out = String::from_str(
                    if negative {
                        "-"
                    } else {
                        ""
                    },
                );
                if ordinal >= INFINITE {
                    out.append("inf");
                } else {
                    push_fixed(&mut out, ordinal, places);
                }
                out
            },
        }
    }
}

/// The ordinal of the tenth part of the finite value with ordinal `n`.
pub fn tenth_of(n: u64) -> (r: u64)
    ensures
        r == tenth(n as nat),
        r <= INFINITE,
{
    let mut q = Natural::from_u64(10);
    q.shift_left(1074);
    proof {
        lemma_pow2_pos(1074);
        assert(units(n as nat) * 1 == units(n as nat));
    }
    round_ratio(&units_times(n, 1), &q)
}

/// The ordinal of five times the finite value with ordinal `n`.
pub fn fivefold_of(n: u64) -> (r: u64)
    ensures
        r == fivefold(n as nat),
        r <= INFINITE,
{
    let mut q = Natural::from_u64(1);
    q.shift_left(1074);
    proof {
        lemma_pow2_pos(1074);
        let w = pow2(1074);
        assert(1 * w == w);
    }
    round_ratio(&units_times(n, 5), &q)
}

/// Digits spell a number.
pub proof fn lemma_digits_spell_number(s: Seq<char>)
    requires
        s.len() > 0,
        all_digits(s),
    ensures
        number_of(s) matches Some(Number::Real { negative: false, .. }),
{
    lemma_digit_run_is(s, s.len());
    assert(digits_of(s) =~= s);
    assert(s.skip(digits_end(s)) =~= Seq::<char>::empty());
    reveal_strlit("nan");
    reveal_strlit("inf");
    reveal_strlit("infinity");
    assert(is_digit(s[0]));
    assert(ascii_lower_all(s)[0] == s[0]);
}

/// Whole numbers below `2^53`, also scaled by a power of two, are values of the format.
proof fn lemma_exact_ordinal(k: nat, t: nat) -> (n: nat)
    requires
        k < 2 * BLOCK,
        t <= 2045,
    ensures
        units(n) == k * pow2(t),
        n < INFINITE,
    decreases t,
{
    let b = BLOCK as nat;
    if k >= b {
        let n: nat = (t + 1) * b + (k - b) as nat;
        lemma_fundamental_div_mod_converse(n as int, b as int, t as int + 1, k - b);
        assert(significand(n) == k);
        assert(scale(n) == t);
        n
    } else if t == 0 {
        assert(k / b == 0);
        k
    } else {
        lemma_pow2_unfold(t);
        let n = lemma_exact_ordinal(2 * k, (t - 1) as nat);
        let w = pow2((t - 1) as nat);
        assert((2 * k) * w == k * (2 * w)) by (nonlinear_arith);
        n
    }
}

/// A row of digits below `2^53` spells exactly its number.
pub proof fn lemma_whole_number_is_exact(s: Seq<char>)
    requires
        s.len() > 0,
        all_digits(s),
        digits_value(s) < 2 * BLOCK,
    ensures
        number_of(s) matches Some(Number::Real { negative: false, ordinal }) && ordinal < INFINITE
            && fixed_point(ordinal as nat, 6) == digits_value(s) * pow(10, 6) && units(
            ordinal as nat,
        ) == digits_value(s) * pow2(1074),
{
    let k = digits_value(s);
    lemma_digit_run_is(s, s.len());
    reveal_strlit("nan");
    reveal_strlit("inf");
    reveal_strlit("infinity");
    assert(is_digit(s[0]));
    assert(ascii_lower_all(s)[0] == s[0]);
    assert(digits_of(s) =~= s);
    assert(s.skip(digits_end(s)) =~= Seq::<char>::empty());
    let n = lemma_exact_ordinal(k, 1074);
    lemma_pow2_unfold(1075);
    let w = pow2(1074);
    assert(k * (2 * w) == 2 * (k * w)) by (nonlinear_arith);
    if n > 0 {
        lemma_units_increase((n - 1) as nat, n);
    }
    lemma_units_increase(n, n + 1);
    assert(is_nearest(k, 1, n));
    lemma_nearest_unique(k, 1, n, nearest(k, 1));
    lemma_pow0(10);
    assert(k * 1 == k);
    assert(round_decimal(k, 0) == n);
    assert(number_of(s) == Some(Number::Real { negative: false, ordinal: n as u64 }));
    lemma_pow_positive(10, 6);
    lemma_pow2_pos(1074);
    let m = pow(10, 6) as nat;
    assert((k * w) * m == (k * m) * w + 0) by (nonlinear_arith);
    lemma_fundamental_div_mod_converse(((k * w) * m) as int, w as int, (k * m) as int, 0);
}

// ── How far rounding goes ───────────────────────────────────────────────────────────────────────
/// A value below `2^52` times a power of two is scaled by no more than that power.
pub proof fn lemma_scale_bound(n: nat, e: nat)
    requires
        units(n) < BLOCK * pow2(e),
    ensures
        pow2(scale(n)) <= pow2(e),
{
    let b = BLOCK as nat;
    let k = scale(n);
    lemma_pow2_pos(e);
    lemma_pow2_pos(k);
    if k > e {
        lemma_pow2_strictly_increases(e, k);
        assert(significand(n) >= b);
        assert(significand(n) * pow2(k) >= b * pow2(e)) by (nonlinear_arith)
            requires
                significand(n) >= b,
                pow2(k) >= pow2(e),
        ;
    } else if k < e {
        lemma_pow2_strictly_increases(k, e);
    }
}

/// The nearest value to a ratio is no further from it than half the step between values there. Both are
/// counted twice, in units of `2^-1074 / q`.
pub proof fn lemma_nearest_error(p: nat, q: nat, n: nat)
    requires
        q > 0,
        is_nearest(p, q, n),
        n < INFINITE,
    ensures
        2 * units(n) * q <= p * pow2(1075) + pow2(scale(n)) * q,
        p * pow2(1075) <= 2 * units(n) * q + pow2(scale(n)) * q,
{
    let u = units(n);
    let w = pow2(scale(n));
    lemma_midpoint(n);
    assert((2 * significand(n) + 1) * w == 2 * (significand(n) * w) + w) by (nonlinear_arith);
    assert((u + units(n + 1)) * q == 2 * u * q + w * q) by (nonlinear_arith)
        requires
            u + units(n + 1) == 2 * u + w,
    ;
    if n > 0 {
        let m = (n - 1) as nat;
        let v = pow2(scale(m));
        lemma_midpoint(m);
        assert((2 * significand(m) + 1) * v == 2 * (significand(m) * v) + v) by (nonlinear_arith);
        assert(units(n) == units(m) + v);
        assert(scale(m) <= scale(n)) by {
            vstd::arithmetic::div_mod::lemma_div_is_ordered(m as int, n as int, BLOCK as int);
        }
        if scale(m) < scale(n) {
            lemma_pow2_strictly_increases(scale(m), scale(n));
        }
        assert((units(m) + u) * q + w * q >= 2 * u * q) by (nonlinear_arith)
            requires
                u == units(m) + v,
                v <= w,
        ;
    } else {
        assert(u == 0);
        assert(2 * u * q == 0) by (nonlinear_arith)
            requires
                u == 0,
        ;
    }
}

/// The value nearest to a ratio is at most twice the ratio.
pub proof fn lemma_nearest_at_most_double(p: nat, q: nat, n: nat)
    requires
        q > 0,
        is_nearest(p, q, n),
    ensures
        units(n) * q <= p * pow2(1075),
{
    if n > 0 {
        let m = (n - 1) as nat;
        assert((units(m) + units(n)) * q >= units(n) * q) by (nonlinear_arith);
    } else {
        let w = pow2(scale(n));
        assert(significand(n) == 0);
        assert(0 * w == 0);
        assert(units(n) * q == 0) by (nonlinear_arith)
            requires
                units(n) == 0,
        ;
    }
}

/// Some value is nearest to a ratio.
proof fn lemma_nearest_between(p: nat, q: nat, lo: nat, hi: nat) -> (n: nat)
    requires
        lo < hi <= INFINITE + 1,
        reaches(p * pow2(1075), q, lo),
        hi <= INFINITE ==> !reaches(p * pow2(1075), q, hi),
    ensures
        is_nearest(p, q, n),
    decreases hi - lo,
{
    if hi == lo + 1 {
        lo
    } else {
        let mid = (lo + 1) as nat;
        if reaches(p * pow2(1075), q, mid) {
            lemma_nearest_between(p, q, mid, hi)
        } else {
            lemma_nearest_between(p, q, lo, mid)
        }
    }
}

/// The nearest value is nearest.
pub proof fn lemma_nearest(p: nat, q: nat)
    ensures
        is_nearest(p, q, nearest(p, q)),
{
    let n = lemma_nearest_between(p, q, 0, (INFINITE + 1) as nat);
}

// ── Signs ───────────────────────────────────────────────────────────────────────────────────────
/// A sign before a number makes it negative or changes nothing; its size is the same.
pub proof fn lemma_signs(s: Seq<char>, o: u64)
    requires
        s.len() > 0,
        s[0] != '-',
        s[0] != '+',
        number_of(s) == Some(Number::Real { negative: false, ordinal: o }),
    ensures
        number_of(seq!['-'] + s) == Some(Number::Real { negative: true, ordinal: o }),
        number_of(seq!['+'] + s) == Some(Number::Real { negative: false, ordinal: o }),
        at_most(number_of(seq!['-'] + s)->0, number_of(s)->0),
{
    assert((seq!['-'] + s).skip(1) =~= s);
    assert((seq!['+'] + s).skip(1) =~= s);
}

// ── Tenths ──────────────────────────────────────────────────────────────────────────────────────
/// What is nearer to a whole number of parts than to the middle between two is rounded to it.
proof fn lemma_half_even_is(a: nat, b: nat, k: nat)
    requires
        b > 0,
        2 * a < 2 * (k * b) + b,
        2 * (k * b) < 2 * a + b,
    ensures
        half_even(a, b) == k,
{
    if a >= k * b {
        lemma_fundamental_div_mod_converse(a as int, b as int, k as int, a - k * b);
    } else {
        assert(k > 0) by (nonlinear_arith)
            requires
                a < k * b,
                a >= 0,
        ;
        assert((k - 1) * b == k * b - b) by (nonlinear_arith);
        lemma_fundamental_div_mod_converse(a as int, b as int, k - 1, a - (k - 1) * b);
    }
}

/// The value nearest to a number of tenths is so near that it is written as them.
pub proof fn lemma_tenths_are_exact(m: nat)
    requires
        m < 0x10_0000,
    ensures
        nearest(m, 10) < INFINITE,
        fixed_point(nearest(m, 10), 1) == m,
        fixed_point(nearest(m, 10), 6) == m * 100_000,
{
    let one = pow2(1074);
    let v = pow2(1040);
    let n = nearest(m, 10);
    let x = units(n);
    lemma_nearest(m, 10);
    lemma_nearest_at_most_double(m, 10, n);
    lemma_pow2_unfold(1075);
    lemma_pow2_pos(1040);
    lemma2_to64_rest();
    lemma2_to64();
    assert(one == 0x4_0000_0000 * v) by {
        lemma_pow2_adds(34, 1040);
    }
    assert(x <= 0x3_ffff * one) by (nonlinear_arith)
        requires
            x * 10 <= m * (2 * one),
            m < 0x10_0000,
            one > 0,
    ;
    if n >= INFINITE {
        let top = INFINITE as nat;
        let huge = pow2(2046);
        lemma_pow2_strictly_increases(1074, 2046);
        assert(top / (BLOCK as nat) == 2047);
        assert(top % (BLOCK as nat) == 0);
        assert(units(top) == BLOCK * huge);
        if n > INFINITE {
            lemma_units_increase(top, n);
        }
    }
    assert(BLOCK * v == 0x4_0000 * one) by {
        assert(0x10_0000_0000_0000 * v == 0x4_0000 * (0x4_0000_0000 * v)) by (nonlinear_arith);
    }
    lemma_scale_bound(n, 1040);
    lemma_nearest_error(m, 10, n);
    let g = pow2(scale(n));
    let mw = m * one;
    assert(m * (2 * one) == 2 * mw) by (nonlinear_arith)
        requires
            mw == m * one,
    ;
    assert(20 * x <= 2 * mw + 10 * v && 2 * mw <= 20 * x + 10 * v);
    assert(pow(10, 1) == 10 && pow(10, 6) == 1_000_000) by {
        reveal_with_fuel(pow, 7);
    }
    lemma_half_even_is(x * 10, one, m);
    assert((m * 100_000) * one == 100_000 * mw) by (nonlinear_arith)
        requires
            mw == m * one,
    ;
    lemma_half_even_is(x * 1_000_000, one, m * 100_000);
}

/// A text of digits, a point and one more digit spells the nearest value to its tenths.
pub proof fn lemma_tenths_are_read(whole: Seq<char>, digit: char)
    requires
        whole.len() > 0,
        all_digits(whole),
        is_digit(digit),
    ensures
        number_of(whole + "."@ + seq![digit]) == Some(
            Number::Real {
                negative: false,
                ordinal: nearest(digits_value(whole.push(digit)), 10) as u64,
            },
        ),
{
    let s = whole + "."@ + seq![digit];
    let n = whole.len() as int;
    reveal_strlit(".");
    reveal_strlit("nan");
    reveal_strlit("inf");
    reveal_strlit("infinity");
    assert(s.take(n) =~= whole);
    assert(s[n] == '.');
    lemma_digit_run_is(s, n as nat);
    let rest = s.skip(n + 1);
    assert(rest =~= seq![digit]);
    assert(rest.take(1) =~= seq![digit]);
    lemma_digit_run_is(rest, 1);
    assert(digits_of(s) =~= whole.push(digit));
    assert(s.skip(digits_end(s)) =~= Seq::<char>::empty());
    assert(is_digit(whole[0]));
    assert(s[0] == whole[0]);
    assert(ascii_lower_all(s)[0] == s[0]);
    lemma_pow1(10);
}

impl Number {
    /// A whole number.
    pub fn whole(k: u32) -> (r: Number)
        ensures
            number_of(decimal_text(k as nat)) == Some(r),
    {
        let text = text_of_u64(k as u64);
        proof {
            lemma_decimal_text(k as nat);
            lemma_digits_spell_number(decimal_text(k as nat));
        }
        match parse_number(text.as_str()) {
            Some(n) => n,
            None => Number::Nan,
        }
    }
}

} // verus!
