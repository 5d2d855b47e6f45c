//! Decimal notation of integers.

use crate::natural::Natural;
use vstd::arithmetic::power::pow;
use vstd::prelude::*;

verus! {

/// The bound beyond which [`read_integer`] no longer tells values apart.
pub const SATURATION: i128 = 0x40_0000_0000_0000_0000;

/// Whether `c` is one of the ten ASCII digits.
pub open spec fn is_digit(c: char) -> bool {
    '0' <= c <= '9'
}

/// The value of an ASCII digit.
pub open spec fn digit_value(c: char) -> nat {
    (c as int - '0' as int) as nat
}

/// The digit that stands for `d`.
pub open spec fn digit_char(d: nat) -> char {
    (d + '0' as int) as char
}

/// How many digits `s` starts with.
pub open spec fn digit_run(s: Seq<char>) -> nat
    decreases s.len(),
{
    if s.len() > 0 && is_digit(s[0]) {
        1 + digit_run(s.skip(1))
    } else {
        0
    }
}

/// The number that a row of digits stands for.
pub open spec fn digits_value(s: Seq<char>) -> nat
    decreases s.len(),
{
    if s.len() == 0 {
        0
    } else {
        digits_value(s.drop_last()) * 10 + digit_value(s.last())
    }
}

/// Whether `s` is made of digits only.
pub open spec fn all_digits(s: Seq<char>) -> bool {
    forall|i: int| 0 <= i < s.len() ==> is_digit(#[trigger] s[i])
}

/// The shortest decimal notation of `n`.
pub open spec fn decimal_text(n: nat) -> Seq<char>
    decreases n,
{
    if n < 10 {
        seq![digit_char(n)]
    } else {
        decimal_text(n / 10).push(digit_char(n % 10))
    }
}

/// The decimal notation of an integer, with a minus sign where it is negative.
pub open spec fn signed_text(n: int) -> Seq<char> {
    if n < 0 {
        seq!['-'] + decimal_text((-n) as nat)
    } else {
        decimal_text(n as nat)
    }
}

/// The integer that `s` spells: an optional sign and at least one digit.
pub open spec fn integer_of(s: Seq<char>) -> Option<int> {
    let signed = s.len() > 0 && (s[0] == '-' || s[0] == '+');
    let body = if signed {
        s.skip(1)
    } else {
        s
    };
    if body.len() == 0 || !all_digits(body) {
        None
    } else if signed && s[0] == '-' {
        Some(-(digits_value(body) as int))
    } else {
        Some(digits_value(body) as int)
    }
}

/// `n`, moved to the nearest end of `-SATURATION ..= SATURATION` where it lies outside.
pub open spec fn saturated(n: int) -> int {
    if n > SATURATION {
        SATURATION as int
    } else if n < -SATURATION {
        -SATURATION
    } else {
        n
    }
}

/// `s`, filled up with zeros on the left to at least `width` characters.
pub open spec fn zero_padded(s: Seq<char>, width: nat) -> Seq<char> {
    if s.len() >= width {
        s
    } else {
        Seq::new((width - s.len()) as nat, |i: int| '0') + s
    }
}

pub proof fn lemma_digit_char(d: nat)
    requires
        d < 10,
    ensures
        is_digit(digit_char(d)),
        digit_value(digit_char(d)) == d,
{
}

/// Decimal notation holds nothing but digits, and stands for the number it was made from.
pub proof fn lemma_decimal_text(n: nat)
    ensures
        decimal_text(n).len() > 0,
        all_digits(decimal_text(n)),
        digits_value(decimal_text(n)) == n,
    decreases n,
{
    if n < 10 {
        lemma_digit_char(n);
        assert(decimal_text(n).drop_last() =~= Seq::<char>::empty());
        reveal_with_fuel(digits_value, 2);
    } else {
        lemma_decimal_text(n / 10);
        lemma_digit_char(n % 10);
        assert(decimal_text(n).drop_last() =~= decimal_text(n / 10));
    }
}

/// Zeros on the left do not change the value.
pub proof fn lemma_zero_padded_value(s: Seq<char>, width: nat)
    requires
        all_digits(s),
    ensures
        all_digits(zero_padded(s, width)),
        digits_value(zero_padded(s, width)) == digits_value(s),
        zero_padded(s, width).len() == if s.len() >= width {
            s.len()
        } else {
            width
        },
    decreases width,
{
    if s.len() < width {
        lemma_leading_zeros((width - s.len()) as nat, s);
    }
}

proof fn lemma_leading_zeros(k: nat, s: Seq<char>)
    ensures
        digits_value(Seq::new(k, |i: int| '0') + s) == digits_value(s),
    decreases s.len(), k,
{
    let z = Seq::new(k, |i: int| '0');
    if s.len() > 0 {
        assert((z + s).drop_last() =~= z + s.drop_last());
        lemma_leading_zeros(k, s.drop_last());
    } else if k > 0 {
        let y = Seq::new((k - 1) as nat, |i: int| '0');
        assert((z + s).drop_last() =~= y + s);
        lemma_leading_zeros((k - 1) as nat, s);
    } else {
        assert(z + s =~= s);
    }
}

/// A row of digits stands for less than the power of ten with as many zeros.
pub proof fn lemma_digits_value_bound(s: Seq<char>)
    requires
        all_digits(s),
    ensures
        digits_value(s) < pow(10, s.len()),
    decreases s.len(),
{
    reveal(pow);
    if s.len() > 0 {
        assert forall|i: int| 0 <= i < s.drop_last().len() implies is_digit(
            #[trigger] s.drop_last()[i],
        ) by {
            assert(is_digit(s[i]));
        }
        lemma_digits_value_bound(s.drop_last());
        assert(is_digit(s[s.len() - 1]));
    }
}

/// A leading run of digits holds digits, and none follows it.
pub proof fn lemma_digit_run(s: Seq<char>)
    ensures
        digit_run(s) <= s.len(),
        all_digits(s.take(digit_run(s) as int)),
        digit_run(s) < s.len() ==> !is_digit(s[digit_run(s) as int]),
    decreases s.len(),
{
    if s.len() > 0 && is_digit(s[0]) {
        lemma_digit_run(s.skip(1));
        let t = s.skip(1);
        assert forall|i: int| 0 <= i < digit_run(s) implies is_digit(
            #[trigger] s.take(digit_run(s) as int)[i],
        ) by {
            if i > 0 {
                assert(t.take(digit_run(t) as int)[i - 1] == s[i]);
            }
        }
    }
}

/// The length of the leading run of digits is given by any run that no digit follows.
pub proof fn lemma_digit_run_is(s: Seq<char>, k: nat)
    requires
        k <= s.len(),
        all_digits(s.take(k as int)),
        k < s.len() ==> !is_digit(s[k as int]),
    ensures
        digit_run(s) == k,
    decreases s.len(),
{
    if k > 0 {
        assert(is_digit(s.take(k as int)[0]));
        let t = s.skip(1);
        assert forall|i: int| 0 <= i < k - 1 implies is_digit(#[trigger] t.take(k - 1)[i]) by {
            assert(is_digit(s.take(k as int)[i + 1]));
        }
        lemma_digit_run_is(t, (k - 1) as nat);
    }
}

/// Whether `c` is one of the ten ASCII digits.
pub fn is_digit_char(c: char) -> (r: bool)
    ensures
        r == is_digit(c),
{
    '0' <= c && c <= '9'
}

/// The value of an ASCII digit.
pub fn value_of_digit(c: char) -> (r: u32)
    requires
        is_digit(c),
    ensures
        r == digit_value(c),
        r < 10,
{
    c as u32 - '0' as u32
}

/// The digit that stands for `d`.
pub fn char_of_digit(d: u32) -> (r: char)
    requires
        d < 10,
    ensures
        r == digit_char(d as nat),
{
    (d as u8 + 48) as char
}

/// How many digits follow position `from`.
pub fn count_digits(v: &Vec<char>, from: usize) -> (r: usize)
    requires
        from <= v@.len(),
    ensures
        r == digit_run(v@.skip(from as int)),
        from + r <= v@.len(),
{
    let mut k: usize = 0;
    let n: usize = v.len();
    while k < n - from && is_digit_char(v[from + k])
        invariant
            n == v@.len(),
            from + k <= n,
            all_digits(v@.skip(from as int).take(k as int)),
        decreases v@.len() - k,
    {
        proof {
            let t = v@.skip(from as int);
            assert forall|i: int| 0 <= i < k + 1 implies is_digit(#[trigger] t.take(k + 1)[i]) by {
                if i < k {
                    assert(t.take(k as int)[i] == t.take(k + 1)[i]);
                }
            }
        }
        k = k + 1;
    }
    proof {
        lemma_digit_run_is(v@.skip(from as int), k as nat);
    }
    k
}

/// Appends the decimal notation of `n` to `out`.
pub fn push_natural(out: &mut String, n: &Natural)
    ensures
        final(out)@ == old(out)@ + decimal_text(n@),
{
    let mut rest = n.duplicate();
    let mut reversed: Vec<char> = Vec::new();
    let d: u32 = rest.div_rem(10);
    reversed.push(char_of_digit(d));
    proof {
        assert(reversed@.reverse() =~= seq![digit_char(n@ % 10)]);
        if n@ >= 10 {
            assert(decimal_text(n@) =~= decimal_text(n@ / 10) + reversed@.reverse());
        }
    }
    while !rest.is_zero()
        invariant
            if rest@ == 0 {
                decimal_text(n@) == reversed@.reverse()
            } else {
                decimal_text(n@) == decimal_text(rest@) + reversed@.reverse()
            },
        decreases rest@,
    {
        let ghost before = rest@;
        let ghost tail = reversed@.reverse();
        let d: u32 = rest.div_rem(10);
        reversed.push(char_of_digit(d));
        proof {
            assert(reversed@.reverse() =~= seq![digit_char(before % 10)] + tail);
            if before >= 10 {
                assert(decimal_text(before) + tail =~= decimal_text(before / 10)
                    + reversed@.reverse());
            } else {
                assert(decimal_text(before) + tail =~= reversed@.reverse());
            }
        }
    }
    let mut i: usize = reversed.len();
    let ghost start = out@;
    while i > 0
        invariant
            i <= reversed@.len(),
            out@ == start + reversed@.reverse().take(reversed@.len() - i),
        decreases i,
    {
        i = i - 1;
        out.push(reversed[i]);
        assert(reversed@.reverse().take(reversed@.len() - i) =~= reversed@.reverse().take(
            reversed@.len() - i - 1,
        ).push(reversed@[i as int]));
    }
    assert(reversed@.reverse().take(reversed@.len() as int) =~= reversed@.reverse());
}

/// The decimal notation of `n`.
pub fn text_of_u64(n: u64) -> (r: String)
    ensures
        r@ == decimal_text(n as nat),
{
    let mut out = String::new();
    push_natural(&mut out, &Natural::from_u64(n));
    assert(Seq::<char>::empty() + decimal_text(n as nat) =~= decimal_text(n as nat));
    out
}

/// The decimal notation of `n`.
pub fn text_of_i64(n: i64) -> (r: String)
    ensures
        r@ == signed_text(n as int),
{
    let mut out = String::new();
    if n < 0 {
        out.push('-');
        let m: u64 = (-(n as i128)) as u64;
        push_natural(&mut out, &Natural::from_u64(m));
        assert(Seq::<char>::empty().push('-') =~= seq!['-']);
    } else {
        push_natural(&mut out, &Natural::from_u64(n as u64));
        assert(Seq::<char>::empty() + decimal_text(n as nat) =~= decimal_text(n as nat));
    }
    out
}

/// Reads the integer spelled by the characters from position `from` on.
pub fn read_integer(v: &Vec<char>, from: usize) -> (r: Option<i128>)
    requires
        from <= v@.len(),
    ensures
        match integer_of(v@.skip(from as int)) {
            Some(n) => r == Some(saturated(n) as i128),
            None => r is None,
        },
{
    let ghost s = v@.skip(from as int);
    let n: usize = v.len();
    let signed: bool = from < n && (v[from] == '-' || v[from] == '+');
    let negative: bool = from < n && v[from] == '-';
    let start: usize = if signed {
        from + 1
    } else {
        from
    };
    let ghost body = v@.skip(start as int);
    assert(body =~= if signed {
        s.skip(1)
    } else {
        s
    });
    if start == n {
        return None;
    }
    let mut magnitude: i128 = 0;
    let mut i: usize = start;
    proof {
        assert(body.take(0) =~= Seq::<char>::empty());
    }
    while i < n
        invariant
            n == v@.len(),
            start <= i <= n,
            body == v@.skip(start as int),
            all_digits(body.take(i - start)),
            0 <= magnitude,
            magnitude == saturated(digits_value(body.take(i - start)) as int),
            body == if signed {
                s.skip(1)
            } else {
                s
            },
            signed == (s.len() > 0 && (s[0] == '-' || s[0] == '+')),
            start < n,
            s == v@.skip(from as int),
        decreases n - i,
    {
        assert(body[i - start] == v@[i as int]);
        if !is_digit_char(v[i]) {
            assert(!is_digit(body[i - start]));
            return None;
        }
        let d: i128 = value_of_digit(v[i]) as i128;
        let next: i128 = magnitude * 10 + d;
        proof {
            let t = body.take(i - start);
            let u = body.take(i + 1 - start);
            assert(u.drop_last() =~= t);
            assert(u.last() == v@[i as int]);
            assert forall|j: int| 0 <= j < u.len() implies is_digit(#[trigger] u[j]) by {
                if j < t.len() {
                    assert(t[j] == u[j]);
                }
            }
        }
        magnitude = if next > SATURATION {
            SATURATION
        } else {
            next
        };
        i = i + 1;
    }
    assert(body.take(n - start) =~= body);
    if negative {
        Some(-magnitude)
    } else {
        Some(magnitude)
    }
}

/// The `i32` that `text` spells, if it spells one that is in range.
pub fn parse_i32(text: &str) -> (r: Option<i32>)
    ensures
        match integer_of(text@) {
            Some(n) => r == if i32::MIN <= n <= i32::MAX {
                Some(n as i32)
            } else {
                None
            },
            None => r is None,
        },
{
    let v = crate::text::chars_of(text);
    assert(v@.skip(0) =~= v@);
    match read_integer(&v, 0) {
        Some(n) => {
            if i32::MIN as i128 <= n && n <= i32::MAX as i128 {
                Some(n as i32)
            } else {
                None
            }
        },
        None => None,
    }
}

/// The natural number that `s` spells: an optional plus sign and at least one digit.
pub open spec fn natural_of(s: Seq<char>) -> Option<nat> {
    if s.len() > 0 && s[0] == '-' {
        None
    } else {
        match integer_of(s) {
            Some(n) => Some(n as nat),
            None => None,
        }
    }
}

/// The `u64` that `text` spells, if it spells one that is in range.
pub fn parse_u64(text: &str) -> (r: Option<u64>)
    ensures
        match natural_of(text@) {
            Some(n) => r == if n <= u64::MAX {
                Some(n as u64)
            } else {
                None
            },
            None => r is None,
        },
{
    let v = crate::text::chars_of(text);
    assert(v@.skip(0) =~= v@);
    if v.len() > 0 && v[0] == '-' {
        return None;
    }
    match read_integer(&v, 0) {
        Some(n) => {
            if n <= u64::MAX as i128 {
                Some(n as u64)
            } else {
                None
            }
        },
        None => None,
    }
}

/// `text`, filled up with zeros on the left to at least `width` characters.
pub fn pad_with_zeros(text: &str, width: usize) -> (r: String)
    ensures
        r@ == zero_padded(text@, width as nat),
{
    let v = crate::text::chars_of(text);
    let n: usize = v.len();
    let mut out = String::new();
    let mut k: usize = n;
    while k < width
        invariant
            n == text@.len(),
            n <= k,
            k <= width || k == n,
            out@ == Seq::new((k - n) as nat, |i: int| '0'),
        decreases width - k,
    {
        out.push('0');
        k = k + 1;
        assert(out@ =~= Seq::new((k - n) as nat, |i: int| '0'));
    }
    out.append(text);
    assert(n >= width ==> Seq::new(0, |i: int| '0') + text@ =~= text@);
    out
}

} // verus!
