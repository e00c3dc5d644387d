//! Numbers in decimal notation, read with the precision of an IEEE 754 double.
use crate::rounding::{
    lemma_nearest_large, lemma_nearest_small, nearest, nearest_close,
    nearest_is_correctly_rounded, nearest_times, nearest_times_drops_fraction, positive,
    round_scaled,
};
use crate::text::{all_digits, digit_value, digits_value, is_digit};
use vstd::arithmetic::power::{
    lemma_pow0, lemma_pow_adds, lemma_pow_increases, lemma_pow_positive, pow,
};
use vstd::arithmetic::power2::{
    lemma2_to64, lemma2_to64_rest, lemma_pow2_adds, lemma_pow2_pos, lemma_pow2_strictly_increases,
    lemma_pow2_unfold, pow2,
};
use vstd::prelude::*;

verus! {

/// What a piece of text writes when it is read as a number.
pub enum Numeral {
    Nan,
    Infinite { negative: bool },
    /// `digits * 10^scale`, with its sign.
    Finite { negative: bool, digits: nat, scale: int },
}

/// The place of the first character of `s` that is `c` or `d`, or its length.
pub open spec fn first_of(s: Seq<char>, c: char, d: char) -> nat
    decreases s.len(),
{
    if s.len() == 0 {
        0
    } else if s[0] == c || s[0] == d {
        0
    } else {
        1 + first_of(s.skip(1), c, d)
    }
}

/// `c` with an ASCII capital letter made small.
pub open spec fn lower(c: char) -> char {
    if 'A' <= c <= 'Z' {
        (c as int + 32) as char
    } else {
        c
    }
}

/// Whether `s` spells `word` in any mix of cases.
pub open spec fn spells(s: Seq<char>, word: Seq<char>) -> bool {
    s.len() == word.len() && forall|i: int| 0 <= i < s.len() ==> lower(#[trigger] s[i]) == word[i]
}

/// Whether `s` begins with a sign.
pub open spec fn signed(s: Seq<char>) -> bool {
    s.len() > 0 && (s[0] == '+' || s[0] == '-')
}

/// `s` without its sign.
pub open spec fn unsigned(s: Seq<char>) -> Seq<char> {
    if signed(s) {
        s.skip(1)
    } else {
        s
    }
}

/// Whether `s` begins with a minus sign.
pub open spec fn minus(s: Seq<char>) -> bool {
    s.len() > 0 && s[0] == '-'
}

/// The whole number that `s` writes: an optional sign, then one or more digits.
pub open spec fn parse_integer(s: Seq<char>) -> Option<int> {
    let body = unsigned(s);
    if body.len() > 0 && all_digits(body) {
        Some(
            if minus(s) {
                -(digits_value(body) as int)
            } else {
                digits_value(body) as int
            },
        )
    } else {
        None
    }
}

/// The part of an unsigned number before its exponent.
pub open spec fn mantissa(body: Seq<char>) -> Seq<char> {
    body.take(first_of(body, 'e', 'E') as int)
}

/// The exponent of an unsigned number; zero where none is written.
pub open spec fn written_exponent(body: Seq<char>) -> Option<int> {
    let e = first_of(body, 'e', 'E');
    if e < body.len() {
        parse_integer(body.skip(e as int + 1))
    } else {
        Some(0)
    }
}

/// The digits of a mantissa before its point.
pub open spec fn whole_part(mantissa: Seq<char>) -> Seq<char> {
    mantissa.take(first_of(mantissa, '.', '.') as int)
}

/// The digits of a mantissa after its point.
pub open spec fn fraction_part(mantissa: Seq<char>) -> Seq<char> {
    let p = first_of(mantissa, '.', '.');
    if p < mantissa.len() {
        mantissa.skip(p as int + 1)
    } else {
        Seq::empty()
    }
}

/// Whether an unsigned number is written with digits: at least one, at most one
/// point among them, and an optional exponent behind them.
pub open spec fn is_decimal(body: Seq<char>) -> bool {
    let m = mantissa(body);
    &&& all_digits(whole_part(m))
    &&& all_digits(fraction_part(m))
    &&& whole_part(m).len() + fraction_part(m).len() > 0
    &&& written_exponent(body) is Some
}

/// The number that all digits of a decimal stand for, without its point.
pub open spec fn decimal_value(body: Seq<char>) -> nat {
    digits_value(whole_part(mantissa(body)) + fraction_part(mantissa(body)))
}

/// The power of ten that `decimal_value` is to be multiplied by.
pub open spec fn decimal_scale(body: Seq<char>) -> int {
    written_exponent(body)->0 - fraction_part(mantissa(body)).len()
}

/// The number that `s` writes: an optional sign, then `nan`, `inf` or `infinity` in
/// any case, or a decimal.
pub open spec fn parse_numeral(s: Seq<char>) -> Option<Numeral> {
    let body = unsigned(s);
    if spells(body, seq!['n', 'a', 'n']) {
        Some(Numeral::Nan)
    } else if spells(body, seq!['i', 'n', 'f']) || spells(
        body,
        seq!['i', 'n', 'f', 'i', 'n', 'i', 't', 'y'],
    ) {
        Some(Numeral::Infinite { negative: minus(s) })
    } else if is_decimal(body) {
        Some(
            Numeral::Finite {
                negative: minus(s),
                digits: decimal_value(body),
                scale: decimal_scale(body),
            },
        )
    } else {
        None
    }
}

/// `digits * 10^scale` times `factor`, read as a double, without its fraction.
pub open spec fn decimal_times(digits: nat, scale: int, factor: nat) -> nat {
    nearest_times(
        (digits * pow(10, positive(scale))) as nat,
        pow(10, positive(-scale)) as nat,
        factor,
    )
}

/// The number times `factor` as an unsigned 64-bit integer: the fraction is
/// dropped, what is out of range becomes the nearest bound, and NaN becomes zero.
pub open spec fn numeral_times(n: Numeral, factor: nat) -> nat {
    match n {
        Numeral::Nan => 0,
        Numeral::Infinite { negative } => if negative {
            0
        } else {
            u64::MAX as nat
        },
        Numeral::Finite { negative, digits, scale } => if negative {
            0
        } else {
            saturated(decimal_times(digits, scale, factor))
        },
    }
}

/// The number that decimal digits stand for, most significant first.
pub open spec fn value10(s: Seq<u8>) -> nat
    decreases s.len(),
{
    if s.len() == 0 {
        0
    } else {
        value10(s.drop_last()) * 10 + s.last() as nat
    }
}

/// Whether every element is a decimal digit.
pub open spec fn decimal_digits(s: Seq<u8>) -> bool {
    forall|i: int| 0 <= i < s.len() ==> #[trigger] s[i] < 10
}

proof fn lemma_pow10_step(n: nat)
    ensures
        pow(10, n + 1) == 10 * pow(10, n),
        pow(10, n) > 0,
{
    reveal(pow);
    lemma_pow_positive(10, n);
}

proof fn lemma_value10_concat(a: Seq<u8>, b: Seq<u8>)
    ensures
        value10(a + b) == value10(a) * pow(10, b.len()) + value10(b),
    decreases b.len(),
{
    if b.len() == 0 {
        assert(a + b =~= a);
        lemma_pow0(10);
    } else {
        let c = b.drop_last();
        lemma_value10_concat(a, c);
        assert((a + b).drop_last() =~= a + c);
        lemma_pow10_step(c.len());
        assert((value10(a) * pow(10, c.len())) * 10 == value10(a) * (10 * pow(10, c.len())))
            by (nonlinear_arith);
    }
}

proof fn lemma_value10_bounds(s: Seq<u8>)
    requires
        decimal_digits(s),
    ensures
        value10(s) < pow(10, s.len()),
        s.len() > 0 && s[0] > 0 ==> value10(s) >= pow(10, (s.len() - 1) as nat),
    decreases s.len(),
{
    lemma_pow0(10);
    if s.len() > 0 {
        let t = s.drop_last();
        lemma_value10_bounds(t);
        lemma_pow10_step(t.len());
        if t.len() > 0 {
            lemma_pow10_step((t.len() - 1) as nat);
        }
    }
}

proof fn lemma_value10_zeros(s: Seq<u8>)
    requires
        forall|i: int| 0 <= i < s.len() ==> s[i] == 0,
    ensures
        value10(s) == 0,
    decreases s.len(),
{
    if s.len() > 0 {
        lemma_value10_zeros(s.drop_last());
    }
}

proof fn lemma_value10_front(s: Seq<u8>, i: int)
    requires
        0 <= i < s.len(),
    ensures
        value10(s.skip(i)) == s[i] as nat * pow(10, (s.len() - i - 1) as nat) + value10(
            s.skip(i + 1),
        ),
{
    assert(s.skip(i) =~= seq![s[i]] + s.skip(i + 1));
    lemma_value10_concat(seq![s[i]], s.skip(i + 1));
    assert(seq![s[i]].drop_last() =~= Seq::<u8>::empty());
    assert(value10(seq![s[i]]) == s[i]) by {
        assert(value10(Seq::<u8>::empty()) == 0);
    }
}

/// Doubles the decimal fraction `0.d1d2d3...` in place and returns its whole part.
fn double(ds: &mut Vec<u8>) -> (carry: bool)
    requires
        decimal_digits(old(ds)@),
    ensures
        decimal_digits(final(ds)@),
        final(ds).len() == old(ds).len(),
        2 * value10(old(ds)@) == (if carry {
            pow(10, old(ds)@.len())
        } else {
            0
        }) + value10(final(ds)@),
{
    let n: usize = ds.len();
    let mut i: usize = n;
    let mut carry: bool = false;
    let ghost before = ds@;
    proof {
        assert(ds@.skip(n as int) =~= Seq::<u8>::empty());
        lemma_pow0(10);
        assert(before.skip(0) =~= before);
    }
    while i > 0
        invariant
            n == before.len(),
            ds.len() == n,
            0 <= i <= n,
            decimal_digits(before),
            decimal_digits(ds@),
            forall|j: int| 0 <= j < i ==> ds[j] == before[j],
            2 * value10(before.skip(i as int)) == (if carry {
                pow(10, (n - i) as nat)
            } else {
                0
            }) + value10(ds@.skip(i as int)),
        decreases i,
    {
        let ghost now = ds@;
        i = i - 1;
        let twice: u8 = ds[i] * 2 + if carry {
            1u8
        } else {
            0u8
        };
        let ghost held = carry;
        carry = twice >= 10;
        let digit: u8 = if twice >= 10 {
            (twice - 10) as u8
        } else {
            twice
        };
        ds.set(i, digit);
        proof {
            let w = (n - i - 1) as nat;
            lemma_value10_front(before, i as int);
            lemma_value10_front(ds@, i as int);
            assert(ds@.skip(i + 1) =~= now.skip(i + 1));
            lemma_pow10_step(w);
            let d = before[i as int] as int;
            let p = pow(10, w);
            let c: int = if held {
                1
            } else {
                0
            };
            let o: int = if carry {
                1
            } else {
                0
            };
            assert(2 * d + c == 10 * o + digit as int);
            assert(2 * (d * p) + c * p == o * (10 * p) + digit as int * p) by (nonlinear_arith)
                requires
                    2 * d + c == 10 * o + digit as int,
            ;
        }
    }
    proof {
        assert(ds@.skip(0) =~= ds@);
        assert(before.skip(0) =~= before);
    }
    carry
}

/// The whole part of the fraction times `2^t`, and whether anything is left.
fn fraction_times(ds: Vec<u8>, t: u32) -> (r: (u128, bool, Ghost<nat>))
    requires
        decimal_digits(ds@),
        t <= 84,
    ensures
        value10(ds@) * pow2(t as nat) == r.0 * pow(10, ds@.len()) + r.2@,
        r.2@ < pow(10, ds@.len()),
        r.1 == (r.2@ > 0),
        r.0 < pow2(t as nat),
{
    let ghost n = ds@.len();
    let ghost first = value10(ds@);
    let mut cur = ds;
    let mut acc: u128 = 0;
    let mut i: u32 = 0;
    proof {
        lemma2_to64();
        lemma_value10_bounds(cur@);
        assert(first * 1 == first);
    }
    while i < t
        invariant
            0 <= i <= t <= 84,
            cur@.len() == n,
            decimal_digits(cur@),
            first * pow2(i as nat) == acc * pow(10, n) + value10(cur@),
            acc < pow2(i as nat),
        decreases t - i,
    {
        let ghost old_value = value10(cur@);
        let ghost old_acc = acc as int;
        proof {
            lemma_pow2_unfold((i + 1) as nat);
            lemma_pow2_bound((i + 1) as nat);
        }
        let carry: bool = double(&mut cur);
        acc = acc * 2 + if carry {
            1u128
        } else {
            0u128
        };
        proof {
            let c: int = if carry {
                1
            } else {
                0
            };
            let p = pow(10, n);
            let now = value10(cur@) as int;
            let w = pow2(i as nat) as int;
            assert(2 * old_value == c * p + now) by {
                assert(1 * p == p && 0 * p == 0);
            }
            assert(first * (2 * w) == (2 * old_acc + c) * p + now) by (nonlinear_arith)
                requires
                    first * w == old_acc * p + old_value,
                    2 * old_value == c * p + now,
            ;
        }
        i = i + 1;
    }
    let mut rest: bool = false;
    let mut j: usize = 0;
    while j < cur.len()
        invariant
            0 <= j <= cur.len(),
            rest == (exists|k: int| 0 <= k < j && cur[k] != 0),
        decreases cur.len() - j,
    {
        if cur[j] != 0 {
            rest = true;
        }
        j = j + 1;
    }
    proof {
        lemma_value10_bounds(cur@);
        if !rest {
            lemma_value10_zeros(cur@);
        } else {
            let k = choose|k: int| 0 <= k < cur.len() && cur[k] != 0;
            lemma_value10_positive(cur@, k);
        }
    }
    (acc, rest, Ghost(value10(cur@)))
}

proof fn lemma_value10_positive(s: Seq<u8>, k: int)
    requires
        0 <= k < s.len(),
        s[k] != 0,
    ensures
        value10(s) > 0,
    decreases s.len(),
{
    if k < s.len() - 1 {
        lemma_value10_positive(s.drop_last(), k);
    }
}

proof fn lemma_pow2_bound(i: nat)
    requires
        i <= 85,
    ensures
        pow2(i) <= 0x20_0000_0000_0000_0000_0000,
{
    lemma2_to64();
    lemma_pow2_adds(64, 21);
    if i < 85 {
        lemma_pow2_strictly_increases(i, 85);
    }
}

/// `n`, or the largest 64-bit integer where `n` is larger.
pub open spec fn saturated(n: nat) -> nat {
    if n > u64::MAX {
        u64::MAX as nat
    } else {
        n
    }
}

/// Whether `x` stands for `exact`: it is equal, or both are beyond any scale that
/// still matters, on the same side.
spec fn stands_for(x: i128, exact: int) -> bool {
    ||| x == exact
    ||| x >= 0x1_0000_0000_0000_0000_0000 && exact >= 0x1_0000_0000_0000_0000_0000
    ||| x <= -0x1_0000_0000_0000_0000_0000 && exact <= -0x1_0000_0000_0000_0000_0000
}

proof fn lemma_pow10_values()
    ensures
        pow(10, 20) == 100_000_000_000_000_000_000,
        pow(10, 25) == 10_000_000_000_000_000_000_000_000,
{
    reveal_with_fuel(pow, 26);
}

/// A decimal with more than 25 digits before its point exceeds 2^64.
proof fn lemma_decimal_large(d: Seq<u8>, exact: int, k: nat)
    requires
        decimal_digits(d),
        d.len() > 0,
        d[0] > 0,
        d.len() + exact > 25,
    ensures
        decimal_times(value10(d), exact, pow2(k)) > u64::MAX,
{
    let n = d.len();
    let num = value10(d);
    let a = (num * pow(10, positive(exact))) as nat;
    let b = pow(10, positive(-exact)) as nat;
    lemma_value10_bounds(d);
    lemma_pow10_values();
    lemma_pow_positive(10, positive(exact));
    lemma_pow_positive(10, positive(-exact));
    lemma_pow_positive(10, (n - 1) as nat);
    lemma_pow0(10);
    lemma2_to64();
    lemma_pow2_pos(k);
    let top = (n + exact - 1) as nat;
    lemma_pow_increases(10, 25, top);
    assert(a >= b * pow(10, top)) by {
        if exact >= 0 {
            lemma_pow_adds(10, (n - 1) as nat, exact as nat);
            let x = pow(10, (n - 1) as nat);
            let y = pow(10, exact as nat);
            assert(num * y >= x * y) by (nonlinear_arith)
                requires
                    num >= x,
                    y > 0,
            ;
            assert(b == 1);
            assert(b * pow(10, top) == pow(10, top)) by (nonlinear_arith)
                requires
                    b == 1,
            ;
        } else {
            lemma_pow_adds(10, top, (-exact) as nat);
            let x = pow(10, top);
            assert(b * x == x * b) by (nonlinear_arith);
            assert(num * pow(10, 0) == num) by (nonlinear_arith)
                requires
                    pow(10, 0) == 1,
            ;
        }
    }
    assert(a * pow2(k) >= b * pow2(64)) by (nonlinear_arith)
        requires
            a >= b * pow(10, top),
            pow(10, top) >= 10_000_000_000_000_000_000_000_000,
            pow2(64) == 0x1_0000_0000_0000_0000,
            pow2(k) >= 1,
            b > 0,
    {
        assert(b * pow(10, top) >= b * pow2(64));
        assert(a * pow2(k) >= a);
    }
    lemma_nearest_large(a, b, k);
}

/// A decimal with at least 20 zeros after its point has no whole part after
/// the multiplication.
proof fn lemma_decimal_small(d: Seq<u8>, exact: int, k: nat)
    requires
        decimal_digits(d),
        d.len() + exact < -20,
        k <= 30,
    ensures
        decimal_times(value10(d), exact, pow2(k)) == 0,
{
    let n = d.len();
    let num = value10(d);
    let a = (num * pow(10, positive(exact))) as nat;
    let b = pow(10, positive(-exact)) as nat;
    lemma_value10_bounds(d);
    lemma_pow10_values();
    lemma_pow_positive(10, n);
    lemma_pow_positive(10, positive(-exact));
    lemma_pow0(10);
    lemma2_to64();
    if k < 30 {
        lemma_pow2_strictly_increases(k, 30);
    }
    lemma_pow2_pos(k);
    lemma_pow_adds(10, n, 20);
    lemma_pow_increases(10, n + 20, (-exact) as nat);
    assert(2 * a * pow2(k) < b) by (nonlinear_arith)
        requires
            a < pow(10, n),
            pow2(k) <= 0x4000_0000,
            b >= pow(10, n) * 100_000_000_000_000_000_000,
            a >= 0,
            pow2(k) > 0,
    {
        assert(2 * a * pow2(k) <= 2 * a * 0x4000_0000);
    }
    lemma_nearest_small(a, b, k);
}

/// The digits before and after the point of the decimal whose digits from `z` on
/// stand `p` places before it.
fn place_point(digits: &Vec<u8>, z: usize, p: i128) -> (r: (u128, Vec<u8>))
    requires
        decimal_digits(digits@),
        z < digits.len(),
        -20 <= p <= 25,
    ensures
        decimal_digits(r.1@),
        r.0 < pow(10, 25),
        r.0 * pow(10, r.1@.len()) + value10(r.1@) == value10(digits@.skip(z as int)) * pow(
            10,
            positive(p - (digits.len() - z)),
        ),
        r.1@.len() == positive(digits.len() - z - p),
{
    let n: usize = digits.len() - z;
    let ghost d = digits@.skip(z as int);
    let lead: usize = if p <= 0 {
        0
    } else if (p as usize) < n {
        p as usize
    } else {
        n
    };
    let pad: usize = if p > n as i128 {
        (p - n as i128) as usize
    } else {
        0
    };
    let gap: usize = if p < 0 {
        (-p) as usize
    } else {
        0
    };
    let mut whole: u128 = 0;
    let mut i: usize = 0;
    proof {
        lemma_pow10_values();
        lemma_pow0(10);
        assert(d.take(0) =~= Seq::<u8>::empty());
    }
    while i < lead
        invariant
            0 <= i <= lead <= n,
            lead <= 25,
            n + z == digits.len(),
            d == digits@.skip(z as int),
            decimal_digits(digits@),
            whole == value10(d.take(i as int)),
            pow(10, 25) == 10_000_000_000_000_000_000_000_000,
        decreases lead - i,
    {
        proof {
            assert(d.take(i + 1).drop_last() =~= d.take(i as int));
            assert(decimal_digits(d.take(i as int)));
            lemma_value10_bounds(d.take(i as int));
            lemma_pow_increases(10, i as nat, 25);
        }
        whole = whole * 10 + digits[z + i] as u128;
        i = i + 1;
    }
    let ghost led = whole as nat;
    let mut j: usize = 0;
    proof {
        assert(decimal_digits(d.take(lead as int)));
        lemma_value10_bounds(d.take(lead as int));
        assert(led * 1 == led);
    }
    while j < pad
        invariant
            0 <= j <= pad,
            lead + pad <= 25,
            whole == led * pow(10, j as nat),
            led < pow(10, lead as nat),
            pow(10, 25) == 10_000_000_000_000_000_000_000_000,
        decreases pad - j,
    {
        proof {
            lemma_pow10_step(j as nat);
            lemma_below_power(led, lead as nat, j as nat, 25);
            let x = pow(10, j as nat);
            assert(led * (10 * x) == (led * x) * 10) by (nonlinear_arith);
        }
        whole = whole * 10;
        j = j + 1;
    }
    proof {
        lemma_below_power(led, lead as nat, pad as nat, 25);
    }
    let mut fraction: Vec<u8> = Vec::new();
    let mut g: usize = 0;
    while g < gap
        invariant
            0 <= g <= gap,
            fraction.len() == g,
            forall|q: int| 0 <= q < fraction.len() ==> fraction[q] == 0,
        decreases gap - g,
    {
        fraction.push(0);
        g = g + 1;
    }
    let ghost zeros = fraction@;
    let mut h: usize = lead;
    assert(zeros + d.subrange(lead as int, lead as int) =~= zeros);
    while h < n
        invariant
            lead <= h <= n,
            n + z == digits.len(),
            d == digits@.skip(z as int),
            fraction@ == zeros + d.subrange(lead as int, h as int),
        decreases n - h,
    {
        fraction.push(digits[z + h]);
        h = h + 1;
        assert(fraction@ =~= zeros + d.subrange(lead as int, h as int));
    }
    proof {
        let tail = d.skip(lead as int);
        assert(d.subrange(lead as int, n as int) =~= tail);
        lemma_value10_zeros(zeros);
        lemma_value10_concat(zeros, tail);
        assert(0 * pow(10, tail.len()) == 0);
        assert(d =~= d.take(lead as int) + tail);
        lemma_value10_concat(d.take(lead as int), tail);
        let b = pow(10, fraction@.len());
        let num = value10(d);
        let up = pow(10, positive(p - n));
        if p >= n {
            assert(d.take(lead as int) =~= d);
            assert(tail =~= Seq::<u8>::empty());
            assert(fraction@.len() == 0);
            assert(whole * b == whole) by (nonlinear_arith)
                requires
                    b == 1,
            ;
            assert(whole == num * up);
        } else {
            assert(num * up == num) by (nonlinear_arith)
                requires
                    up == 1,
            ;
            assert(whole == led);
            if p < 0 {
                assert(d.take(lead as int) =~= Seq::<u8>::empty());
                assert(whole == 0);
                assert(0 * b == 0 && 0 * pow(10, tail.len()) == 0);
            } else {
                assert(zeros =~= Seq::<u8>::empty());
                assert(fraction@ =~= tail);
            }
        }
    }
    (whole, fraction)
}

proof fn lemma_below_power(v: nat, i: nat, j: nat, top: nat)
    requires
        v < pow(10, i),
        i + j <= top,
    ensures
        v * pow(10, j) < pow(10, top),
        v * pow(10, j) >= 0,
{
    lemma_pow_adds(10, i, j);
    lemma_pow_positive(10, j);
    lemma_pow_increases(10, i + j, top);
    let x = pow(10, j);
    let y = pow(10, i);
    assert(0 <= v * x < y * x) by (nonlinear_arith)
        requires
            v < y,
            x > 0,
    ;
}

/// `whole` and a decimal fraction, times `2^k`, read as a double and saturated.
fn round_decimal(whole: u128, fraction: Vec<u8>, k: u32, multiplier: u64) -> (r: u64)
    requires
        decimal_digits(fraction@),
        whole < pow(10, 25),
        k <= 30,
        multiplier == pow2(k as nat),
    ensures
        r == saturated(
            nearest_times(
                (whole * pow(10, fraction@.len()) + value10(fraction@)) as nat,
                pow(10, fraction@.len()) as nat,
                pow2(k as nat),
            ),
        ),
{
    let ghost b = pow(10, fraction@.len()) as nat;
    let ghost vf = value10(fraction@);
    let ghost a = (whole * b + vf) as nat;
    proof {
        lemma_pow_positive(10, fraction@.len());
        lemma_pow10_values();
        lemma2_to64();
        lemma2_to64_rest();
        lemma_pow2_pos(k as nat);
        if k < 30 {
            lemma_pow2_strictly_increases(k as nat, 30);
        }
        assert(0 <= whole * multiplier <= whole * 0x4000_0000) by (nonlinear_arith)
            requires
                0 <= multiplier <= 0x4000_0000,
                whole >= 0,
        ;
        assert(whole * b >= 0) by (nonlinear_arith);
    }
    let scaled: u128 = whole * multiplier as u128;
    if scaled > u64::MAX as u128 {
        proof {
            let m = multiplier as nat;
            let w = whole as nat;
            assert(a * m >= b * 0x1_0000_0000_0000_0000) by (nonlinear_arith)
                requires
                    a == w * b + vf,
                    w * m >= 0x1_0000_0000_0000_0000,
                    vf >= 0,
                    m >= 0,
                    b >= 0,
            {
                assert(a * m == (w * m) * b + vf * m);
                assert((w * m) * b >= 0x1_0000_0000_0000_0000 * b);
            }
            lemma_nearest_large(a, b, k as nat);
        }
        return u64::MAX;
    }
    let (units, rest, Ghost(rem)) = fraction_times(fraction, k + 54);
    proof {
        let m = multiplier as int;
        let w = whole as int;
        let x = pow2(54) as int;
        lemma_pow2_adds(k as nat, 54);
        lemma_pow2_adds((64 - k) as nat, k as nat);
        lemma_pow2_adds(64, 54);
        let y = pow2((64 - k) as nat) as int;
        assert(w + 1 <= y) by (nonlinear_arith)
            requires
                w * m < y * m,
                m > 0,
        ;
        assert(w * m + m <= y * m) by (nonlinear_arith)
            requires
                w + 1 <= y,
                m > 0,
        ;
        assert((w * m) * x + m * x <= 0x1_0000_0000_0000_0000 * x) by (nonlinear_arith)
            requires
                w * m + m <= 0x1_0000_0000_0000_0000,
                x > 0,
        ;
        let u = units as int;
        let t = m * x;
        assert(t == pow2((k + 54) as nat));
        assert(a * t == (scaled * x + u) * b + rem) by (nonlinear_arith)
            requires
                a == w * b + vf,
                vf * t == u * b + rem,
                t == m * x,
                scaled == w * m,
        ;
    }
    let rounded: u128 = round_scaled(
        scaled * 0x40_0000_0000_0000 + units,
        rest,
        Ghost(a),
        Ghost(b),
        Ghost(k as nat),
        Ghost(rem),
    );
    if rounded > u64::MAX as u128 {
        u64::MAX
    } else {
        rounded as u64
    }
}

/// The decimal `digits * 10^scale` times `2^k`, read as a double and saturated.
fn scale_decimal(
    digits: &Vec<u8>,
    scale: i128,
    k: u32,
    multiplier: u64,
    Ghost(exact): Ghost<int>,
) -> (r: u64)
    requires
        decimal_digits(digits@),
        stands_for(scale, exact),
        -0x2_0000_0000_0000_0000_0000_0000 <= scale <= 0x2_0000_0000_0000_0000_0000_0000,
        k <= 30,
        multiplier == pow2(k as nat),
    ensures
        r == saturated(decimal_times(value10(digits@), exact, pow2(k as nat))),
{
    let mut z: usize = 0;
    while z < digits.len() && digits[z] == 0
        invariant
            0 <= z <= digits.len(),
            forall|i: int| 0 <= i < z ==> digits[i] == 0,
        decreases digits.len() - z,
    {
        z = z + 1;
    }
    let n: usize = digits.len() - z;
    let ghost d = digits@.skip(z as int);
    proof {
        lemma_value10_zeros(digits@.take(z as int));
        assert(digits@ =~= digits@.take(z as int) + d);
        lemma_value10_concat(digits@.take(z as int), d);
        assert(0 * pow(10, d.len()) == 0);
        assert(value10(digits@) == value10(d));
    }
    if n == 0 {
        proof {
            assert(value10(d) == 0);
            assert(0 * pow(10, positive(exact)) == 0);
            assert(0 * pow2(k as nat) == 0);
        }
        return 0;
    }
    let p: i128 = n as i128 + scale;
    if p > 25 {
        proof {
            lemma_decimal_large(d, exact, k as nat);
        }
        return u64::MAX;
    }
    if p < -20 {
        proof {
            lemma_decimal_small(d, exact, k as nat);
        }
        return 0;
    }
    assert(scale == exact);
    let (whole, fraction) = place_point(digits, z, p);
    proof {
        assert(p - n == exact);
        assert(fraction@.len() == positive(-exact));
    }
    round_decimal(whole, fraction, k, multiplier)
}

/// The digits that characters stand for.
spec fn as_digits(s: Seq<char>) -> Seq<u8> {
    Seq::new(s.len(), |i: int| digit_value(s[i]) as u8)
}

proof fn lemma_as_digits(s: Seq<char>)
    requires
        all_digits(s),
    ensures
        decimal_digits(as_digits(s)),
        value10(as_digits(s)) == digits_value(s),
    decreases s.len(),
{
    assert forall|i: int| 0 <= i < s.len() implies #[trigger] as_digits(s)[i] < 10 by {
        assert(is_digit(s[i]));
    }
    if s.len() > 0 {
        assert(all_digits(s.drop_last()));
        lemma_as_digits(s.drop_last());
        assert(as_digits(s).drop_last() =~= as_digits(s.drop_last()));
        assert(is_digit(s[s.len() - 1]));
    }
}

/// Whether `c` is an ASCII digit.
fn digit(c: char) -> (r: bool)
    ensures
        r == is_digit(c),
{
    '0' <= c && c <= '9'
}

/// The place of the first `c` or `d` at or after `from`, or `to`.
fn find(s: &Vec<char>, from: usize, to: usize, c: char, d: char) -> (r: usize)
    requires
        from <= to <= s.len(),
    ensures
        from <= r <= to,
        r == from + first_of(s@.subrange(from as int, to as int), c, d),
{
    let mut i: usize = from;
    let ghost whole = s@.subrange(from as int, to as int);
    assert(s@.subrange(i as int, to as int) =~= whole);
    while i < to
        invariant
            from <= i <= to <= s.len(),
            whole == s@.subrange(from as int, to as int),
            from + first_of(whole, c, d) == i + first_of(s@.subrange(i as int, to as int), c, d),
        decreases to - i,
    {
        let ghost rest = s@.subrange(i as int, to as int);
        assert(rest.skip(1) =~= s@.subrange(i + 1, to as int));
        if s[i] == c || s[i] == d {
            return i;
        }
        i = i + 1;
    }
    i
}

/// Appends the digits between `from` and `to`; stops and returns `false` at a
/// character that is none.
fn take_digits(s: &Vec<char>, from: usize, to: usize, out: &mut Vec<u8>) -> (ok: bool)
    requires
        from <= to <= s.len(),
    ensures
        ok == all_digits(s@.subrange(from as int, to as int)),
        ok ==> final(out)@ == old(out)@ + as_digits(s@.subrange(from as int, to as int)),
{
    let mut i: usize = from;
    let ghost part = s@.subrange(from as int, to as int);
    assert(out@ =~= old(out)@ + as_digits(part.take(0)));
    while i < to
        invariant
            from <= i <= to <= s.len(),
            part == s@.subrange(from as int, to as int),
            all_digits(part.take(i - from)),
            out@ == old(out)@ + as_digits(part.take(i - from)),
        decreases to - i,
    {
        let c: char = s[i];
        assert(part[i - from] == c);
        if !digit(c) {
            return false;
        }
        assert(part.take(i + 1 - from) =~= part.take(i - from).push(c));
        out.push((c as u32 - '0' as u32) as u8);
        i = i + 1;
        assert(out@ =~= old(out)@ + as_digits(part.take(i - from)));
    }
    assert(part.take(to - from) =~= part);
    true
}

/// Whether the characters from `from` on spell `word` in any mix of cases.
fn spelled(s: &Vec<char>, from: usize, word: &Vec<char>) -> (r: bool)
    requires
        from <= s.len(),
    ensures
        r == spells(s@.skip(from as int), word@),
{
    if s.len() - from != word.len() {
        return false;
    }
    let mut i: usize = 0;
    while i < word.len()
        invariant
            0 <= i <= word.len(),
            s.len() - from == word.len(),
            forall|j: int| 0 <= j < i ==> lower(#[trigger] s@.skip(from as int)[j]) == word[j],
        decreases word.len() - i,
    {
        let c: char = s[from + i];
        assert(s@.skip(from as int)[i as int] == c);
        let small: char = if 'A' <= c && c <= 'Z' {
            (c as u8 + 32) as char
        } else {
            c
        };
        assert(small == lower(c));
        if small != word[i] {
            return false;
        }
        i = i + 1;
    }
    true
}

/// Reads a whole number, cut off where it no longer matters.
fn read_exponent(s: &Vec<char>, from: usize) -> (r: Option<i128>)
    requires
        from <= s.len(),
    ensures
        r is Some <==> parse_integer(s@.skip(from as int)) is Some,
        r is Some ==> {
            let exact = parse_integer(s@.skip(from as int))->0;
            &&& r->0 == exact || (r->0 == 0x1_0000_0000_0000_0000_0000_0000 && exact >= r->0) || (
            r->0 == -0x1_0000_0000_0000_0000_0000_0000 && exact <= r->0)
            &&& -0x1_0000_0000_0000_0000_0000_0000 <= r->0 <= 0x1_0000_0000_0000_0000_0000_0000
        },
{
    let ghost all = s@.skip(from as int);
    let has_sign: bool = from < s.len() && (s[from] == '+' || s[from] == '-');
    let negative: bool = from < s.len() && s[from] == '-';
    let start: usize = if has_sign {
        from + 1
    } else {
        from
    };
    let ghost body = unsigned(all);
    proof {
        if from < s.len() {
            assert(all[0] == s[from as int]);
        }
        assert(body =~= s@.skip(start as int));
    }
    if start == s.len() {
        return None;
    }
    let cap: i128 = 0x1_0000_0000_0000_0000_0000_0000;
    let mut value: i128 = 0;
    let mut i: usize = start;
    while i < s.len()
        invariant
            start <= i <= s.len(),
            cap == 0x1_0000_0000_0000_0000_0000_0000,
            body == s@.skip(start as int),
            body == unsigned(all),
            all == s@.skip(from as int),
            all_digits(body.take(i - start)),
            0 <= value <= cap,
            value < cap ==> digits_value(body.take(i - start)) == value,
            value == cap ==> digits_value(body.take(i - start)) >= cap,
        decreases s.len() - i,
    {
        let c: char = s[i];
        let ghost done = body.take(i - start);
        assert(body[i - start] == c);
        assert(body.take(i + 1 - start) =~= done.push(c));
        assert(done.push(c).drop_last() =~= done);
        if !digit(c) {
            return None;
        }
        if value < cap {
            value = value * 10 + (c as u32 - '0' as u32) as i128;
            if value > cap {
                value = cap;
            }
        }
        i = i + 1;
    }
    assert(body.take(s.len() - start) =~= body);
    if negative {
        Some(-value)
    } else {
        Some(value)
    }
}

/// Reads the digits and the scale of the decimal from `start` on.
fn read_decimal(s: &Vec<char>, start: usize) -> (r: Option<(Vec<u8>, i128)>)
    requires
        start <= s.len(),
    ensures
        r is Some <==> is_decimal(s@.skip(start as int)),
        r is Some ==> {
            &&& decimal_digits((r->0).0@)
            &&& value10((r->0).0@) == decimal_value(s@.skip(start as int))
            &&& stands_for((r->0).1, decimal_scale(s@.skip(start as int)))
            &&& -0x2_0000_0000_0000_0000_0000_0000 <= (r->0).1
                <= 0x2_0000_0000_0000_0000_0000_0000
        },
{
    let ghost body = s@.skip(start as int);
    let end: usize = find(s, start, s.len(), 'e', 'E');
    assert(s@.subrange(start as int, s.len() as int) =~= body);
    let ghost m = mantissa(body);
    assert(s@.subrange(start as int, end as int) =~= m);
    let point: usize = find(s, start, end, '.', '.');
    let mut digits: Vec<u8> = Vec::new();
    let ghost whole = whole_part(m);
    let ghost fraction = fraction_part(m);
    assert(s@.subrange(start as int, point as int) =~= whole);
    if !take_digits(s, start, point, &mut digits) {
        return None;
    }
    let after: usize = if point < end {
        point + 1
    } else {
        end
    };
    assert(s@.subrange(after as int, end as int) =~= fraction);
    if !take_digits(s, after, end, &mut digits) {
        return None;
    }
    if digits.len() == 0 {
        return None;
    }
    let mut written: i128 = 0;
    if end < s.len() {
        assert(s@.skip(end + 1) =~= body.skip(first_of(body, 'e', 'E') as int + 1));
        match read_exponent(s, end + 1) {
            Some(e) => {
                written = e;
            },
            None => {
                return None;
            },
        }
    }
    proof {
        assert(digits@ =~= as_digits(whole + fraction));
        assert(all_digits(whole + fraction));
        lemma_as_digits(whole + fraction);
    }
    Some((digits, written - (end - after) as i128))
}

/// Reads a number and multiplies it by `2^k`, with the precision and the range
/// of [`numeral_times`].
pub(crate) fn read_times(s: &Vec<char>, k: u32, multiplier: u64) -> (r: Option<u64>)
    requires
        k <= 30,
        multiplier == pow2(k as nat),
    ensures
        r is Some <==> parse_numeral(s@) is Some,
        r is Some ==> r->0 == numeral_times(parse_numeral(s@)->0, multiplier as nat),
{
    let has_sign: bool = s.len() > 0 && (s[0] == '+' || s[0] == '-');
    let negative: bool = s.len() > 0 && s[0] == '-';
    let start: usize = if has_sign {
        1
    } else {
        0
    };
    let ghost body = unsigned(s@);
    assert(body =~= s@.skip(start as int));
    let nan: Vec<char> = vec!['n', 'a', 'n'];
    let inf: Vec<char> = vec!['i', 'n', 'f'];
    let infinity: Vec<char> = vec!['i', 'n', 'f', 'i', 'n', 'i', 't', 'y'];
    assert(nan@ =~= seq!['n', 'a', 'n']);
    assert(inf@ =~= seq!['i', 'n', 'f']);
    assert(infinity@ =~= seq!['i', 'n', 'f', 'i', 'n', 'i', 't', 'y']);
    if spelled(s, start, &nan) {
        return Some(0);
    }
    if spelled(s, start, &inf) || spelled(s, start, &infinity) {
        return if negative {
            Some(0)
        } else {
            Some(u64::MAX)
        };
    }
    match read_decimal(s, start) {
        Some((digits, scale)) => {
            if negative {
                Some(0)
            } else {
                Some(scale_decimal(&digits, scale, k, multiplier, Ghost(decimal_scale(body))))
            }
        },
        None => None,
    }
}

proof fn lemma_first_of_at(a: Seq<char>, b: Seq<char>, c: char, d: char)
    requires
        forall|i: int| 0 <= i < a.len() ==> (#[trigger] a[i]) != c && a[i] != d,
        b.len() == 0 || b[0] == c || b[0] == d,
    ensures
        first_of(a + b, c, d) == a.len(),
    decreases a.len(),
{
    if a.len() > 0 {
        assert((a + b).skip(1) =~= a.skip(1) + b);
        assert forall|i: int| 0 <= i < a.skip(1).len() implies (#[trigger] a.skip(1)[i]) != c
            && a.skip(1)[i] != d by {
            assert(a.skip(1)[i] == a[i + 1]);
        }
        lemma_first_of_at(a.skip(1), b, c, d);
        assert(a[0] != c && a[0] != d);
    } else {
        assert(a + b =~= b);
    }
}

proof fn lemma_first_of_is_first(s: Seq<char>, c: char, d: char)
    ensures
        first_of(s, c, d) <= s.len(),
        forall|i: int| 0 <= i < first_of(s, c, d) ==> (#[trigger] s[i]) != c && s[i] != d,
        first_of(s, c, d) < s.len() ==> s[first_of(s, c, d) as int] == c || s[first_of(
            s,
            c,
            d,
        ) as int] == d,
    decreases s.len(),
{
    if s.len() > 0 && s[0] != c && s[0] != d {
        let t = s.skip(1);
        lemma_first_of_is_first(t, c, d);
        assert forall|i: int| 0 <= i < first_of(s, c, d) implies (#[trigger] s[i]) != c && s[i]
            != d by {
            if i > 0 {
                assert(t[i - 1] == s[i]);
            }
        }
        if first_of(t, c, d) < t.len() {
            assert(t[first_of(t, c, d) as int] == s[first_of(s, c, d) as int]);
        }
    }
}

/// A text of four parts, told as a first part and the rest.
proof fn lemma_four_parts(a: Seq<char>, b: Seq<char>, c: Seq<char>, d: Seq<char>)
    ensures
        a + b + c + d == a + ((b + c) + d),
{
    assert(a + b + c + d =~= a + ((b + c) + d));
}

proof fn lemma_signed_text(sign: Seq<char>, body: Seq<char>)
    requires
        sign == Seq::<char>::empty() || sign == seq!['+'] || sign == seq!['-'],
        body.len() > 0,
        body[0] != '+',
        body[0] != '-',
    ensures
        unsigned(sign + body) == body,
        minus(sign + body) <==> sign == seq!['-'],
{
    let s = sign + body;
    assert(seq!['-'][0] == '-');
    assert(seq!['+'][0] == '+');
    if sign.len() == 0 {
        assert(s =~= body);
        assert(sign != seq!['-']);
    } else {
        assert(s[0] == sign[0]);
        assert(s.skip(1) =~= body);
    }
}

proof fn lemma_mantissa_text(
    whole: Seq<char>,
    behind: Seq<char>,
    fraction: Seq<char>,
    power: Seq<char>,
)
    requires
        all_digits(whole),
        all_digits(fraction),
        whole.len() + fraction.len() > 0,
        behind == seq!['.'] + fraction || (behind.len() == 0 && fraction.len() == 0),
        power.len() == 0 || power[0] == 'e' || power[0] == 'E',
    ensures
        ({
            let body = (whole + behind) + power;
            &&& body.len() > 0
            &&& is_digit(body[0]) || body[0] == '.'
            &&& first_of(body, 'e', 'E') == (whole + behind).len()
            &&& mantissa(body) == whole + behind
            &&& whole_part(whole + behind) == whole
            &&& fraction_part(whole + behind) == fraction
        }),
{
    let m = whole + behind;
    let body = m + power;
    if whole.len() > 0 {
        assert(is_digit(whole[0]));
    }
    assert forall|i: int| 0 <= i < m.len() implies (#[trigger] m[i]) != 'e' && m[i] != 'E' by {
        if i < whole.len() {
            assert(is_digit(whole[i]));
        } else if i > whole.len() {
            assert(is_digit(fraction[i - whole.len() - 1]));
        }
    }
    lemma_first_of_at(m, power, 'e', 'E');
    assert(mantissa(body) =~= m);
    assert forall|i: int| 0 <= i < whole.len() implies (#[trigger] whole[i]) != '.' by {
        assert(is_digit(whole[i]));
    }
    lemma_first_of_at(whole, behind, '.', '.');
    assert(whole_part(m) =~= whole);
    assert(fraction_part(m) =~= fraction);
}

proof fn lemma_exponent_text(
    m: Seq<char>,
    letter: char,
    exponent_sign: Seq<char>,
    exponent: Seq<char>,
)
    requires
        exponent_sign == Seq::<char>::empty() || exponent_sign == seq!['+'] || exponent_sign
            == seq!['-'],
        all_digits(exponent),
        exponent.len() > 0,
        first_of(m + (seq![letter] + exponent_sign + exponent), 'e', 'E') == m.len(),
    ensures
        written_exponent(m + (seq![letter] + exponent_sign + exponent)) == Some(
            if exponent_sign == seq!['-'] {
                -(digits_value(exponent) as int)
            } else {
                digits_value(exponent) as int
            },
        ),
{
    let body = m + (seq![letter] + exponent_sign + exponent);
    assert(is_digit(exponent[0]));
    assert(body.skip(m.len() as int + 1) =~= exponent_sign + exponent);
    lemma_signed_text(exponent_sign, exponent);
}

proof fn lemma_no_word(body: Seq<char>)
    requires
        body.len() > 0,
        is_digit(body[0]) || body[0] == '.',
    ensures
        !spells(body, seq!['n', 'a', 'n']),
        !spells(body, seq!['i', 'n', 'f']),
        !spells(body, seq!['i', 'n', 'f', 'i', 'n', 'i', 't', 'y']),
{
    assert(lower(body[0]) == body[0]);
}

proof fn lemma_decimal_text(
    sign: Seq<char>,
    whole: Seq<char>,
    behind: Seq<char>,
    fraction: Seq<char>,
    power: Seq<char>,
)
    requires
        sign == Seq::<char>::empty() || sign == seq!['+'] || sign == seq!['-'],
        all_digits(whole),
        all_digits(fraction),
        whole.len() + fraction.len() > 0,
        behind == seq!['.'] + fraction || (behind.len() == 0 && fraction.len() == 0),
        power.len() == 0 || power[0] == 'e' || power[0] == 'E',
        written_exponent((whole + behind) + power) is Some,
    ensures
        parse_numeral(sign + whole + behind + power) == Some(
            Numeral::Finite {
                negative: sign == seq!['-'],
                digits: digits_value(whole + fraction),
                scale: written_exponent((whole + behind) + power)->0 - fraction.len(),
            },
        ),
{
    let body = (whole + behind) + power;
    lemma_mantissa_text(whole, behind, fraction, power);
    lemma_four_parts(sign, whole, behind, power);
    lemma_signed_text(sign, body);
    lemma_no_word(body);
}

/// How a decimal is read: a sign or none, digits with or without a point among or around
/// them, and behind these an exponent or none: an `e` or `E`, a sign or none, and digits.
/// The digits behind the point lower the power of ten by their number, the exponent changes
/// it by its value.
pub proof fn decimals_are_read(
    sign: Seq<char>,
    whole: Seq<char>,
    point: bool,
    fraction: Seq<char>,
    letter: char,
    exponent_sign: Seq<char>,
    exponent: Seq<char>,
)
    requires
        sign == Seq::<char>::empty() || sign == seq!['+'] || sign == seq!['-'],
        forall|i: int| 0 <= i < whole.len() ==> '0' <= #[trigger] whole[i] <= '9',
        forall|i: int| 0 <= i < fraction.len() ==> '0' <= #[trigger] fraction[i] <= '9',
        whole.len() + fraction.len() > 0,
        fraction.len() > 0 ==> point,
        letter == 'e' || letter == 'E',
        exponent_sign == Seq::<char>::empty() || exponent_sign == seq!['+'] || exponent_sign
            == seq!['-'],
        forall|i: int| 0 <= i < exponent.len() ==> '0' <= #[trigger] exponent[i] <= '9',
    ensures
        parse_numeral(
            sign + whole + (if point {
                seq!['.'] + fraction
            } else {
                Seq::empty()
            }) + (if exponent.len() > 0 {
                seq![letter] + exponent_sign + exponent
            } else {
                Seq::empty()
            }),
        ) == Some(
            Numeral::Finite {
                negative: sign == seq!['-'],
                digits: digits_value(whole + fraction),
                scale: (if exponent_sign == seq!['-'] {
                    -(digits_value(exponent) as int)
                } else {
                    digits_value(exponent) as int
                }) - fraction.len(),
            },
        ),
{
    let behind = if point {
        seq!['.'] + fraction
    } else {
        Seq::empty()
    };
    let power = if exponent.len() > 0 {
        seq![letter] + exponent_sign + exponent
    } else {
        Seq::empty()
    };
    let m = whole + behind;
    assert(all_digits(whole) && all_digits(fraction) && all_digits(exponent));
    lemma_mantissa_text(whole, behind, fraction, power);
    if exponent.len() > 0 {
        lemma_exponent_text(m, letter, exponent_sign, exponent);
    } else {
        assert(digits_value(exponent) == 0);
    }
    lemma_decimal_text(sign, whole, behind, fraction, power);
}

/// Nothing else is read as a decimal: the text has the parts that
/// [`decimals_are_read`] speaks of.
pub proof fn only_decimals_are_read(s: Seq<char>) -> (r: (
    Seq<char>,
    Seq<char>,
    bool,
    Seq<char>,
    char,
    Seq<char>,
    Seq<char>,
))
    requires
        parse_numeral(s) is Some,
        parse_numeral(s)->0 is Finite,
    ensures
        ({
            let (sign, whole, point, fraction, letter, exponent_sign, exponent) = r;
            &&& s == sign + whole + (if point {
                seq!['.'] + fraction
            } else {
                Seq::empty()
            }) + (if exponent.len() > 0 {
                seq![letter] + exponent_sign + exponent
            } else {
                Seq::empty()
            })
            &&& sign == Seq::<char>::empty() || sign == seq!['+'] || sign == seq!['-']
            &&& forall|i: int| 0 <= i < whole.len() ==> '0' <= #[trigger] whole[i] <= '9'
            &&& forall|i: int| 0 <= i < fraction.len() ==> '0' <= #[trigger] fraction[i] <= '9'
            &&& whole.len() + fraction.len() > 0
            &&& fraction.len() > 0 ==> point
            &&& letter == 'e' || letter == 'E'
            &&& exponent_sign == Seq::<char>::empty() || exponent_sign == seq!['+']
                || exponent_sign == seq!['-']
            &&& forall|i: int| 0 <= i < exponent.len() ==> '0' <= #[trigger] exponent[i] <= '9'
        }),
{
    let body = unsigned(s);
    let sign = lemma_split_sign(s);
    let m = mantissa(body);
    let (point, behind) = lemma_split_mantissa(m);
    let (letter, exponent_sign, exponent, power) = lemma_split_exponent(body);
    let whole = whole_part(m);
    let fraction = fraction_part(m);
    lemma_all_digits(whole);
    lemma_all_digits(fraction);
    lemma_four_parts(sign, whole, behind, power);
    (sign, whole, point, fraction, letter, exponent_sign, exponent)
}

proof fn lemma_split_sign(s: Seq<char>) -> (sign: Seq<char>)
    ensures
        sign == Seq::<char>::empty() || sign == seq!['+'] || sign == seq!['-'],
        s == sign + unsigned(s),
{
    if signed(s) {
        let sign = seq![s[0]];
        assert(s =~= sign + unsigned(s));
        sign
    } else {
        assert(s =~= Seq::<char>::empty() + s);
        Seq::empty()
    }
}

proof fn lemma_split_mantissa(m: Seq<char>) -> (r: (bool, Seq<char>))
    ensures
        r.1 == (if r.0 {
            seq!['.'] + fraction_part(m)
        } else {
            Seq::empty()
        }),
        m == whole_part(m) + r.1,
        fraction_part(m).len() > 0 ==> r.0,
{
    lemma_first_of_is_first(m, '.', '.');
    if first_of(m, '.', '.') < m.len() {
        let behind = seq!['.'] + fraction_part(m);
        assert(m =~= whole_part(m) + behind);
        (true, behind)
    } else {
        assert(m =~= whole_part(m) + Seq::<char>::empty());
        (false, Seq::empty())
    }
}

proof fn lemma_split_exponent(body: Seq<char>) -> (r: (char, Seq<char>, Seq<char>, Seq<char>))
    requires
        written_exponent(body) is Some,
    ensures
        ({
            let (letter, exponent_sign, exponent, power) = r;
            &&& letter == 'e' || letter == 'E'
            &&& exponent_sign == Seq::<char>::empty() || exponent_sign == seq!['+']
                || exponent_sign == seq!['-']
            &&& forall|i: int| 0 <= i < exponent.len() ==> '0' <= #[trigger] exponent[i] <= '9'
            &&& power == (if exponent.len() > 0 {
                seq![letter] + exponent_sign + exponent
            } else {
                Seq::empty()
            })
            &&& body == mantissa(body) + power
        }),
{
    let e = first_of(body, 'e', 'E') as int;
    lemma_first_of_is_first(body, 'e', 'E');
    if e < body.len() {
        let x = body.skip(e + 1);
        let exponent = unsigned(x);
        let exponent_sign = lemma_split_sign(x);
        lemma_all_digits(exponent);
        let power = seq![body[e]] + exponent_sign + exponent;
        assert(power =~= seq![body[e]] + x);
        assert(body =~= mantissa(body) + power);
        (body[e], exponent_sign, exponent, power)
    } else {
        assert(body =~= mantissa(body) + Seq::<char>::empty());
        ('e', Seq::empty(), Seq::empty(), Seq::empty())
    }
}

proof fn lemma_all_digits(s: Seq<char>)
    requires
        all_digits(s),
    ensures
        forall|i: int| 0 <= i < s.len() ==> '0' <= #[trigger] s[i] <= '9',
{
    assert forall|i: int| 0 <= i < s.len() implies '0' <= #[trigger] s[i] <= '9' by {
        assert(is_digit(s[i]));
    }
}

/// `nan`, `inf` and `infinity` are read in any mix of cases, behind a sign or none; the minus
/// sign makes the latter two negative.
pub proof fn words_are_read(s: Seq<char>)
    ensures
        ({
            let small = |i: int| if 'A' <= s[i] <= 'Z' {
                s[i] as int + 32
            } else {
                s[i] as int
            };
            let at: int = if s.len() > 0 && (s[0] == '+' || s[0] == '-') {
                1
            } else {
                0
            };
            let negative = s.len() > 0 && s[0] == '-';
            let nan = s.len() == at + 3 && small(at) == 'n' as int && small(at + 1) == 'a' as int
                && small(at + 2) == 'n' as int;
            let inf = s.len() >= at + 3 && small(at) == 'i' as int && small(at + 1) == 'n' as int
                && small(at + 2) == 'f' as int && (s.len() == at + 3 || (s.len() == at + 8 && small(
                at + 3,
            ) == 'i' as int && small(at + 4) == 'n' as int && small(at + 5) == 'i' as int && small(
                at + 6,
            ) == 't' as int && small(at + 7) == 'y' as int));
            &&& nan <==> parse_numeral(s) == Some(Numeral::Nan)
            &&& inf <==> parse_numeral(s) == Some(Numeral::Infinite { negative })
            &&& inf <==> parse_numeral(s) is Some && parse_numeral(s)->0 is Infinite
        }),
{
    let body = unsigned(s);
    let at: int = if signed(s) {
        1
    } else {
        0
    };
    assert(body.len() == s.len() - at);
    assert forall|i: int| 0 <= i < body.len() implies #[trigger] body[i] == s[at + i] by {}
    let nan = seq!['n', 'a', 'n'];
    let inf = seq!['i', 'n', 'f'];
    let infinity = seq!['i', 'n', 'f', 'i', 'n', 'i', 't', 'y'];
    if body.len() >= 3 {
        assert(body[0] == s[at] && body[1] == s[at + 1] && body[2] == s[at + 2]);
    }
    if body.len() >= 8 {
        assert(body[3] == s[at + 3] && body[4] == s[at + 4] && body[5] == s[at + 5] && body[6]
            == s[at + 6] && body[7] == s[at + 7]);
    }
    assert(spells(body, nan) <==> body.len() == 3 && lower(body[0]) == 'n' && lower(body[1]) == 'a'
        && lower(body[2]) == 'n');
    assert(spells(body, inf) <==> body.len() == 3 && lower(body[0]) == 'i' && lower(body[1]) == 'n'
        && lower(body[2]) == 'f');
    assert(spells(body, infinity) <==> body.len() == 8 && lower(body[0]) == 'i' && lower(body[1])
        == 'n' && lower(body[2]) == 'f' && lower(body[3]) == 'i' && lower(body[4]) == 'n' && lower(
        body[5],
    ) == 'i' && lower(body[6]) == 't' && lower(body[7]) == 'y');
}

/// A number times a factor, in bytes: not a number and everything below zero give none, and
/// what is too large for 64 bits gives the largest number of 64 bits. A decimal gives its
/// exact product without a fraction, but for a rounding of the decimal by one part in 2^53.
pub proof fn numbers_become_bytes(digits: nat, scale: int, factor: nat)
    ensures
        numeral_times(Numeral::Nan, factor) == 0,
        numeral_times(Numeral::Infinite { negative: false }, factor) == 0xffff_ffff_ffff_ffff,
        numeral_times(Numeral::Infinite { negative: true }, factor) == 0,
        numeral_times(Numeral::Finite { negative: true, digits, scale }, factor) == 0,
        ({
            let t: nat = 0x20_0000_0000_0000;
            let up: nat = if scale > 0 {
                pow(10, scale as nat) as nat
            } else {
                1
            };
            let down: nat = if scale < 0 {
                pow(10, (-scale) as nat) as nat
            } else {
                1
            };
            let r = numeral_times(Numeral::Finite { negative: false, digits, scale }, factor);
            &&& r <= 0xffff_ffff_ffff_ffff
            &&& (r * t) * down <= ((digits * up) * factor) * (t + 1)
            &&& r < 0xffff_ffff_ffff_ffff ==> ((r + 1) * t) * down >= ((digits * up) * factor) * (t
                - 1)
        }),
{
    let t: nat = 0x20_0000_0000_0000;
    let a = (digits * pow(10, positive(scale))) as nat;
    let b = pow(10, positive(-scale)) as nat;
    lemma_pow_positive(10, positive(scale));
    lemma_pow_positive(10, positive(-scale));
    lemma_pow0(10);
    assert(digits * pow(10, positive(scale)) >= 0) by (nonlinear_arith)
        requires
            digits >= 0,
            pow(10, positive(scale)) > 0,
    ;
    let (p, q) = nearest(a, b);
    nearest_close(a, b);
    nearest_times_drops_fraction(a, b, factor);
    lemma2_to64_rest();
    let d = decimal_times(digits, scale, factor);
    let r = numeral_times(Numeral::Finite { negative: false, digits, scale }, factor);
    let o = t + 1;
    assert(((d * t) * b) * q <= ((a * factor) * o) * q) by {
        let tb = t * b;
        assert((d * q) * tb <= (p * factor) * tb) by (nonlinear_arith)
            requires
                d * q <= p * factor,
                tb >= 0,
        ;
        assert((p * b * t) * factor <= (a * q * o) * factor) by (nonlinear_arith)
            requires
                p * b * t <= a * q * o,
                factor >= 0,
        ;
        assert((d * q) * (t * b) == ((d * t) * b) * q) by (nonlinear_arith);
        assert((p * factor) * (t * b) == (p * b * t) * factor) by (nonlinear_arith);
        assert((a * q * o) * factor == ((a * factor) * o) * q) by (nonlinear_arith);
    }
    assert((d * t) * b <= (a * factor) * o) by (nonlinear_arith)
        requires
            ((d * t) * b) * q <= ((a * factor) * o) * q,
            q > 0,
    ;
    let u = (t - 1) as nat;
    assert((((d + 1) * t) * b) * q >= ((a * factor) * u) * q) by {
        let v = d + 1;
        let tb = t * b;
        assert((v * q) * tb >= (p * factor) * tb) by (nonlinear_arith)
            requires
                p * factor <= v * q,
                tb >= 0,
        ;
        assert((p * b * t) * factor >= (a * q * u) * factor) by (nonlinear_arith)
            requires
                p * b * t >= a * q * u,
                factor >= 0,
        ;
        assert((v * q) * (t * b) == ((v * t) * b) * q) by (nonlinear_arith);
        assert((p * factor) * (t * b) == (p * b * t) * factor) by (nonlinear_arith);
        assert((a * q * u) * factor == ((a * factor) * u) * q) by (nonlinear_arith);
    }
    assert(((d + 1) * t) * b >= (a * factor) * u) by (nonlinear_arith)
        requires
            (((d + 1) * t) * b) * q >= ((a * factor) * u) * q,
            q > 0,
    ;
    assert((r * t) * b <= (d * t) * b) by (nonlinear_arith)
        requires
            r <= d,
    ;
}

/// A decimal is rounded once, to the nearest number `m * 2^e` of 53 significant bits, and to
/// an even `m` where two are equally near; the fraction of its product with the factor is
/// dropped, and what exceeds 64 bits becomes the largest number of 64 bits.
///
/// The result holds `e` and `m`.
pub proof fn decimals_are_rounded_once(digits: nat, scale: int, factor: nat) -> (r: (int, nat))
    requires
        digits > 0,
    ensures
        ({
            let (e, m) = r;
            let up: nat = if e > 0 { pow2(e as nat) } else { 1 };
            let down: nat = if e < 0 { pow2((-e) as nat) } else { 1 };
            let a: nat = if scale > 0 { (digits * pow(10, scale as nat)) as nat } else { digits };
            let b: nat = if scale < 0 { pow(10, (-scale) as nat) as nat } else { 1 };
            let v = numeral_times(Numeral::Finite { negative: false, digits, scale }, factor);
            &&& pow2(52) <= m <= pow2(53)
            &&& (b * up) * pow2(52) <= a * down < (b * up) * pow2(53)
            &&& 2 * (m * (b * up)) <= 2 * (a * down) + b * up
            &&& 2 * (a * down) <= 2 * (m * (b * up)) + b * up
            &&& (2 * (m * (b * up)) == 2 * (a * down) + b * up || 2 * (a * down) == 2 * (m * (b
                * up)) + b * up ==> m % 2 == 0)
            &&& v <= 0xffff_ffff_ffff_ffff
            &&& v * down <= (m * up) * factor
            &&& v < 0xffff_ffff_ffff_ffff ==> (m * up) * factor < (v + 1) * down
        }),
{
    let a: nat = if scale > 0 { (digits * pow(10, scale as nat)) as nat } else { digits };
    let b: nat = if scale < 0 { pow(10, (-scale) as nat) as nat } else { 1 };
    lemma_pow0(10);
    lemma_pow_positive(10, positive(scale));
    lemma_pow_positive(10, positive(-scale));
    assert(digits * pow(10, positive(scale)) > 0) by (nonlinear_arith)
        requires
            digits > 0,
            pow(10, positive(scale)) > 0,
    ;
    assert(digits * 1 == digits);
    let (e, m) = nearest_is_correctly_rounded(a, b);
    nearest_times_drops_fraction(a, b, factor);
    let d = decimal_times(digits, scale, factor);
    let v = numeral_times(Numeral::Finite { negative: false, digits, scale }, factor);
    let q = nearest(a, b).1;
    assert(v * q <= d * q) by (nonlinear_arith)
        requires
            v <= d,
    ;
    (e, m)
}

} // verus!
