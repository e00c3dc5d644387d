//! Decimal numbers and separators in text.
use vstd::arithmetic::power::{lemma_pow0, pow};
use vstd::prelude::*;
use vstd::string::*;

verus! {

/// Whether `c` is one of the ten ASCII digits.
pub open spec fn is_digit(c: char) -> bool {
    '0' <= c <= '9'
}

/// The number that an ASCII digit stands for.
pub open spec fn digit_value(c: char) -> nat {
    (c as int - '0' as int) as nat
}

/// Whether `s` is made of ASCII digits alone.
pub open spec fn all_digits(s: Seq<char>) -> bool {
    forall|i: int| 0 <= i < s.len() ==> is_digit(#[trigger] s[i])
}

/// The number that a sequence of decimal digits stands for, most significant first.
pub open spec fn digits_value(s: Seq<char>) -> nat
    decreases s.len(),
{
    if s.len() == 0 {
        0
    } else {
        digits_value(s.drop_last()) * 10 + digit_value(s.last())
    }
}

/// The decimal digits of `n` without leading zeros.
pub open spec fn decimal_nat(n: nat) -> Seq<char>
    decreases n,
{
    if n < 10 {
        seq![digit_char(n)]
    } else {
        decimal_nat(n / 10).push(digit_char(n % 10))
    }
}

/// The digit that stands for `d`.
pub open spec fn digit_char(d: nat) -> char {
    ('0' as int + d) as char
}

/// The decimal form of `v`: a minus sign if negative, then the digits.
pub open spec fn decimal(v: int) -> Seq<char> {
    if v < 0 {
        seq!['-'] + decimal_nat((-v) as nat)
    } else {
        decimal_nat(v as nat)
    }
}

/// The 32-bit integer that `s` writes: an optional sign, then one or more
/// digits, with a value in range. `None` for every other text.
pub open spec fn parse_i32_spec(s: Seq<char>) -> Option<i32> {
    let signed = s.len() > 0 && (s[0] == '-' || s[0] == '+');
    let body = if signed {
        s.skip(1)
    } else {
        s
    };
    let value = if signed && s[0] == '-' {
        -(digits_value(body) as int)
    } else {
        digits_value(body) as int
    };
    if body.len() > 0 && all_digits(body) && i32::MIN <= value <= i32::MAX {
        Some(value as i32)
    } else {
        None
    }
}

/// The pieces of `s` between occurrences of `sep`.
pub open spec fn split_on(s: Seq<char>, sep: char) -> Seq<Seq<char>>
    decreases s.len(),
{
    if s.len() == 0 {
        seq![Seq::empty()]
    } else {
        let head = split_on(s.drop_last(), sep);
        if s.last() == sep {
            head.push(Seq::empty())
        } else {
            head.update(head.len() - 1, head.last().push(s.last()))
        }
    }
}

/// The characters of `s`.
pub fn chars_of(s: &str) -> (r: Vec<char>)
    ensures
        r@ == s@,
{
    let mut r: Vec<char> = Vec::new();
    for c in it: s.chars()
        invariant
            r.len() == it.index(),
            forall|i: int| 0 <= i < r.len() ==> r[i] == it.seq()[i],
            it.seq() == s@,
    {
        r.push(c);
    }
    assert(r@ =~= s@);
    r
}

proof fn lemma_digits_value_push(s: Seq<char>, c: char)
    ensures
        digits_value(s.push(c)) == digits_value(s) * 10 + digit_value(c),
{
    assert(s.push(c).drop_last() =~= s);
}

/// Appends the decimal digits of `n`.
pub fn append_nat(out: &mut String, n: u32)
    ensures
        final(out)@ == old(out)@ + decimal_nat(n as nat),
    decreases n,
{
    if n >= 10 {
        append_nat(out, n / 10);
    }
    let ghost before = out@;
    append_digit(out, n % 10);
    proof {
        let d = digit_char(n as nat % 10);
        if n >= 10 {
            assert(old(out)@ + decimal_nat(n as nat / 10) + seq![d] =~= old(out)@ + decimal_nat(
                n as nat / 10,
            ).push(d));
        }
    }
}

fn append_digit(out: &mut String, d: u32)
    requires
        d < 10,
    ensures
        final(out)@ == old(out)@ + seq![digit_char(d as nat)],
{
    proof {
        reveal_strlit("0");
        reveal_strlit("1");
        reveal_strlit("2");
        reveal_strlit("3");
        reveal_strlit("4");
        reveal_strlit("5");
        reveal_strlit("6");
        reveal_strlit("7");
        reveal_strlit("8");
        reveal_strlit("9");
    }
    let text: &str = match d {
        0 => "0",
        1 => "1",
        2 => "2",
        3 => "3",
        4 => "4",
        5 => "5",
        6 => "6",
        7 => "7",
        8 => "8",
        _ => "9",
    };
    assert(text@ =~= seq![digit_char(d as nat)]);
    out.append(text);
}

/// Appends the decimal form of `v`.
pub fn append_i32(out: &mut String, v: i32)
    ensures
        final(out)@ == old(out)@ + decimal(v as int),
{
    if v < 0 {
        proof {
            reveal_strlit("-");
        }
        out.append("-");
        assert("-"@ =~= seq!['-']);
        let magnitude: u32 = (-(v as i64)) as u32;
        append_nat(out, magnitude);
        assert(old(out)@ + seq!['-'] + decimal_nat(magnitude as nat) =~= old(out)@ + decimal(
            v as int,
        ));
    } else {
        append_nat(out, v as u32);
    }
}

/// Reads a 32-bit integer as `str::parse` does.
pub fn parse_i32(s: &Vec<char>) -> (r: Option<i32>)
    ensures
        r == parse_i32_spec(s@),
{
    let signed: bool = s.len() > 0 && (s[0] == '-' || s[0] == '+');
    let negative: bool = signed && s[0] == '-';
    let start: usize = if signed {
        1
    } else {
        0
    };
    let ghost body = if signed {
        s@.skip(1)
    } else {
        s@
    };
    assert(body =~= s@.skip(start as int));
    if s.len() == start {
        return None;
    }
    let mut value: i64 = 0;
    let mut i: usize = start;
    while i < s.len()
        invariant
            start <= i <= s.len(),
            signed == (s.len() > 0 && (s[0] == '-' || s[0] == '+')),
            body == (if signed {
                s@.skip(1)
            } else {
                s@
            }),
            body == s@.skip(start as int),
            all_digits(body.take(i - start)),
            0 <= value <= 0x8000_0001,
            value <= 0x8000_0000 ==> digits_value(body.take(i - start)) == value,
            value > 0x8000_0000 ==> digits_value(body.take(i - start)) > 0x8000_0000,
        decreases s.len() - i,
    {
        let c: char = s[i];
        let ghost done = body.take(i - start);
        assert(body.take(i + 1 - start) =~= done.push(c));
        if !('0' <= c && c <= '9') {
            assert(!is_digit(body[i - start]));
            return None;
        }
        proof {
            lemma_digits_value_push(done, c);
        }
        let d: i64 = (c as u32 - '0' as u32) as i64;
        value = if value > 0x8000_0000 {
            0x8000_0001
        } else {
            let next: i64 = value * 10 + d;
            if next > 0x8000_0000 {
                0x8000_0001
            } else {
                next
            }
        };
        i = i + 1;
    }
    assert(body.take(s.len() - start) =~= body);
    if negative {
        if value <= 0x8000_0000 {
            Some((-value) as i32)
        } else {
            None
        }
    } else if value <= 0x7fff_ffff {
        Some(value as i32)
    } else {
        None
    }
}

/// Splits `s` at every `sep`.
pub fn split(s: &Vec<char>, sep: char) -> (r: Vec<Vec<char>>)
    ensures
        r.len() == split_on(s@, sep).len(),
        forall|i: int| 0 <= i < r.len() ==> (#[trigger] r[i])@ == split_on(s@, sep)[i],
{
    let mut done: Vec<Vec<char>> = Vec::new();
    let mut piece: Vec<char> = Vec::new();
    let mut i: usize = 0;
    assert(s@.take(0) =~= Seq::empty());
    while i < s.len()
        invariant
            0 <= i <= s.len(),
            split_on(s@.take(i as int), sep).len() == done.len() + 1,
            split_on(s@.take(i as int), sep).last() == piece@,
            forall|j: int|
                0 <= j < done.len() ==> (#[trigger] done[j])@ == split_on(s@.take(i as int), sep)[j],
        decreases s.len() - i,
    {
        let ghost next = s@.take(i + 1);
        assert(next.drop_last() =~= s@.take(i as int));
        assert(next.last() == s[i as int]);
        if s[i] == sep {
            done.push(piece);
            piece = Vec::new();
            assert(piece@ =~= Seq::<char>::empty());
        } else {
            piece.push(s[i]);
        }
        i = i + 1;
    }
    assert(s@.take(s.len() as int) =~= s@);
    done.push(piece);
    done
}

/// The digits of a number stand for that number.
pub proof fn lemma_decimal_nat(n: nat)
    ensures
        all_digits(decimal_nat(n)),
        digits_value(decimal_nat(n)) == n,
        decimal_nat(n).len() > 0,
    decreases n,
{
    if n < 10 {
        assert(decimal_nat(n) =~= Seq::<char>::empty().push(digit_char(n)));
        lemma_digits_value_push(Seq::empty(), digit_char(n));
    } else {
        lemma_decimal_nat(n / 10);
        lemma_digits_value_push(decimal_nat(n / 10), digit_char(n % 10));
    }
}

/// Reading a 32-bit integer gives back the one that was written.
pub proof fn lemma_parse_decimal(v: i32)
    ensures
        parse_i32_spec(decimal(v as int)) == Some(v),
        !decimal(v as int).contains('_'),
{
    let n: nat = if v < 0 {
        (-v) as nat
    } else {
        v as nat
    };
    lemma_decimal_nat(n);
    let s = decimal(v as int);
    if v < 0 {
        assert(s.skip(1) =~= decimal_nat(n));
    } else {
        assert(is_digit(s[0]));
    }
    assert forall|i: int| 0 <= i < s.len() implies s[i] != '_' by {
        if v < 0 && i > 0 {
            assert(s[i] == decimal_nat(n)[i - 1]);
        }
    }
}

/// A text without separators is a single piece.
pub proof fn lemma_split_plain(s: Seq<char>, sep: char)
    requires
        !s.contains(sep),
    ensures
        split_on(s, sep) == seq![s],
    decreases s.len(),
{
    if s.len() > 0 {
        assert(s.last() == s[s.len() - 1]);
        assert(!s.drop_last().contains(sep)) by {
            assert forall|i: int| 0 <= i < s.len() - 1 implies s.drop_last()[i] != sep by {
                assert(s[i] == s.drop_last()[i]);
            }
        }
        lemma_split_plain(s.drop_last(), sep);
        assert(s.drop_last().push(s.last()) =~= s);
        assert(split_on(s, sep) =~= seq![s]);
    } else {
        assert(s =~= Seq::<char>::empty());
        assert(split_on(s, sep) =~= seq![s]);
    }
}

/// Joining by a separator undoes the split, for a last piece that holds none.
pub proof fn lemma_split_join(a: Seq<char>, sep: char, b: Seq<char>)
    requires
        !b.contains(sep),
    ensures
        split_on(a.push(sep) + b, sep) == split_on(a, sep).push(b),
    decreases b.len(),
{
    let s = a.push(sep) + b;
    lemma_split_nonempty(a, sep);
    if b.len() == 0 {
        assert(s =~= a.push(sep));
        assert(s.drop_last() =~= a);
        assert(b =~= Seq::<char>::empty());
    } else {
        assert(b.last() == b[b.len() - 1]);
        assert(!b.drop_last().contains(sep)) by {
            assert forall|i: int| 0 <= i < b.len() - 1 implies b.drop_last()[i] != sep by {
                assert(b[i] == b.drop_last()[i]);
            }
        }
        lemma_split_join(a, sep, b.drop_last());
        assert(s.drop_last() =~= a.push(sep) + b.drop_last());
        assert(b.drop_last().push(b.last()) =~= b);
        assert(split_on(s, sep) =~= split_on(a, sep).push(b));
    }
}

proof fn lemma_split_nonempty(s: Seq<char>, sep: char)
    ensures
        split_on(s, sep).len() > 0,
    decreases s.len(),
{
    if s.len() > 0 {
        lemma_split_nonempty(s.drop_last(), sep);
    }
}

/// Digits stand for their number in the decimal system: those before others count ten times
/// as much for each of these.
pub proof fn digits_are_positional(a: Seq<char>, b: Seq<char>, c: char)
    requires
        is_digit(c),
    ensures
        digits_value(Seq::empty()) == 0,
        digits_value(seq![c]) == c as int - 48,
        digits_value(a + b) == digits_value(a) * pow(10, b.len()) + digits_value(b),
    decreases b.len(),
{
    assert(digits_value(Seq::empty()) == 0);
    assert(seq![c].drop_last() =~= Seq::<char>::empty());
    lemma_pow0(10);
    if b.len() == 0 {
        assert(a + b =~= a);
    } else {
        let h = b.drop_last();
        digits_are_positional(a, h, c);
        assert((a + b).drop_last() =~= a + h);
        assert((a + b).last() == b.last());
        reveal(pow);
        assert(pow(10, b.len()) == 10 * pow(10, h.len()));
        assert((digits_value(a) * pow(10, h.len())) * 10 == digits_value(a) * (10 * pow(
            10,
            h.len(),
        ))) by (nonlinear_arith);
    }
}

/// A decimal form has no leading zeros, but for zero itself, and a minus sign exactly if the
/// number is negative; its digits stand for the number.
pub proof fn decimal_form(v: int)
    ensures
        ({
            let s = decimal(v);
            let at: int = if v < 0 {
                1
            } else {
                0
            };
            &&& s.len() > at
            &&& s[0] == '-' <==> v < 0
            &&& forall|i: int| at <= i < s.len() ==> '0' <= #[trigger] s[i] <= '9'
            &&& s[at] == '0' ==> v == 0 && s.len() == 1
            &&& digits_value(s.skip(at)) == (if v < 0 {
                -v
            } else {
                v
            })
        }),
{
    let n = if v < 0 {
        (-v) as nat
    } else {
        v as nat
    };
    lemma_decimal_nat(n);
    lemma_no_leading_zero(n);
    let s = decimal(v);
    let at: int = if v < 0 {
        1
    } else {
        0
    };
    assert(s.skip(at) =~= decimal_nat(n));
    assert forall|i: int| at <= i < s.len() implies '0' <= #[trigger] s[i] <= '9' by {
        assert(is_digit(decimal_nat(n)[i - at]));
    }
}

proof fn lemma_no_leading_zero(n: nat)
    ensures
        decimal_nat(n).len() > 0,
        decimal_nat(n)[0] == '0' ==> n == 0 && decimal_nat(n).len() == 1,
    decreases n,
{
    if n >= 10 {
        lemma_no_leading_zero(n / 10);
    }
}

/// A text of digits behind an optional sign is read as the number that they stand for if
/// that has 32 bits.
pub proof fn integers_are_read(digits: Seq<char>)
    requires
        digits.len() > 0,
        forall|i: int| 0 <= i < digits.len() ==> '0' <= #[trigger] digits[i] <= '9',
    ensures
        parse_i32_spec(digits) == (if digits_value(digits) <= 0x7fff_ffff {
            Some(digits_value(digits) as i32)
        } else {
            None
        }),
        parse_i32_spec(seq!['+'] + digits) == (if digits_value(digits) <= 0x7fff_ffff {
            Some(digits_value(digits) as i32)
        } else {
            None
        }),
        parse_i32_spec(seq!['-'] + digits) == (if digits_value(digits) <= 0x8000_0000 {
            Some((-digits_value(digits)) as i32)
        } else {
            None
        }),
{
    assert(all_digits(digits)) by {
        assert forall|i: int| 0 <= i < digits.len() implies is_digit(#[trigger] digits[i]) by {
            assert('0' <= digits[i] <= '9');
        }
    }
    assert((seq!['+'] + digits).skip(1) =~= digits);
    assert((seq!['-'] + digits).skip(1) =~= digits);
    assert('0' <= digits[0] <= '9');
}

/// Nothing else is read as a number: behind a sign, if there is one, stands at least one
/// character, and all of them are digits.
pub proof fn only_integers_are_read(s: Seq<char>)
    requires
        parse_i32_spec(s) is Some,
    ensures
        s.len() > 0,
        s.len() == 1 ==> '0' <= s[0] <= '9',
        s[0] == '+' || s[0] == '-' || '0' <= s[0] <= '9',
        forall|i: int| 1 <= i < s.len() ==> '0' <= #[trigger] s[i] <= '9',
{
    let signed = s.len() > 0 && (s[0] == '-' || s[0] == '+');
    if signed {
        assert forall|i: int| 1 <= i < s.len() implies '0' <= #[trigger] s[i] <= '9' by {
            assert(is_digit(s.skip(1)[i - 1]));
        }
    } else {
        assert(is_digit(s[0]));
        assert forall|i: int| 1 <= i < s.len() implies '0' <= #[trigger] s[i] <= '9' by {
            assert(is_digit(s[i]));
        }
    }
}

/// A text is split at every separator and nowhere else: no piece holds one, and the pieces
/// with a separator between any two make up the text.
pub proof fn split_gives_pieces(s: Seq<char>, sep: char)
    ensures
        split_on(s, sep).len() > 0,
        forall|i: int| 0 <= i < split_on(s, sep).len() ==> !(#[trigger] split_on(s, sep)[i]).contains(sep),
        split_on(s, sep).len() == 1 ==> s == split_on(s, sep)[0],
        split_on(s, sep).len() > 1 ==> exists|a: Seq<char>|
            s == (#[trigger] a.push(sep)) + split_on(s, sep).last() && split_on(a, sep) == split_on(
                s,
                sep,
            ).drop_last(),
    decreases s.len(),
{
    let p = split_on(s, sep);
    if s.len() == 0 {
        assert(s =~= p[0]);
        assert(!p[0].contains(sep));
    } else {
        let h = s.drop_last();
        let q = split_on(h, sep);
        split_gives_pieces(h, sep);
        if s.last() == sep {
            assert forall|i: int| 0 <= i < p.len() implies !(#[trigger] p[i]).contains(sep) by {
                if i < q.len() {
                    assert(p[i] == q[i]);
                }
            }
            assert(h.push(sep) + Seq::<char>::empty() =~= s);
            assert(p.drop_last() =~= q);
        } else {
            let n = q.len() - 1;
            assert(p.last() == q.last().push(s.last()));
            assert forall|i: int| 0 <= i < p.len() implies !(#[trigger] p[i]).contains(sep) by {
                if i < n {
                    assert(p[i] == q[i]);
                } else {
                    assert(!q[n].contains(sep));
                    assert forall|j: int| 0 <= j < p[i].len() implies p[i][j] != sep by {
                        if j < q[n].len() {
                            assert(q[n][j] == p[i][j]);
                        }
                    }
                }
            }
            if q.len() == 1 {
                assert(s =~= p[0]);
            } else {
                let a = choose|a: Seq<char>|
                    h == (#[trigger] a.push(sep)) + q.last() && split_on(a, sep) == q.drop_last();
                assert(s =~= h.push(s.last()));
                assert(p.last() == q.last().push(s.last()));
                assert(s =~= a.push(sep) + q.last().push(s.last()));
                assert(p.drop_last() =~= q.drop_last());
            }
        }
    }
}

} // verus!
