//! The memory budget: how it is written, and how the work is cut to fit it.
use crate::numeral::{
    decimal_times, first_of, fraction_part, lower, mantissa, numeral_times, parse_numeral,
    read_times, saturated, unsigned, whole_part, Numeral,
};
use crate::point::RawPoint;
use crate::rounding::{
    nearest, nearest_close, nearest_exact, nearest_is_correctly_rounded, nearest_of_whole,
    nearest_times, nearest_times_drops_fraction, round_scaled, round_whole,
};
use crate::text::{all_digits, chars_of, digits_value, is_digit};
use std::path::PathBuf;
use vstd::arithmetic::power2::{
    lemma2_to64, lemma2_to64_rest, lemma_pow2_adds, lemma_pow2_pos, pow2,
};
use vstd::prelude::*;
use vstd::string::*;

verus! {

/// `std::path::PathBuf`, carried through unread.
#[verifier::external_type_specification]
#[verifier::external_body]
pub struct ExPathBuf(std::path::PathBuf);

/// Configuration threaded through the pipeline.
pub struct PipelineConfig {
    /// Effective memory budget in bytes (after the safety factor).
    pub memory_budget: u64,
    /// Optional custom temp directory.
    pub temp_dir: Option<PathBuf>,
}

/// A memory limit that is not a number, without the blanks around it.
#[derive(Debug)]
pub struct InvalidMemoryLimit {
    pub text: String,
}

/// Whether `c` has the Unicode property White_Space.
pub open spec fn is_white_space(c: char) -> bool {
    let v = c as int;
    ||| 0x9 <= v <= 0xd
    ||| v == 0x20
    ||| v == 0x85
    ||| v == 0xa0
    ||| v == 0x1680
    ||| 0x2000 <= v <= 0x200a
    ||| v == 0x2028
    ||| v == 0x2029
    ||| v == 0x202f
    ||| v == 0x205f
    ||| v == 0x3000
}

/// `s` without the white space at its start.
pub open spec fn trim_start(s: Seq<char>) -> Seq<char>
    decreases s.len(),
{
    if s.len() > 0 && is_white_space(s[0]) {
        trim_start(s.skip(1))
    } else {
        s
    }
}

/// `s` without the white space at its end.
pub open spec fn trim_end(s: Seq<char>) -> Seq<char>
    decreases s.len(),
{
    if s.len() > 0 && is_white_space(s.last()) {
        trim_end(s.drop_last())
    } else {
        s
    }
}

/// `s` without the white space around it.
pub open spec fn trim(s: Seq<char>) -> Seq<char> {
    trim_end(trim_start(s))
}

/// How many times a size suffix multiplies: G for 2^30, M for 2^20, K for 2^10,
/// in either case. Anything else is no suffix.
pub open spec fn suffix_power(c: char) -> Option<nat> {
    if c == 'G' || c == 'g' {
        Some(30)
    } else if c == 'M' || c == 'm' {
        Some(20)
    } else if c == 'K' || c == 'k' {
        Some(10)
    } else {
        None
    }
}

/// The number of bytes that `s` writes: a number, optionally followed by a suffix,
/// with white space allowed around both.
pub open spec fn memory_limit(s: Seq<char>) -> Option<nat> {
    let t = trim(s);
    let power = if t.len() > 0 {
        suffix_power(t.last())
    } else {
        None
    };
    let number = if power is Some {
        trim(t.drop_last())
    } else {
        t
    };
    let k: nat = if power is Some {
        power->0
    } else {
        0
    };
    match parse_numeral(number) {
        Some(n) => Some(numeral_times(n, pow2(k))),
        None => None,
    }
}

fn white_space(c: char) -> (r: bool)
    ensures
        r == is_white_space(c),
{
    let v: u32 = c as u32;
    (0x9 <= v && v <= 0xd) || v == 0x20 || v == 0x85 || v == 0xa0 || v == 0x1680 || (0x2000 <= v
        && v <= 0x200a) || v == 0x2028 || v == 0x2029 || v == 0x202f || v == 0x205f || v == 0x3000
}

/// The bounds of the text between `from` and `to` without the white space around it.
fn trim_bounds(s: &Vec<char>, from: usize, to: usize) -> (r: (usize, usize))
    requires
        from <= to <= s.len(),
    ensures
        from <= r.0 <= r.1 <= to,
        s@.subrange(r.0 as int, r.1 as int) == trim(s@.subrange(from as int, to as int)),
{
    let ghost whole = s@.subrange(from as int, to as int);
    let mut i: usize = from;
    while i < to && white_space(s[i])
        invariant
            from <= i <= to <= s.len(),
            trim_start(whole) == trim_start(s@.subrange(i as int, to as int)),
        decreases to - i,
    {
        assert(s@.subrange(i as int, to as int).skip(1) =~= s@.subrange(i + 1, to as int));
        i = i + 1;
    }
    let ghost started = s@.subrange(i as int, to as int);
    assert(trim_start(whole) == started);
    let mut j: usize = to;
    while i < j && white_space(s[j - 1])
        invariant
            from <= i <= j <= to <= s.len(),
            trim_end(started) == trim_end(s@.subrange(i as int, j as int)),
        decreases j,
    {
        assert(s@.subrange(i as int, j as int).drop_last() =~= s@.subrange(i as int, j - 1));
        j = j - 1;
    }
    (i, j)
}

fn copy_range(s: &Vec<char>, from: usize, to: usize) -> (r: Vec<char>)
    requires
        from <= to <= s.len(),
    ensures
        r@ == s@.subrange(from as int, to as int),
{
    let mut r: Vec<char> = Vec::new();
    let mut i: usize = from;
    while i < to
        invariant
            from <= i <= to <= s.len(),
            r@ == s@.subrange(from as int, i as int),
        decreases to - i,
    {
        r.push(s[i]);
        i = i + 1;
        assert(r@ =~= s@.subrange(from as int, i as int));
    }
    r
}

/// Parse a human-readable size string into bytes.
///
/// Supports suffixes: G/g (GiB), M/m (MiB), K/k (KiB), or plain bytes.
pub fn parse_memory_limit(s: &str) -> (r: Result<u64, InvalidMemoryLimit>)
    ensures
        r is Ok <==> memory_limit(s@) is Some,
        r is Ok ==> r->Ok_0 == memory_limit(s@)->0,
        r is Err ==> r->Err_0.text@ == trim(s@),
{
    let chars = chars_of(s);
    assert(chars@.subrange(0, chars.len() as int) =~= s@);
    let (from, to) = trim_bounds(&chars, 0, chars.len());
    let ghost t = trim(s@);
    let k: u32 = if from < to {
        let last: char = chars[to - 1];
        assert(t.last() == last);
        if last == 'G' || last == 'g' {
            30
        } else if last == 'M' || last == 'm' {
            20
        } else if last == 'K' || last == 'k' {
            10
        } else {
            0
        }
    } else {
        0
    };
    let multiplier: u64 = if k == 30 {
        1024 * 1024 * 1024
    } else if k == 20 {
        1024 * 1024
    } else if k == 10 {
        1024
    } else {
        1
    };
    proof {
        lemma2_to64();
    }
    let number: Vec<char> = if k > 0 {
        assert(chars@.subrange(from as int, to - 1) =~= t.drop_last());
        let (i, j) = trim_bounds(&chars, from, to - 1);
        copy_range(&chars, i, j)
    } else {
        copy_range(&chars, from, to)
    };
    match read_times(&number, k, multiplier) {
        Some(v) => Ok(v),
        None => Err(InvalidMemoryLimit { text: s.substring_char(from, to).to_owned() }),
    }
}

/// The part of the memory limit to actually use: three quarters of it, computed
/// in double precision.
pub open spec fn effective_budget_spec(limit: nat) -> nat {
    let (p, q) = nearest(limit, 1);
    nearest_times(3 * p, 4 * q, 1)
}

/// The effective memory budget for a stated limit.
pub fn effective_budget(limit: u64) -> (r: u64)
    ensures
        r == effective_budget_spec(limit as nat),
{
    let whole: u128 = round_whole(limit);
    let ghost (p, q) = nearest(limit as nat, 1);
    proof {
        lemma2_to64();
        lemma2_to64_rest();
        lemma_pow2_adds(64, 54);
        nearest_of_whole(limit as nat);
        let w = whole as nat;
        assert((3 * p) * 0x40_0000_0000_0000 == (w * 3 * 0x10_0000_0000_0000) * (4 * q))
            by (nonlinear_arith)
            requires
                p == w * q,
        ;
        effective_budget_within_limit(limit as nat);
    }
    let budget: u128 = round_scaled(
        whole * 3 * 0x10_0000_0000_0000,
        false,
        Ghost(3 * p),
        Ghost(4 * q),
        Ghost(0nat),
        Ghost(0nat),
    );
    budget as u64
}

/// The effective budget never exceeds the stated limit.
pub proof fn effective_budget_within_limit(limit: nat)
    ensures
        effective_budget_spec(limit) <= limit,
{
    let (p, q) = nearest(limit, 1);
    nearest_close(limit, 1);
    let (p2, q2) = nearest(3 * p, 4 * q);
    nearest_close(3 * p, 4 * q);
    lemma2_to64_rest();
    let t: nat = 0x20_0000_0000_0000;
    let r = effective_budget_spec(limit);
    assert(p2 * 1 == p2);
    vstd::arithmetic::div_mod::lemma_fundamental_div_mod(p2 as int, q2 as int);
    assert(r * q2 <= p2) by (nonlinear_arith)
        requires
            p2 == q2 * r + p2 % q2,
            p2 % q2 >= 0,
    ;
    assert(p * t <= limit * q * (t + 1)) by (nonlinear_arith)
        requires
            p * 1 * t <= limit * q * (t + 1),
    ;
    // r * q2 * 4q * t * t <= 3p * q2 * (t + 1) * t <= 3 * limit * q * q2 * (t + 1) * (t + 1)
    assert((r * 4 * t) * q <= (3 * (t + 1)) * p) by (nonlinear_arith)
        requires
            r * q2 <= p2,
            p2 * (4 * q) * t <= 3 * p * q2 * (t + 1),
            q2 > 0,
            q > 0,
    {
        assert((r * q2) * (4 * q * t) <= p2 * (4 * q * t));
        assert(((r * 4 * t) * q) * q2 <= ((3 * (t + 1)) * p) * q2);
    }
    assert((r * 4 * t * t) * q <= (3 * (t + 1) * (t + 1) * limit) * q) by (nonlinear_arith)
        requires
            (r * 4 * t) * q <= (3 * (t + 1)) * p,
            p * t <= limit * q * (t + 1),
    {
        assert(((r * 4 * t) * q) * t <= ((3 * (t + 1)) * p) * t);
        assert((3 * (t + 1)) * (p * t) <= (3 * (t + 1)) * (limit * q * (t + 1)));
    }
    assert(r * 4 * t * t <= 3 * (t + 1) * (t + 1) * limit) by (nonlinear_arith)
        requires
            (r * 4 * t * t) * q <= (3 * (t + 1) * (t + 1) * limit) * q,
            q > 0,
    ;
    assert(r <= limit) by (nonlinear_arith)
        requires
            r * 4 * t * t <= 3 * (t + 1) * (t + 1) * limit,
            t == 0x20_0000_0000_0000nat,
            limit >= 0,
            r >= 0,
    ;
}

/// As long as three times the limit has at most 53 bits, the effective budget is three
/// quarters of the limit, rounded down.
pub proof fn effective_budget_is_three_quarters(limit: nat)
    requires
        3 * limit < 0x20_0000_0000_0000,
    ensures
        effective_budget_spec(limit) == 3 * limit / 4,
{
    lemma2_to64();
    lemma2_to64_rest();
    let (p, q) = nearest(limit, 1);
    nearest_exact(limit, 1, limit, 0);
    assert(p == limit * q) by (nonlinear_arith)
        requires
            p * 1 == limit * q,
    ;
    let a = 3 * p;
    let b = 4 * q;
    assert(a * pow2(2) == (3 * limit) * b) by (nonlinear_arith)
        requires
            a == 3 * p,
            b == 4 * q,
            p == limit * q,
            pow2(2) == 4,
    ;
    nearest_exact(a, b, 3 * limit, 2);
    let (p2, q2) = nearest(a, b);
    assert(4 * p2 == 3 * limit * q2) by (nonlinear_arith)
        requires
            p2 * b == a * q2,
            a == 3 * p,
            b == 4 * q,
            p == limit * q,
            q > 0,
    {
        assert((4 * p2) * q == (3 * limit * q2) * q);
    }
    assert(p2 * 1 == p2);
    vstd::arithmetic::div_mod::lemma_div_denominator((3 * limit * q2) as int, q2 as int, 4);
    vstd::arithmetic::div_mod::lemma_div_multiples_vanish((3 * limit) as int, q2 as int);
    vstd::arithmetic::div_mod::lemma_div_denominator((4 * p2) as int, 4, q2 as int);
    vstd::arithmetic::div_mod::lemma_div_multiples_vanish(p2 as int, 4);
    assert(q2 * (3 * limit) == 3 * limit * q2) by (nonlinear_arith);
    assert(q2 * 4 == 4 * q2);
}

/// Estimated bytes that one decoded input point takes in memory.
pub const DECODED_POINT_BYTES: u64 = 120;

/// How many points are buffered before the buffers go to disk: a quarter of the
/// budget's worth, though never fewer than 10 000 or more than 500 000.
///
/// Buffered points stay within a quarter of the budget for budgets from 1 520 000 bytes on:
/// a quarter of a smaller one holds fewer than 10 000 points.
pub open spec fn flush_interval_spec(memory_budget: u64) -> nat {
    let n = ((memory_budget / 4) as usize) / RawPoint::BYTE_SIZE;
    if n < 10_000 {
        10_000
    } else if n > 500_000 {
        500_000
    } else {
        n as nat
    }
}

/// After how many points the buffers are flushed. The buffered points are bounded by a
/// quarter of the budget where that holds 10 000 of them, from 1 520 000 bytes on; for
/// smaller budgets they are bounded by 10 000 points.
pub fn flush_interval(memory_budget: u64) -> (r: usize)
    ensures
        r == flush_interval_spec(memory_budget),
        10_000 <= r <= 500_000,
{
    let n: usize = (memory_budget / 4) as usize / RawPoint::BYTE_SIZE;
    if n < 10_000 {
        10_000
    } else if n > 500_000 {
        500_000
    } else {
        n
    }
}

/// How an input file is read.
#[derive(Debug, Clone, Copy, PartialEq, Eq, Structural)]
pub enum ReadPlan {
    /// All points at once.
    Whole,
    /// At most this many points at a time.
    Batched { batch_size: u64 },
}

/// A file is read whole if its points, decoded, fit in half of the budget; else in
/// batches of as many points as do. A batch has at least one point, so that reading gets
/// on whatever the budget is.
pub open spec fn plan_read_spec(point_count: u64, memory_budget: u64) -> ReadPlan {
    let half = memory_budget / 2;
    if point_count * DECODED_POINT_BYTES <= half {
        ReadPlan::Whole
    } else if half < DECODED_POINT_BYTES {
        ReadPlan::Batched { batch_size: 1 }
    } else {
        ReadPlan::Batched { batch_size: half / DECODED_POINT_BYTES }
    }
}

pub fn plan_read(point_count: u64, memory_budget: u64) -> (r: ReadPlan)
    requires
        point_count * DECODED_POINT_BYTES <= u64::MAX,
    ensures
        r == plan_read_spec(point_count, memory_budget),
{
    let half: u64 = memory_budget / 2;
    let estimated: u64 = point_count * DECODED_POINT_BYTES;
    if estimated <= half {
        ReadPlan::Whole
    } else if half < DECODED_POINT_BYTES {
        ReadPlan::Batched { batch_size: 1 }
    } else {
        ReadPlan::Batched { batch_size: half / DECODED_POINT_BYTES }
    }
}

/// The points that are decoded at one time fit in half of the budget, provided that half
/// holds a single point; a file is read in batches only where it does not fit itself, and
/// no larger batch would.
pub proof fn decoded_points_fit_half_budget(point_count: u64, memory_budget: u64)
    requires
        memory_budget / 2 >= DECODED_POINT_BYTES,
    ensures
        match plan_read_spec(point_count, memory_budget) {
            ReadPlan::Whole => point_count * DECODED_POINT_BYTES <= memory_budget / 2,
            ReadPlan::Batched { batch_size } => {
                &&& batch_size * DECODED_POINT_BYTES <= memory_budget / 2
                &&& memory_budget / 2 < (batch_size + 1) * DECODED_POINT_BYTES
                &&& 0 < batch_size < point_count
            },
        },
{
}

/// The buffered points fit in a quarter of the budget, provided that a quarter holds the
/// smallest interval.
pub proof fn buffered_points_fit_quarter_budget(memory_budget: u64)
    requires
        memory_budget / 4 >= 10_000 * RawPoint::BYTE_SIZE,
        memory_budget / 4 <= usize::MAX,
    ensures
        flush_interval_spec(memory_budget) * RawPoint::BYTE_SIZE <= memory_budget / 4,
{
}

proof fn lemma_trim_plain(s: Seq<char>)
    requires
        s.len() == 0 || (!is_white_space(s[0]) && !is_white_space(s.last())),
    ensures
        trim(s) == s,
{
}

proof fn lemma_digits_only(s: Seq<char>)
    requires
        all_digits(s),
        s.len() > 0,
    ensures
        parse_numeral(s) == Some(
            Numeral::Finite { negative: false, digits: digits_value(s), scale: 0 },
        ),
        trim(s) == s,
        suffix_power(s.last()) is None,
{
    assert(is_digit(s[0]));
    assert(is_digit(s[s.len() - 1]));
    lemma_trim_plain(s);
    lemma_first_of_digits(s, 'e', 'E');
    lemma_first_of_digits(s, '.', '.');
    assert(unsigned(s) == s);
    assert(lower(s[0]) == s[0]);
    assert(mantissa(s) =~= s);
    assert(whole_part(s) =~= s);
    assert(fraction_part(s) =~= Seq::<char>::empty());
    assert(s + Seq::<char>::empty() =~= s);
}

proof fn lemma_first_of_digits(s: Seq<char>, c: char, d: char)
    requires
        all_digits(s),
        !is_digit(c),
        !is_digit(d),
    ensures
        first_of(s, c, d) == s.len(),
    decreases s.len(),
{
    if s.len() > 0 {
        assert(is_digit(s[0]));
        assert(all_digits(s.skip(1))) by {
            assert forall|i: int| 0 <= i < s.len() - 1 implies is_digit(#[trigger] s.skip(1)[i]) by {
                assert(s.skip(1)[i] == s[i + 1]);
            }
        }
        lemma_first_of_digits(s.skip(1), c, d);
    }
}

proof fn lemma_whole_times(n: nat, factor: nat)
    requires
        n <= 0x20_0000_0000_0000,
    ensures
        decimal_times(n, 0, factor) == n * factor,
{
    lemma2_to64();
    lemma2_to64_rest();
    vstd::arithmetic::power::lemma_pow0(10);
    assert(n * 1 == n);
    nearest_exact(n, 1, n, 0);
    let (p, q) = nearest(n, 1);
    assert(p * factor == (n * factor) * q) by (nonlinear_arith)
        requires
            p * 1 == n * q,
    ;
    vstd::arithmetic::div_mod::lemma_div_multiples_vanish((n * factor) as int, q as int);
    assert(q * (n * factor) == (n * factor) * q) by (nonlinear_arith);
}

/// A whole number up to 2^53 without a suffix is that many bytes; with a suffix it is
/// that many GiB, MiB or KiB, up to the largest 64-bit number.
pub proof fn whole_number_limits(s: Seq<char>, c: char)
    requires
        all_digits(s),
        s.len() > 0,
        digits_value(s) <= 0x20_0000_0000_0000,
        suffix_power(c) is Some,
    ensures
        memory_limit(s) == Some(digits_value(s)),
        memory_limit(s.push(c)) == Some(saturated(digits_value(s) * pow2(suffix_power(c)->0))),
{
    lemma_digits_only(s);
    let t = s.push(c);
    assert(is_digit(s[0]));
    lemma_trim_plain(t);
    assert(t.drop_last() =~= s);
    lemma2_to64();
    lemma_whole_times(digits_value(s), 1);
    lemma_whole_times(digits_value(s), pow2(suffix_power(c)->0));
}

/// White space around a limit does not change it.
pub proof fn blanks_around_limit(s: Seq<char>)
    ensures
        memory_limit(trim(s)) == memory_limit(s),
{
    lemma_trim_ends(s);
    lemma_trim_plain(trim(s));
}

proof fn lemma_trim_ends(s: Seq<char>)
    ensures
        trim(s).len() > 0 ==> !is_white_space(trim(s)[0]) && !is_white_space(trim(s).last()),
{
    lemma_trim_start_end(s);
    lemma_trim_end_ends(trim_start(s));
}

proof fn lemma_trim_start_end(s: Seq<char>)
    ensures
        trim_start(s).len() > 0 ==> !is_white_space(trim_start(s)[0]),
    decreases s.len(),
{
    if s.len() > 0 && is_white_space(s[0]) {
        lemma_trim_start_end(s.skip(1));
    }
}

proof fn lemma_trim_end_ends(s: Seq<char>)
    ensures
        trim_end(s).len() > 0 ==> !is_white_space(trim_end(s).last()) && trim_end(s)[0] == s[0],
        trim_end(s).len() <= s.len(),
    decreases s.len(),
{
    if s.len() > 0 && is_white_space(s.last()) {
        lemma_trim_end_ends(s.drop_last());
    }
}

/// The flush interval is the largest number of points that fits in a quarter of the budget, at
/// 38 bytes each, unless that is below 10 000 or above 500 000.
pub proof fn flush_interval_is_largest_fit(memory_budget: u64)
    requires
        memory_budget / 4 <= usize::MAX,
    ensures
        ({
            let r = flush_interval_spec(memory_budget);
            &&& 10_000 <= r <= 500_000
            &&& r * 38 <= memory_budget / 4 || r == 10_000
            &&& memory_budget / 4 < (r + 1) * 38 || r == 500_000
        }),
{
}

/// A file is read whole exactly if its points, at 120 bytes each, fit in half of the budget; a
/// batch is the largest number of points that does, though at least one.
pub proof fn batch_is_largest_fit(point_count: u64, memory_budget: u64)
    ensures
        plan_read_spec(point_count, memory_budget) is Whole <==> point_count * 120 <= memory_budget
            / 2,
        plan_read_spec(point_count, memory_budget) matches ReadPlan::Batched { batch_size } ==> {
            &&& batch_size >= 1
            &&& batch_size * 120 <= memory_budget / 2 || batch_size == 1
            &&& memory_budget / 2 < (batch_size + 1) * 120
        },
{
}

/// The effective budget is three quarters of the limit, without a fraction, but for two
/// roundings of at most one part in 2^53 each.
pub proof fn effective_budget_is_close(limit: nat)
    ensures
        ({
            let t: nat = 0x20_0000_0000_0000;
            let r = effective_budget_spec(limit);
            &&& r * 4 * t * t <= 3 * (t + 1) * (t + 1) * limit
            &&& (r + 1) * 4 * t * t >= 3 * (t - 1) * (t - 1) * limit
        }),
{
    let (p, q) = nearest(limit, 1);
    nearest_close(limit, 1);
    let (p2, q2) = nearest(3 * p, 4 * q);
    nearest_close(3 * p, 4 * q);
    lemma2_to64_rest();
    let t: nat = 0x20_0000_0000_0000;
    let r = effective_budget_spec(limit);
    assert(p2 * 1 == p2);
    vstd::arithmetic::div_mod::lemma_fundamental_div_mod(p2 as int, q2 as int);
    assert(r * q2 <= p2 && p2 < (r + 1) * q2) by (nonlinear_arith)
        requires
            p2 == q2 * r + p2 % q2,
            0 <= p2 % q2 < q2,
    ;
    assert(p * t <= limit * q * (t + 1) && p * t >= limit * q * (t - 1)) by (nonlinear_arith)
        requires
            p * 1 * t <= limit * q * (t + 1),
            p * 1 * t >= limit * q * (t - 1),
    ;
    assert((r * 4 * t) * q <= (3 * (t + 1)) * p) by (nonlinear_arith)
        requires
            r * q2 <= p2,
            p2 * (4 * q) * t <= 3 * p * q2 * (t + 1),
            q2 > 0,
            q > 0,
    {
        assert((r * q2) * (4 * q * t) <= p2 * (4 * q * t));
        assert(((r * 4 * t) * q) * q2 <= ((3 * (t + 1)) * p) * q2);
    }
    assert((r * 4 * t * t) * q <= (3 * (t + 1) * (t + 1) * limit) * q) by (nonlinear_arith)
        requires
            (r * 4 * t) * q <= (3 * (t + 1)) * p,
            p * t <= limit * q * (t + 1),
    {
        assert(((r * 4 * t) * q) * t <= ((3 * (t + 1)) * p) * t);
        assert((3 * (t + 1)) * (p * t) <= (3 * (t + 1)) * (limit * q * (t + 1)));
    }
    assert(r * 4 * t * t <= 3 * (t + 1) * (t + 1) * limit) by (nonlinear_arith)
        requires
            (r * 4 * t * t) * q <= (3 * (t + 1) * (t + 1) * limit) * q,
            q > 0,
    ;
    let u = (t - 1) as nat;
    assert(((r + 1) * 4 * t) * q >= (3 * u) * p) by (nonlinear_arith)
        requires
            p2 <= (r + 1) * q2,
            p2 * (4 * q) * t >= 3 * p * q2 * u,
            q2 > 0,
            q > 0,
    {
        assert(((r + 1) * q2) * (4 * q * t) >= p2 * (4 * q * t));
        assert((((r + 1) * 4 * t) * q) * q2 >= ((3 * u) * p) * q2);
    }
    assert(((r + 1) * 4 * t * t) * q >= (3 * u * u * limit) * q) by (nonlinear_arith)
        requires
            ((r + 1) * 4 * t) * q >= (3 * u) * p,
            p * t >= limit * q * u,
    {
        assert((((r + 1) * 4 * t) * q) * t >= ((3 * u) * p) * t);
        assert((3 * u) * (p * t) >= (3 * u) * (limit * q * u));
    }
    assert((r + 1) * 4 * t * t >= 3 * u * u * limit) by (nonlinear_arith)
        requires
            ((r + 1) * 4 * t * t) * q >= (3 * u * u * limit) * q,
            q > 0,
    ;
}

/// A suffix multiplies the number before it: G or g by 2^30, M or m by 2^20, K or k by 2^10.
/// Blanks may stand between the two, and without a suffix the number stays as it is. What is
/// no number, such as nothing at all, is no limit with a suffix either.
pub proof fn suffixes_multiply(s: Seq<char>, blanks: Seq<char>)
    requires
        s.len() == 0 || (!is_white_space(s[0]) && !is_white_space(s.last())),
        forall|i: int| 0 <= i < blanks.len() ==> is_white_space(#[trigger] blanks[i]),
        s.len() == 0 ==> blanks.len() == 0,
    ensures
        ({
            let number = parse_numeral(s);
            let scaled = |factor: nat|
                match number {
                    Some(n) => Some(numeral_times(n, factor)),
                    None => None,
                };
            &&& memory_limit((s + blanks).push('G')) == scaled(1_073_741_824)
            &&& memory_limit((s + blanks).push('g')) == scaled(1_073_741_824)
            &&& memory_limit((s + blanks).push('M')) == scaled(1_048_576)
            &&& memory_limit((s + blanks).push('m')) == scaled(1_048_576)
            &&& memory_limit((s + blanks).push('K')) == scaled(1_024)
            &&& memory_limit((s + blanks).push('k')) == scaled(1_024)
            &&& (s.len() == 0 || (s.last() != 'G' && s.last() != 'g' && s.last() != 'M' && s.last()
                != 'm' && s.last() != 'K' && s.last() != 'k') ==> memory_limit(s) == scaled(1))
        }),
{
    lemma2_to64();
    lemma_suffixed(s, blanks, 'G');
    lemma_suffixed(s, blanks, 'g');
    lemma_suffixed(s, blanks, 'M');
    lemma_suffixed(s, blanks, 'm');
    lemma_suffixed(s, blanks, 'K');
    lemma_suffixed(s, blanks, 'k');
    lemma_trim_plain(s);
}

proof fn lemma_suffixed(s: Seq<char>, blanks: Seq<char>, c: char)
    requires
        s.len() == 0 || (!is_white_space(s[0]) && !is_white_space(s.last())),
        forall|i: int| 0 <= i < blanks.len() ==> is_white_space(#[trigger] blanks[i]),
        s.len() == 0 ==> blanks.len() == 0,
        suffix_power(c) is Some,
        !is_white_space(c),
    ensures
        memory_limit((s + blanks).push(c)) == (match parse_numeral(s) {
            Some(n) => Some(numeral_times(n, pow2(suffix_power(c)->0))),
            None => None,
        }),
{
    let t = (s + blanks).push(c);
    lemma_trim_plain(t);
    assert(t.drop_last() =~= Seq::<char>::empty() + s + blanks);
    trimmed_text(Seq::empty(), s, blanks);
}

/// Only blanks around a limit are dropped: what is left has none at its ends, and is what
/// stood between them.
pub proof fn trimmed_text(before: Seq<char>, s: Seq<char>, after: Seq<char>)
    requires
        forall|i: int| 0 <= i < before.len() ==> is_white_space(#[trigger] before[i]),
        forall|i: int| 0 <= i < after.len() ==> is_white_space(#[trigger] after[i]),
        s.len() == 0 || (!is_white_space(s[0]) && !is_white_space(s.last())),
    ensures
        trim(before + s + after) == s,
    decreases before.len() + after.len(),
{
    let t = before + s + after;
    if before.len() > 0 {
        let b = before.skip(1);
        assert forall|i: int| 0 <= i < b.len() implies is_white_space(#[trigger] b[i]) by {
            assert(b[i] == before[i + 1]);
        }
        trimmed_text(b, s, after);
        assert(t.skip(1) =~= b + s + after);
        assert(is_white_space(t[0]));
    } else if s.len() == 0 {
        if after.len() > 0 {
            let a = after.skip(1);
            assert forall|i: int| 0 <= i < a.len() implies is_white_space(#[trigger] a[i]) by {
                assert(a[i] == after[i + 1]);
            }
            trimmed_text(before, s, a);
            assert(t.skip(1) =~= before + s + a);
            assert(is_white_space(t[0]));
        } else {
            assert(t =~= s);
        }
    } else {
        assert(t[0] == s[0]);
        assert(trim_start(t) == t);
        if after.len() > 0 {
            let a = after.drop_last();
            assert forall|i: int| 0 <= i < a.len() implies is_white_space(#[trigger] a[i]) by {
                assert(a[i] == after[i]);
            }
            trimmed_text(before, s, a);
            assert(t.drop_last() =~= before + s + a);
            assert(trim_start(t.drop_last()) == t.drop_last()) by {
                assert(t.drop_last()[0] == s[0]);
            }
            assert(is_white_space(t.last()));
        } else {
            assert(t =~= s);
        }
    }
}

/// The blanks are the tab, the line feed, the vertical tab, the form feed, the carriage
/// return, the space, the next-line character, and the spaces and separators of Unicode.
pub proof fn blanks_are_listed(c: char)
    ensures
        is_white_space(c) <==> seq![
            0x9int, 0xa, 0xb, 0xc, 0xd, 0x20, 0x85, 0xa0, 0x1680, 0x2000, 0x2001, 0x2002, 0x2003,
            0x2004, 0x2005, 0x2006, 0x2007, 0x2008, 0x2009, 0x200a, 0x2028, 0x2029, 0x202f, 0x205f,
            0x3000,
        ].contains(c as int),
{
    let s = seq![
        0x9int, 0xa, 0xb, 0xc, 0xd, 0x20, 0x85, 0xa0, 0x1680, 0x2000, 0x2001, 0x2002, 0x2003,
        0x2004, 0x2005, 0x2006, 0x2007, 0x2008, 0x2009, 0x200a, 0x2028, 0x2029, 0x202f, 0x205f,
        0x3000,
    ];
    let v = c as int;
    if is_white_space(c) {
        let i: int = if v <= 0xd {
            v - 9
        } else if v == 0x20 {
            5
        } else if v == 0x85 {
            6
        } else if v == 0xa0 {
            7
        } else if v == 0x1680 {
            8
        } else if v <= 0x200a {
            v - 0x2000 + 9
        } else if v == 0x2028 {
            20
        } else if v == 0x2029 {
            21
        } else if v == 0x202f {
            22
        } else if v == 0x205f {
            23
        } else {
            24
        };
        assert(s[i] == v);
    }
}

/// The effective budget is computed in double precision: the limit is rounded to 53
/// significant bits, three quarters of the rounded limit are again, and the fraction is
/// dropped. Rounding goes to the nearest number `m * 2^e`, and to an even `m` where two are
/// equally near.
///
/// The result holds `e` and `m` of both roundings.
pub proof fn effective_budget_rounds_twice(limit: nat) -> (r: ((int, nat), (int, nat)))
    requires
        limit > 0,
    ensures
        ({
            let ((e, m), (f, n)) = r;
            let up: nat = if e > 0 { pow2(e as nat) } else { 1 };
            let down: nat = if e < 0 { pow2((-e) as nat) } else { 1 };
            let over: nat = if f > 0 { pow2(f as nat) } else { 1 };
            let under: nat = if f < 0 { pow2((-f) as nat) } else { 1 };
            let a = 3 * (m * up);
            let b = 4 * down;
            let budget = effective_budget_spec(limit);
            &&& pow2(52) <= m <= pow2(53)
            &&& (1 * up) * pow2(52) <= limit * down < (1 * up) * pow2(53)
            &&& 2 * (m * (1 * up)) <= 2 * (limit * down) + 1 * up
            &&& 2 * (limit * down) <= 2 * (m * (1 * up)) + 1 * up
            &&& (2 * (m * (1 * up)) == 2 * (limit * down) + 1 * up || 2 * (limit * down) == 2 * (m
                * (1 * up)) + 1 * up ==> m % 2 == 0)
            &&& pow2(52) <= n <= pow2(53)
            &&& (b * over) * pow2(52) <= a * under < (b * over) * pow2(53)
            &&& 2 * (n * (b * over)) <= 2 * (a * under) + b * over
            &&& 2 * (a * under) <= 2 * (n * (b * over)) + b * over
            &&& (2 * (n * (b * over)) == 2 * (a * under) + b * over || 2 * (a * under) == 2 * (n * (
            b * over)) + b * over ==> n % 2 == 0)
            &&& budget * under <= n * over < (budget + 1) * under
        }),
{
    let (p, q) = nearest(limit, 1);
    let (e, m) = nearest_is_correctly_rounded(limit, 1);
    lemma2_to64_rest();
    if e > 0 {
        lemma_pow2_pos(e as nat);
    }
    if e < 0 {
        lemma_pow2_pos((-e) as nat);
    }
    assert(p > 0) by (nonlinear_arith)
        requires
            p == m * (if e > 0 { pow2(e as nat) } else { 1 }),
            m >= 0x10_0000_0000_0000,
            e > 0 ==> pow2(e as nat) > 0,
    ;
    let (f, n) = nearest_is_correctly_rounded(3 * p, 4 * q);
    nearest_times_drops_fraction(3 * p, 4 * q, 1);
    let (p2, q2) = nearest(3 * p, 4 * q);
    assert(p2 * 1 == p2);
    ((e, m), (f, n))
}

} // verus!
