//! Memory limits, and how the work is cut to fit them.
use copc_converter::memory::{
    effective_budget, flush_interval, parse_memory_limit, plan_read, ReadPlan,
};

/// A limit read with the standard library's doubles.
fn reference_limit(s: &str) -> Option<u64> {
    let s = s.trim();
    let (number, multiplier) = if let Some(n) = s.strip_suffix(['G', 'g']) {
        (n.trim(), 1u64 << 30)
    } else if let Some(n) = s.strip_suffix(['M', 'm']) {
        (n.trim(), 1u64 << 20)
    } else if let Some(n) = s.strip_suffix(['K', 'k']) {
        (n.trim(), 1u64 << 10)
    } else {
        (s, 1)
    };
    let value: f64 = number.parse().ok()?;
    Some((value * multiplier as f64) as u64)
}

struct Noise(u64);

impl Noise {
    fn next(&mut self) -> u64 {
        self.0 = self.0.wrapping_mul(6364136223846793005).wrapping_add(1442695040888963407);
        self.0 ^ (self.0 >> 29)
    }
}

#[test]
fn documented_limits() {
    assert_eq!(parse_memory_limit("16G").ok(), Some(17_179_869_184));
    assert_eq!(parse_memory_limit("8G").ok(), Some(8_589_934_592));
    assert_eq!(parse_memory_limit("4096M").ok(), Some(4_294_967_296));
    assert_eq!(parse_memory_limit("512M").ok(), Some(536_870_912));
    assert_eq!(parse_memory_limit("64K").ok(), Some(65_536));
    assert_eq!(parse_memory_limit("123456").ok(), Some(123_456));
}

#[test]
fn suffixes_in_either_case() {
    assert_eq!(parse_memory_limit("2g").ok(), Some(2_147_483_648));
    assert_eq!(parse_memory_limit("3m").ok(), Some(3_145_728));
    assert_eq!(parse_memory_limit("5k").ok(), Some(5_120));
}

#[test]
fn fractions_of_a_unit() {
    assert_eq!(parse_memory_limit("1.5G").ok(), Some(1_610_612_736));
    assert_eq!(parse_memory_limit("0.1K").ok(), Some(102));
    assert_eq!(parse_memory_limit(".5k").ok(), Some(512));
    assert_eq!(parse_memory_limit("7.").ok(), Some(7));
    assert_eq!(parse_memory_limit("0.999").ok(), Some(0));
    assert_eq!(parse_memory_limit("1e3").ok(), Some(1000));
    assert_eq!(parse_memory_limit("25e-1M").ok(), Some(2_621_440));
}

#[test]
fn limits_out_of_range_saturate() {
    assert_eq!(parse_memory_limit("-5").ok(), Some(0));
    assert_eq!(parse_memory_limit("-inf").ok(), Some(0));
    assert_eq!(parse_memory_limit("nan").ok(), Some(0));
    assert_eq!(parse_memory_limit("inf").ok(), Some(u64::MAX));
    assert_eq!(parse_memory_limit("infinity").ok(), Some(u64::MAX));
    assert_eq!(parse_memory_limit("1e400").ok(), Some(u64::MAX));
    assert_eq!(parse_memory_limit("99999999999999999999").ok(), Some(u64::MAX));
    assert_eq!(parse_memory_limit("18446744073709551615").ok(), Some(u64::MAX));
}

#[test]
fn blanks_do_not_matter() {
    assert_eq!(parse_memory_limit("  2 G\t").ok(), Some(2_147_483_648));
    assert_eq!(parse_memory_limit("\n 512M \r").ok(), Some(536_870_912));
    assert_eq!(parse_memory_limit("\u{3000}7\u{a0}").ok(), Some(7));
}

#[test]
fn invalid_limits_keep_their_text() {
    for s in ["", "G", "abc", "1.2.3", "1_000", "0x10", "1GB", "1 0", "--1", "1e", ".", "e5", "+"] {
        match parse_memory_limit(s) {
            Ok(v) => panic!("{s:?} gave {v}"),
            Err(e) => assert_eq!(e.text, s.trim()),
        }
    }
    assert_eq!(parse_memory_limit("  twelve G ").unwrap_err().text, "twelve G");
}

#[test]
fn blanks_are_those_of_the_standard_library() {
    for v in 0..=0xffffu32 {
        let Some(c) = char::from_u32(v) else { continue };
        let s = format!("{c}5{c}");
        assert_eq!(parse_memory_limit(&s).ok(), reference_limit(&s), "{v:#x}");
    }
}

#[test]
fn limits_agree_with_doubles() {
    let fixed = [
        "0", "-0", "+7", "+.5K", "-.5", "9007199254740991", "9007199254740992",
        "9007199254740993", "9007199254740995", "18014398509481983K", "0.1G", "0.2G", "0.3G",
        "1e-5G", "123.456e7", "123.456E+7k", "4.9e-324", "1e-400G", "2.2250738585072014e-308",
        "1.7976931348623157e308", "1.7976931348623159e308", "179769313486231580793e289",
        "0.000000000000000000000000000000123e31M", "1e18446744073709551616", "1e-18446744073709551616",
        "00000000000000000000000000000000000001e2", "5e+0", "5e+", "5e-", "5e1.5", "Infinity",
        "INF", "NaN", "nAn", "+inf", "-nan", "infinit", "1e19", "1e20", "1.8446744073709552e19",
        "18446744073709549567", "18446744073709549568", "18446744073709550591",
        "18446744073709550592", "3.0000000000000000000000000000000000001",
    ];
    for s in fixed {
        assert_eq!(parse_memory_limit(s).ok(), reference_limit(s), "{s:?}");
    }
    let mut noise = Noise(7);
    for _ in 0..4000 {
        let a = noise.next();
        let b = noise.next() >> (noise.next() % 64);
        let e = (noise.next() % 60) as i64 - 30;
        let suffix = ["", "K", "m", "G"][(noise.next() % 4) as usize];
        for s in [
            format!("{b}{suffix}"),
            format!("{b}.{a}{suffix}"),
            format!("0.{a}e{e}{suffix}"),
            format!("{}.{b}e{e}{suffix}", a % 1000),
        ] {
            assert_eq!(parse_memory_limit(&s).ok(), reference_limit(&s), "{s:?}");
        }
    }
}

#[test]
fn budget_is_three_quarters() {
    assert_eq!(effective_budget(0), 0);
    assert_eq!(effective_budget(1), 0);
    assert_eq!(effective_budget(5), 3);
    assert_eq!(effective_budget(16 << 30), 12 << 30);
    assert_eq!(effective_budget((1 << 51) - 1), 1_688_849_860_263_935);
    assert_eq!(effective_budget(u64::MAX), 13_835_058_055_282_163_712);
}

#[test]
fn budget_agrees_with_doubles() {
    let mut noise = Noise(11);
    let mut limits = vec![0, 1, 2, 3, 4, u64::MAX, u64::MAX - 1, 1 << 53, (1 << 53) + 1, (1 << 54) + 3];
    for _ in 0..20000 {
        let shift = noise.next() % 64;
        limits.push(noise.next() >> shift);
    }
    for limit in limits {
        assert_eq!(effective_budget(limit), (limit as f64 * 0.75) as u64, "{limit}");
    }
}

#[test]
fn batches_stay_within_half_the_budget() {
    for budget in [240, 241, 1_000, 99_999, 1_000_000, 12 << 30] {
        for count in [1, 10, 10_000, 1_000_000, 1 << 40] {
            match plan_read(count, budget) {
                ReadPlan::Whole => assert!(count * 120 <= budget / 2),
                ReadPlan::Batched { batch_size } => {
                    assert!(batch_size * 120 <= budget / 2);
                    assert!((batch_size + 1) * 120 > budget / 2);
                    assert!(0 < batch_size && batch_size < count);
                }
            }
        }
    }
}

#[test]
fn largest_exact_whole_numbers() {
    assert_eq!(parse_memory_limit("9007199254740992").ok(), Some(1 << 53));
    assert_eq!(parse_memory_limit("9007199254740992K").ok(), Some(1 << 63));
    assert_eq!(parse_memory_limit("9007199254740992M").ok(), Some(u64::MAX));
    assert_eq!(effective_budget(3_002_399_751_580_330), 2_251_799_813_685_247);
}

#[test]
fn flush_interval_stays_in_bounds() {
    assert_eq!(flush_interval(0), 10_000);
    assert_eq!(flush_interval(4 * 38 * 10_000), 10_000);
    assert_eq!(flush_interval(4 * 38 * 10_001), 10_001);
    assert_eq!(flush_interval(4 * 38 * 12_345 + 151), 12_345);
    assert_eq!(flush_interval(4 * 38 * 500_000), 500_000);
    assert_eq!(flush_interval(12 << 30), 500_000);
    assert_eq!(flush_interval(u64::MAX), 500_000);
}

#[test]
fn files_are_read_whole_if_they_fit_half_the_budget() {
    assert_eq!(plan_read(0, 0), ReadPlan::Whole);
    assert_eq!(plan_read(100_000, 24_000_000), ReadPlan::Whole);
    assert_eq!(plan_read(100_001, 24_000_000), ReadPlan::Batched { batch_size: 100_000 });
    assert_eq!(plan_read(100_001, 24_000_239), ReadPlan::Batched { batch_size: 100_000 });
    assert_eq!(plan_read(100_001, 24_000_240), ReadPlan::Whole);
    assert_eq!(plan_read(1_000_000, 1_000_000), ReadPlan::Batched { batch_size: 4_166 });
    assert_eq!(plan_read(20_000, 240), ReadPlan::Batched { batch_size: 1 });
    assert_eq!(plan_read(20_000, 239), ReadPlan::Batched { batch_size: 1 });
    assert_eq!(plan_read(20_000, 0), ReadPlan::Batched { batch_size: 1 });
    assert_eq!(plan_read(u64::MAX / 120, 1 << 30), ReadPlan::Batched { batch_size: 4_473_924 });
}
