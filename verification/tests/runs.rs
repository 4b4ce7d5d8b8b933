use nistrs::bits::BitsData;
use nistrs::balance::is_unbalanced;
use nistrs::runs::{count_runs, runs_plan, RunsPlan};

const THRESHOLD: f64 = 0.01;

const KNOWN_VECTOR: &str = "11001001000011111101101010100010001000010110100011000010001101001100010011000110011000101000101110000000";

fn bits_of(text: &str) -> BitsData {
    BitsData::from_bits(text.chars().map(|c| c == '1').collect())
}

fn alternating_from(first: bool, n: usize) -> BitsData {
    BitsData::from_bits((0..n).map(|i| (i % 2 == 0) == first).collect())
}

fn verdict(plan: RunsPlan) -> (bool, f64) {
    match plan {
        RunsPlan::Unbalanced | RunsPlan::Constant => (false, 0.0),
        RunsPlan::Evaluate { n, ones, runs } => {
            let pi = (ones as f64) / (n as f64);
            if (pi - 0.5).abs() > (2.0 / (n as f64).sqrt()) {
                return (false, 0.0);
            }
            let erfc_arg = ((runs as f64) - 2_f64 * (n as f64) * pi * (1_f64 - pi)).abs()
                / (2_f64 * pi * (1_f64 - pi) * (2_f64 * (n as f64)).sqrt());
            let p = libm::erfc(erfc_arg);
            (p >= THRESHOLD, p)
        }
    }
}

#[test]
fn known_vector_counts() {
    let data = bits_of(KNOWN_VECTOR);
    assert_eq!(data.len(), 104);
    assert_eq!(data.ones(), 42);
    assert_eq!(count_runs(&data), 52);
    assert_eq!(runs_plan(&data), RunsPlan::Evaluate { n: 104, ones: 42, runs: 52 });
}

#[test]
fn known_vector_p_value() {
    let (passed, p) = verdict(runs_plan(&bits_of(KNOWN_VECTOR)));
    assert_eq!(p, 0.6953317934158357);
    assert!(passed);
}

#[test]
fn known_vector_twice_gives_identical_output() {
    let data = bits_of(KNOWN_VECTOR);
    let first = runs_plan(&data);
    let second = runs_plan(&data);
    assert_eq!(first, second);
    let (passed_a, p_a) = verdict(first);
    let (passed_b, p_b) = verdict(second);
    assert_eq!(passed_a, passed_b);
    assert_eq!(p_a.to_bits(), p_b.to_bits());
}

#[test]
fn p_value_is_a_probability_and_decides_the_verdict() {
    let texts = [
        KNOWN_VECTOR,
        "1001101011",
        "10",
        "0110",
        "1111000011110000",
        "1010101010101010101010101010",
        "000000000011111111110000000000111111111100000000001111111111",
    ];
    for text in texts {
        let (passed, p) = verdict(runs_plan(&bits_of(text)));
        assert!(p >= 0.0 && p <= 1.0);
        assert_eq!(passed, p >= THRESHOLD);
    }
}

#[test]
fn ten_bit_example() {
    let data = bits_of("1001101011");
    assert_eq!(runs_plan(&data), RunsPlan::Evaluate { n: 10, ones: 6, runs: 7 });
    let (passed, p) = verdict(runs_plan(&data));
    assert!(passed);
    assert!((p - 0.147232).abs() < 1e-6);
}

#[test]
fn alternating_sequence_has_as_many_runs_as_bits() {
    let data = bits_of("1010101010");
    assert_eq!(count_runs(&data), 10);
    assert_eq!(runs_plan(&data), RunsPlan::Evaluate { n: 10, ones: 5, runs: 10 });
    assert_eq!(count_runs(&alternating_from(false, 257)), 257);
    assert_eq!(count_runs(&alternating_from(true, 1000)), 1000);
}

#[test]
fn constant_sequence_is_one_run() {
    assert_eq!(count_runs(&BitsData::from_bits(vec![true; 10])), 1);
    assert_eq!(count_runs(&BitsData::from_bits(vec![false; 10])), 1);
    assert_eq!(count_runs(&BitsData::from_bits(vec![false; 1000])), 1);
}

#[test]
fn count_runs_of_mixed_sequences() {
    assert_eq!(count_runs(&bits_of("")), 0);
    assert_eq!(count_runs(&bits_of("0")), 1);
    assert_eq!(count_runs(&bits_of("01")), 2);
    assert_eq!(count_runs(&bits_of("0011")), 2);
    assert_eq!(count_runs(&bits_of("0010")), 3);
    assert_eq!(count_runs(&bits_of("1100010")), 4);
}

#[test]
fn short_constant_sequence_is_constant() {
    assert_eq!(runs_plan(&BitsData::from_bits(vec![true; 10])), RunsPlan::Constant);
    assert_eq!(runs_plan(&BitsData::from_bits(vec![false; 10])), RunsPlan::Constant);
    assert_eq!(runs_plan(&BitsData::from_bits(vec![true; 16])), RunsPlan::Constant);
    assert_eq!(runs_plan(&BitsData::from_bits(vec![false; 16])), RunsPlan::Constant);
}

#[test]
fn long_constant_sequence_is_unbalanced() {
    assert_eq!(runs_plan(&BitsData::from_bits(vec![true; 17])), RunsPlan::Unbalanced);
    assert_eq!(runs_plan(&BitsData::from_bits(vec![false; 17])), RunsPlan::Unbalanced);
    assert_eq!(runs_plan(&BitsData::from_bits(vec![true; 500])), RunsPlan::Unbalanced);
}

#[test]
fn single_bit_is_constant_and_fails_with_zero() {
    for bit in [false, true] {
        let plan = runs_plan(&BitsData::from_bits(vec![bit]));
        assert_eq!(plan, RunsPlan::Constant);
        let (passed, p) = verdict(plan);
        assert!(!passed);
        assert_eq!(p.to_bits(), 0.0_f64.to_bits());
    }
}

#[test]
fn unbalanced_sequence_fails_with_zero() {
    let mut bits = vec![true; 71];
    bits.extend(vec![false; 29]);
    let plan = runs_plan(&BitsData::from_bits(bits));
    assert_eq!(plan, RunsPlan::Unbalanced);
    let (passed, p) = verdict(plan);
    assert!(!passed);
    assert_eq!(p.to_bits(), 0.0_f64.to_bits());
}

#[test]
fn rounding_on_the_bound_fails_with_zero() {
    let mut bits = vec![true; 30];
    bits.extend(vec![false; 6]);
    let plan = runs_plan(&BitsData::from_bits(bits));
    assert_eq!(plan, RunsPlan::Evaluate { n: 36, ones: 30, runs: 2 });
    let (passed, p) = verdict(plan);
    assert!(!passed);
    assert_eq!(p.to_bits(), 0.0_f64.to_bits());
}

#[test]
fn sequence_on_the_bound_is_evaluated() {
    let mut bits = vec![true; 70];
    bits.extend(vec![false; 30]);
    assert_eq!(
        runs_plan(&BitsData::from_bits(bits)),
        RunsPlan::Evaluate { n: 100, ones: 70, runs: 2 }
    );
}

#[test]
fn unbalanced_bound_is_strict() {
    assert!(!is_unbalanced(100, 50));
    assert!(!is_unbalanced(100, 70));
    assert!(is_unbalanced(100, 71));
    assert!(!is_unbalanced(100, 30));
    assert!(is_unbalanced(100, 29));
    assert!(!is_unbalanced(36, 30));
    assert!(is_unbalanced(36, 31));
    assert!(!is_unbalanced(36, 6));
    assert!(is_unbalanced(36, 5));
    assert!(!is_unbalanced(104, 42));
}

#[test]
fn unbalanced_small_lengths() {
    assert!(!is_unbalanced(0, 0));
    assert!(!is_unbalanced(1, 0));
    assert!(!is_unbalanced(1, 1));
    assert!(!is_unbalanced(16, 0));
    assert!(!is_unbalanced(16, 16));
    assert!(is_unbalanced(17, 0));
    assert!(is_unbalanced(17, 17));
}

#[test]
fn unbalanced_at_the_machine_limits() {
    assert!(is_unbalanced(usize::MAX, 0));
    assert!(is_unbalanced(usize::MAX, usize::MAX));
    assert!(is_unbalanced(0, usize::MAX));
    assert!(!is_unbalanced(usize::MAX, usize::MAX / 2));
    assert!(!is_unbalanced(1 << 40, 1 << 39));
    assert!(!is_unbalanced(1 << 40, (1 << 39) + (1 << 21)));
    assert!(is_unbalanced(1 << 40, (1 << 39) + (1 << 21) + 1));
}
