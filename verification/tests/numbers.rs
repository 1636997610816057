use zeta::{Binary64, SeekPattern, Zero, ZeroPort, ZeroStream};

struct Collector {
    zeros: Vec<(u64, Zero)>,
    closed: bool,
}

impl ZeroStream for Collector {
    fn is_closed(&self) -> bool {
        self.closed
    }

    fn send(&mut self, zero_number: u64, zero: Zero) {
        self.zeros.push((zero_number, zero));
    }
}

fn number(value: f64) -> Binary64 {
    Binary64::from_bits(value.to_bits())
}

fn value(base: f64, offset: u128) -> Zero {
    Zero { base: number(base), offset, precision: 115 }
}

const STEP: u128 = 1 << 101;

#[test]
fn bits_are_kept() {
    assert_eq!(number(1.0).to_bits(), 0x3ff0_0000_0000_0000);
    assert_eq!(Binary64::from_bits(17).bits, 17);
    assert_eq!(number(20.0).parts(), (5 << 50, 1026));
    assert_eq!(number(5e-324).parts(), (1, 0));
    assert_eq!(number(f64::MIN_POSITIVE).parts(), (1 << 52, 0));
    assert_eq!(number(0.0).parts(), (0, 0));
}

#[test]
fn kinds_of_numbers_are_told_apart() {
    assert!(number(1.5).is_finite());
    assert!(number(f64::MAX).is_finite());
    assert!(!number(f64::INFINITY).is_finite());
    assert!(!number(f64::NAN).is_finite());
    assert!(number(f64::NAN).is_nan());
    assert!(!number(f64::NEG_INFINITY).is_nan());
    assert!(!number(0.0).is_nan());
    assert!(number(-0.0).is_negative());
    assert!(number(-3.0).is_negative());
    assert!(!number(3.0).is_negative());
}

#[test]
fn floor_of_the_binary_logarithm() {
    assert_eq!(number(20.0).floor_log2(), Some(4));
    assert_eq!(number(16.0).floor_log2(), Some(4));
    assert_eq!(number(15.999999999999998).floor_log2(), Some(3));
    assert_eq!(number(1.0).floor_log2(), Some(0));
    assert_eq!(number(0.5).floor_log2(), Some(-1));
    assert_eq!(number(0.9999999999999999).floor_log2(), Some(-1));
    assert_eq!(number(f64::MAX).floor_log2(), Some(1023));
    assert_eq!(number(f64::MIN_POSITIVE).floor_log2(), Some(-1022));
    assert_eq!(number(5e-324).floor_log2(), Some(-1074));
    assert_eq!(number(1.5e-323).floor_log2(), Some(-1073));
    assert_eq!(number(0.0).floor_log2(), None);
    assert_eq!(number(-0.0).floor_log2(), None);
    assert_eq!(number(-4.0).floor_log2(), None);
    assert_eq!(number(f64::INFINITY).floor_log2(), None);
    assert_eq!(number(f64::NAN).floor_log2(), None);
}

#[test]
fn numbers_are_compared_by_their_values() {
    let ordered = [
        -f64::MAX,
        -1e300,
        -2.5,
        -1.0,
        -f64::MIN_POSITIVE,
        -5e-324,
        0.0,
        5e-324,
        f64::MIN_POSITIVE,
        0.1,
        1.0,
        1.0000000000000002,
        14.134725141734695,
        1e22,
        f64::MAX,
    ];
    for (i, a) in ordered.iter().enumerate() {
        for (j, b) in ordered.iter().enumerate() {
            assert_eq!(number(*a).less_than(&number(*b)), i < j, "{} < {}", a, b);
        }
    }
    assert!(!number(-0.0).less_than(&number(0.0)));
    assert!(!number(0.0).less_than(&number(-0.0)));
}

#[test]
fn raised_numbers_are_compared_exactly() {
    // 10 + 5 = 15, and one step less is not 15.
    assert!(number(10.0).raised_reaches(5 * STEP, &number(15.0)));
    assert!(!number(10.0).raised_reaches(5 * STEP - 1, &number(15.0)));
    assert!(number(10.0).raised_reaches(5 * STEP + 1, &number(15.0)));
    // Below the base everything is reached.
    assert!(number(10.0).raised_reaches(0, &number(10.0)));
    assert!(number(10.0).raised_reaches(0, &number(9.999999999999998)));
    assert!(!number(10.0).raised_reaches(0, &number(10.000000000000002)));
    // The next number above 10 is 10 + 2^-49, which is 2^52 steps.
    assert!(number(10.0).raised_reaches(1 << 52, &number(10.000000000000002)));
    assert!(!number(10.0).raised_reaches((1 << 52) - 1, &number(10.000000000000002)));
    // A step is far above the smallest numbers and far below the largest.
    assert!(number(0.0).raised_reaches(1, &number(f64::MIN_POSITIVE)));
    assert!(!number(0.0).raised_reaches(0, &number(5e-324)));
    assert!(number(-5e-324).raised_reaches(1, &number(5e-324)));
    assert!(!number(0.0).raised_reaches(u128::MAX, &number(1e300)));
    assert!(number(1e300).raised_reaches(0, &number(1e300)));
    assert!(!number(1e300).raised_reaches(u128::MAX, &number(1.0000000000000002e300)));
    // All steps together are just below 2^27.
    assert!(!number(0.0).raised_reaches(u128::MAX, &number(134217728.0)));
    assert!(number(0.0).raised_reaches(u128::MAX, &number(134217727.99999999)));
    // Negative numbers.
    assert!(number(-3.0).raised_reaches(2 * STEP, &number(-1.0)));
    assert!(!number(-3.0).raised_reaches(2 * STEP - 1, &number(-1.0)));
    assert!(number(-3.0).raised_reaches(4 * STEP, &number(1.0)));
    assert!(!number(-3.0).raised_reaches(4 * STEP - 1, &number(1.0)));
    assert!(number(3.0).raised_reaches(0, &number(-1.0)));
}

#[test]
fn zeros_are_compared_with_any_threshold() {
    let zero = value(10.0, 30);
    assert!(zero.at_least(number(10.0)));
    assert!(!zero.at_least(number(15.0)));
    assert!(!zero.at_least(number(f64::NAN)));
    assert!(!zero.at_least(number(f64::INFINITY)));
    assert!(zero.at_least(number(f64::NEG_INFINITY)));
    assert!(zero.at_least(number(-0.0)));
    assert!(value(14.0, (STEP >> 3) + 1).at_least(number(14.125)));
    assert!(!value(14.0, (STEP >> 3) - 1).at_least(number(14.125)));
}

#[test]
fn port_lets_through_what_the_pattern_asks_for() {
    let mut consumer = Collector { zeros: Vec::new(), closed: false };
    let mut port = ZeroPort::new(&mut consumer, SeekPattern::StartWithZeroNumberAmount(2, 2));
    assert_eq!(port.seek_pattern(), SeekPattern::StartWithZeroNumberAmount(2, 2));
    assert!(!port.zero_ok(1, &value(10.0, 1)));
    assert!(port.zero_ok(2, &value(10.0, 2)));
    for zero_number in 0..6 {
        assert_eq!(port.is_amount_reached(), zero_number >= 4);
        assert_eq!(port.is_closed(), zero_number >= 4);
        port.send(zero_number, value(10.0, zero_number as u128));
    }
    assert_eq!(port.amount_sent(), 2);
    assert_eq!(consumer.zeros, vec![(2, value(10.0, 2)), (3, value(10.0, 3))]);
}

#[test]
fn offers_past_the_amount_change_nothing() {
    let mut consumer = Collector { zeros: Vec::new(), closed: false };
    let mut port = ZeroPort::new(&mut consumer, SeekPattern::StartWithImaginaryAmount(number(10.0), 1));
    port.send(0, value(10.0, 1));
    assert!(port.is_amount_reached());
    for _ in 0..3 {
        port.send(1, value(10.0, 2));
        assert_eq!(port.amount_sent(), 1);
    }
    assert_eq!(consumer.zeros, vec![(0, value(10.0, 1))]);
}

#[test]
fn patterns_without_an_amount_never_reach_one() {
    for pattern in [
        SeekPattern::All,
        SeekPattern::StartWithZeroNumber(0),
        SeekPattern::StartWithImaginaryPart(number(0.0)),
    ] {
        let mut consumer = Collector { zeros: Vec::new(), closed: false };
        let mut port = ZeroPort::new(&mut consumer, pattern);
        for zero_number in 0..10 {
            port.send(zero_number, value(10.0, 1));
        }
        assert!(!port.is_amount_reached());
        assert!(!port.is_closed());
        assert_eq!(port.amount_sent(), 10);
    }
}

#[test]
fn amount_of_nothing_is_reached_at_once() {
    let mut consumer = Collector { zeros: Vec::new(), closed: false };
    let mut port = ZeroPort::new(&mut consumer, SeekPattern::StartWithZeroNumberAmount(0, 0));
    assert!(port.is_closed());
    port.send(0, value(10.0, 1));
    assert!(consumer.zeros.is_empty());
}

#[test]
fn patterns_by_imaginary_part_compare_values() {
    let mut consumer = Collector { zeros: Vec::new(), closed: false };
    let mut port = ZeroPort::new(&mut consumer, SeekPattern::StartWithImaginaryPart(number(11.0)));
    port.send(0, value(10.0, STEP - 1));
    port.send(1, value(10.0, STEP));
    port.send(2, value(11.0, 0));
    port.send(3, value(10.5, STEP / 4));
    assert_eq!(consumer.zeros, vec![(1, value(10.0, STEP)), (2, value(11.0, 0))]);
}

#[test]
fn port_stays_closed_once_it_was_found_closed() {
    let mut consumer = Collector { zeros: Vec::new(), closed: true };
    let mut port = ZeroPort::new(&mut consumer, SeekPattern::All);
    assert!(port.is_closed());
    // A closed consumer is still sent what is offered.
    port.send(0, value(10.0, 1));
    assert!(port.poll());
    assert!(port.poll());
    assert!(port.is_closed());
    assert_eq!(consumer.zeros.len(), 1);
    let mut open = Collector { zeros: Vec::new(), closed: false };
    let mut port = ZeroPort::new(&mut open, SeekPattern::All);
    assert!(!port.poll());
    assert!(!port.is_closed());
}

#[test]
fn is_closed_gives_the_present_answer_of_the_consumer() {
    let mut consumer = Collector { zeros: Vec::new(), closed: true };
    {
        let mut port = ZeroPort::new(&mut consumer, SeekPattern::All);
        assert!(port.poll());
        assert!(port.is_closed());
        // The consumer opens again: the poll keeps its answer, the port asks anew.
        port.out_stream.closed = false;
        assert!(!port.is_closed());
        assert!(port.poll());
    }
    let mut port = ZeroPort::new(&mut consumer, SeekPattern::StartWithZeroNumberAmount(0, 1));
    assert!(!port.is_closed());
    port.send(0, value(10.0, 1));
    assert!(port.is_closed());
}
