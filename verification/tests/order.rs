use stats::{sorted_positions, Double};

fn double(x: f64) -> Double {
    Double::from_bits(x.to_bits())
}

fn sample(numbers: &[f64]) -> Vec<Double> {
    numbers.iter().map(|x| double(*x)).collect()
}

fn ladder() -> Vec<f64> {
    vec![
        f64::NEG_INFINITY,
        f64::MIN,
        -1.0e300,
        -2.5,
        -2.0,
        -1.0000000000000002,
        -1.0,
        -0.5,
        -f64::MIN_POSITIVE,
        -f64::from_bits(0x000f_ffff_ffff_ffff),
        -f64::from_bits(1),
        -0.0,
        0.0,
        f64::from_bits(1),
        f64::from_bits(2),
        f64::from_bits(0x000f_ffff_ffff_ffff),
        f64::MIN_POSITIVE,
        0.5,
        1.0,
        1.0000000000000002,
        2.0,
        2.5,
        1.0e300,
        f64::MAX,
        f64::INFINITY,
    ]
}

#[test]
fn pattern_is_kept() {
    assert_eq!(0x4004_0000_0000_0000, Double::from_bits(0x4004_0000_0000_0000).to_bits());
    assert_eq!(2.5f64.to_bits(), double(2.5).to_bits());
    assert_eq!(0x4004_0000_0000_0000, double(2.5).bits);
    assert_eq!(u64::MAX, Double::from_bits(u64::MAX).to_bits());
}

#[test]
fn precedes_is_less_than_among_numbers() {
    let numbers = ladder();
    for a in numbers.iter() {
        for b in numbers.iter() {
            assert_eq!(a < b, double(*a).precedes(double(*b)), "{} before {}", a, b);
        }
    }
}

#[test]
fn precedes_on_chosen_numbers() {
    assert!(double(1.0).precedes(double(2.0)));
    assert!(!double(2.0).precedes(double(1.0)));
    assert!(!double(1.0).precedes(double(1.0)));
    assert!(double(-2.0).precedes(double(-1.0)));
    assert!(!double(-1.0).precedes(double(-2.0)));
    assert!(double(-1.0).precedes(double(1.0)));
    assert!(!double(1.0).precedes(double(-1.0)));
    assert!(double(f64::MAX).precedes(double(f64::INFINITY)));
    assert!(double(f64::NEG_INFINITY).precedes(double(f64::MIN)));
}

#[test]
fn neither_zero_precedes_the_other() {
    assert!(!double(0.0).precedes(double(-0.0)));
    assert!(!double(-0.0).precedes(double(0.0)));
    assert!(double(-0.0).precedes(double(f64::from_bits(1))));
    assert!(double(-f64::from_bits(1)).precedes(double(-0.0)));
    assert!(double(-f64::from_bits(1)).precedes(double(0.0)));
}

#[test]
fn every_number_precedes_a_nan() {
    let nans = [f64::NAN, -f64::NAN, f64::from_bits(0x7ff0_0000_0000_0001), f64::from_bits(u64::MAX)];
    for nan in nans.iter() {
        assert!(nan.is_nan());
        for x in ladder().iter() {
            assert!(double(*x).precedes(double(*nan)));
            assert!(!double(*nan).precedes(double(*x)));
        }
        for other in nans.iter() {
            assert!(!double(*nan).precedes(double(*other)));
        }
    }
}

#[test]
fn sorted_positions_of_empty_sample() {
    assert_eq!(Vec::<usize>::new(), sorted_positions(&[]));
}

#[test]
fn sorted_positions_of_a_sample() {
    assert_eq!(vec![0], sorted_positions(&sample(&[4.0])));
    assert_eq!(vec![1, 2, 0], sorted_positions(&sample(&[3.0, 1.0, 2.0])));
    assert_eq!(vec![4, 1, 0, 6, 5, 2, 3], sorted_positions(&sample(&[0.0, -1.0, 1.0, 3.0, -3.0, 0.5, 0.2])));
    assert_eq!(vec![4, 3, 2, 1, 0], sorted_positions(&sample(&[5.0, 4.0, 3.0, 2.0, 1.0])));
}

#[test]
fn sorted_positions_keep_equal_numbers_in_their_order() {
    assert_eq!(vec![1, 3, 0, 2], sorted_positions(&sample(&[1.0, 0.0, 1.0, 0.0])));
    assert_eq!(vec![0, 1, 2], sorted_positions(&sample(&[0.0, -0.0, 0.0])));
    assert_eq!(vec![1, 2, 0, 3], sorted_positions(&sample(&[f64::NAN, -0.0, 0.0, -f64::NAN])));
}

#[test]
fn sorted_positions_of_the_ladder() {
    let numbers = ladder();
    let forward: Vec<usize> = (0..numbers.len()).collect();
    assert_eq!(forward, sorted_positions(&sample(&numbers)));
    let mut reversed = numbers.clone();
    reversed.reverse();
    let order = sorted_positions(&sample(&reversed));
    let read: Vec<f64> = order.iter().map(|i| reversed[*i]).collect();
    assert_eq!(numbers, read);
    // The two zeros are equal, and the one that stood first stays first.
    assert_eq!(0.0f64.to_bits(), read[11].to_bits());
    assert_eq!((-0.0f64).to_bits(), read[12].to_bits());
}

#[test]
fn sorted_positions_list_each_position_once() {
    let mut state: u64 = 12345;
    let mut numbers: Vec<f64> = Vec::new();
    for _ in 0..1000 {
        state = state.wrapping_mul(6364136223846793005).wrapping_add(1442695040888963407);
        numbers.push(((state >> 56) as f64) - 128.0);
    }
    let order = sorted_positions(&sample(&numbers));
    assert_eq!(numbers.len(), order.len());
    let mut seen = vec![false; numbers.len()];
    for i in order.iter() {
        assert!(!seen[*i]);
        seen[*i] = true;
    }
    for pair in order.windows(2) {
        let (a, b) = (pair[0], pair[1]);
        assert!(numbers[a] < numbers[b] || (numbers[a] == numbers[b] && a < b));
    }
}

#[test]
fn precedes_agrees_with_the_machine_on_many_patterns() {
    let mut state: u64 = 0x2545_f491_4f6c_dd1d;
    let mut patterns: Vec<u64> = Vec::new();
    for _ in 0..400 {
        state = state.wrapping_mul(6364136223846793005).wrapping_add(1442695040888963407);
        patterns.push(state);
        // Patterns near the ends of the exponent range, of both signs.
        patterns.push(state & 0x800f_ffff_ffff_ffff);
        patterns.push(state | 0x7ff0_0000_0000_0000);
        patterns.push((state & 0x8000_0000_0000_000f) | 0x7ff0_0000_0000_0000);
    }
    for p in patterns.iter() {
        for q in patterns.iter() {
            let (x, y) = (f64::from_bits(*p), f64::from_bits(*q));
            let expected = !x.is_nan() && (y.is_nan() || x < y);
            assert_eq!(expected, Double::from_bits(*p).precedes(Double::from_bits(*q)));
        }
    }
}
