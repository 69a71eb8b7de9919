use noise_cdf::arith::{checked_power, factorial};
use noise_cdf::irwin_hall::{cdf_irwin_hall, CdfError, Ratio};
use noise_cdf::subsets::{
    subset_contains, subset_count, subset_is_odd, subset_of, MAX_VARIABLES,
};

fn value(r: Result<Ratio, CdfError>) -> f64 {
    let q = r.unwrap();
    assert!(q.den > 0);
    q.num as f64 / q.den as f64
}

/// The closed form in double precision, for weights `w` and values `u`.
fn closed_form(w: &[f64], u: &[f64]) -> f64 {
    let n = w.len();
    let x: f64 = w.iter().zip(u.iter()).map(|(a, b)| a * b).sum();
    let mut y = 0.0;
    for subset in 0u32..(1 << n) {
        let z: f64 = (0..n).filter(|i| subset & (1 << i) != 0).map(|i| w[i]).sum();
        let term = (x - z).max(0.0).powi(n as i32);
        y += if subset.count_ones() % 2 == 0 { term } else { -term };
    }
    y / w.iter().product::<f64>() / (1..=n).map(|k| k as f64).product::<f64>()
}

#[test]
fn single_unit_weight_is_the_identity() {
    assert_eq!(cdf_irwin_hall(&[1], [0], 2), Ok(Ratio { num: 0, den: 2 }));
    assert_eq!(cdf_irwin_hall(&[1], [1], 2), Ok(Ratio { num: 1, den: 2 }));
    assert_eq!(cdf_irwin_hall(&[1], [2], 2), Ok(Ratio { num: 2, den: 2 }));
    assert_eq!(value(cdf_irwin_hall(&[1], [0], 2)), 0.0);
    assert_eq!(value(cdf_irwin_hall(&[1], [1], 2)), 0.5);
    assert_eq!(value(cdf_irwin_hall(&[1], [2], 2)), 1.0);
}

#[test]
fn single_weight_of_any_size_is_the_identity() {
    for a in [1u32, 2, 7, 1000, u32::MAX] {
        for s in 0..=10u32 {
            let q = cdf_irwin_hall(&[a], [s], 10).unwrap();
            assert_eq!(q.num * 10, q.den * s as i128);
        }
    }
}

#[test]
fn two_equal_weights_have_median_one_half() {
    assert_eq!(cdf_irwin_hall(&[1, 1], [1, 1], 2), Ok(Ratio { num: 4, den: 8 }));
    assert_eq!(value(cdf_irwin_hall(&[1, 1], [1, 1], 2)), 0.5);
    for s in 0..=8u32 {
        assert_eq!(value(cdf_irwin_hall(&[5, 5], [s, 8 - s], 8)), 0.5);
    }
}

#[test]
fn two_unequal_weights_exact_value() {
    assert_eq!(cdf_irwin_hall(&[1, 2], [1, 1], 2), Ok(Ratio { num: 8, den: 16 }));
    assert_eq!(cdf_irwin_hall(&[1, 2], [2, 2], 2), Ok(Ratio { num: 16, den: 16 }));
    assert_eq!(cdf_irwin_hall(&[1, 2], [0, 0], 2), Ok(Ratio { num: 0, den: 16 }));
    assert_eq!(cdf_irwin_hall(&[1, 2], [2, 0], 2), Ok(Ratio { num: 4, den: 16 }));
    assert_eq!(cdf_irwin_hall(&[1, 2], [0, 2], 2), Ok(Ratio { num: 12, den: 16 }));
}

#[test]
fn three_equal_weights_exact_value() {
    assert_eq!(cdf_irwin_hall(&[1, 1, 1], [1, 1, 1], 2), Ok(Ratio { num: 24, den: 48 }));
    assert_eq!(cdf_irwin_hall(&[1, 1, 1], [2, 0, 0], 2), Ok(Ratio { num: 8, den: 48 }));
    assert_eq!(cdf_irwin_hall(&[1, 1, 1], [2, 2, 2], 2), Ok(Ratio { num: 48, den: 48 }));
}

#[test]
fn no_variable_at_all() {
    assert_eq!(cdf_irwin_hall(&[], [], 1), Ok(Ratio { num: 1, den: 1 }));
    assert_eq!(cdf_irwin_hall(&[], [], 77), Ok(Ratio { num: 1, den: 1 }));
}

#[test]
fn result_stays_between_zero_and_one() {
    let weights = [3u32, 1, 2];
    for s0 in 0..=4u32 {
        for s1 in 0..=4u32 {
            for s2 in 0..=4u32 {
                let q = cdf_irwin_hall(&weights, [s0, s1, s2], 4).unwrap();
                assert_eq!(q.den, 64 * 6 * 6);
                assert!(0 <= q.num && q.num <= q.den);
            }
        }
    }
}

#[test]
fn result_rises_with_each_sample() {
    let weights = [2u32, 5, 1, 3];
    let mut last = -1.0;
    for s in 0..=6u32 {
        let v = value(cdf_irwin_hall(&weights, [s, 3, s, 6 - s / 2], 6));
        assert!(v >= last);
        last = v;
    }
}

#[test]
fn result_agrees_with_the_closed_form() {
    let cases: Vec<(Vec<u32>, Vec<u32>, u32)> = vec![
        (vec![1, 2], vec![3, 1], 4),
        (vec![7, 3], vec![10, 90], 100),
        (vec![4, 4], vec![1, 2], 3),
    ];
    for (w, s, scale) in cases {
        let exact = value(cdf_irwin_hall(&[w[0], w[1]], [s[0], s[1]], scale));
        let wf: Vec<f64> = w.iter().map(|a| *a as f64).collect();
        let uf: Vec<f64> = s.iter().map(|v| *v as f64 / scale as f64).collect();
        assert!((exact - closed_form(&wf, &uf)).abs() < 1e-12);
    }
    let w = [2u32, 3, 5, 7, 11];
    for k in 0..=20u32 {
        let s = [k, 20 - k, (3 * k) % 21, 10, (7 * k + 4) % 21];
        let exact = value(cdf_irwin_hall(&w, s, 20));
        let wf: Vec<f64> = w.iter().map(|a| *a as f64).collect();
        let uf: Vec<f64> = s.iter().map(|v| *v as f64 / 20.0).collect();
        let approx = closed_form(&wf, &uf);
        assert!((exact - approx).abs() < 1e-9, "{} against {}", exact, approx);
        assert!((0.0..=1.0).contains(&exact));
    }
}

#[test]
fn result_does_not_depend_on_the_unit_of_the_weights() {
    let a = value(cdf_irwin_hall(&[1, 2, 3], [5, 1, 7], 8));
    let b = value(cdf_irwin_hall(&[10, 20, 30], [5, 1, 7], 8));
    let c = value(cdf_irwin_hall(&[1, 2, 3], [10, 2, 14], 16));
    assert_eq!(a, b);
    assert_eq!(a, c);
}

#[test]
fn zero_scale_is_refused() {
    assert_eq!(cdf_irwin_hall(&[1, 2], [0, 0], 0), Err(CdfError::ZeroScale));
    assert_eq!(cdf_irwin_hall(&[0, 2], [5, 0], 0), Err(CdfError::ZeroScale));
    assert_eq!(cdf_irwin_hall(&[], [], 0), Err(CdfError::ZeroScale));
}

#[test]
fn zero_weight_is_refused() {
    assert_eq!(cdf_irwin_hall(&[0], [1], 2), Err(CdfError::ZeroWeight));
    assert_eq!(cdf_irwin_hall(&[3, 0, 4], [1, 1, 1], 2), Err(CdfError::ZeroWeight));
    assert_eq!(cdf_irwin_hall(&[3, 4, 0], [9, 1, 1], 2), Err(CdfError::ZeroWeight));
    assert_eq!(cdf_irwin_hall(&[0u32; 40], [0u32; 40], 2), Err(CdfError::ZeroWeight));
}

#[test]
fn sample_above_scale_is_refused() {
    assert_eq!(cdf_irwin_hall(&[1], [3], 2), Err(CdfError::SampleAboveScale));
    assert_eq!(cdf_irwin_hall(&[1, 1], [2, 3], 2), Err(CdfError::SampleAboveScale));
    assert_eq!(cdf_irwin_hall(&[1u32; 40], [9u32; 40], 2), Err(CdfError::SampleAboveScale));
}

#[test]
fn too_large_evaluations_are_refused() {
    assert_eq!(cdf_irwin_hall(&[1u32; 32], [0u32; 32], 1), Err(CdfError::TooLarge));
    assert_eq!(MAX_VARIABLES, 31);
    let big = u32::MAX;
    assert_eq!(cdf_irwin_hall(&[big; 4], [big; 4], big), Err(CdfError::TooLarge));
    assert_eq!(cdf_irwin_hall(&[big, big], [0, 0], big), Err(CdfError::TooLarge));
    assert!(cdf_irwin_hall(&[big], [big], big).is_ok());
    assert!(cdf_irwin_hall(&[1u32; 14], [0u32; 14], 1).is_ok());
    assert_eq!(cdf_irwin_hall(&[1u32; 14], [100u32; 14], 100), Err(CdfError::TooLarge));
}

#[test]
fn factorial_values() {
    assert_eq!(factorial(0), Some(1));
    assert_eq!(factorial(1), Some(1));
    assert_eq!(factorial(5), Some(120));
    assert_eq!(factorial(12), Some(479_001_600));
    assert_eq!(factorial(13), None);
    assert_eq!(factorial(u32::MAX), None);
}

#[test]
fn checked_power_values() {
    assert_eq!(checked_power(2, 10), Some(1024));
    assert_eq!(checked_power(0, 0), Some(1));
    assert_eq!(checked_power(0, 5), Some(0));
    assert_eq!(checked_power(1, usize::MAX >> 40), Some(1));
    assert_eq!(checked_power(7, 1), Some(7));
    assert_eq!(checked_power(3, 4), Some(81));
    assert_eq!(checked_power(2, 126), Some(1i128 << 126));
    assert_eq!(checked_power(2, 127), None);
    assert_eq!(checked_power(10, 40), None);
    assert_eq!(checked_power(i128::MAX, 1), Some(i128::MAX));
    assert_eq!(checked_power(i128::MAX, 2), None);
}

#[test]
fn subsets_are_read_from_binary_digits() {
    assert_eq!(subset_count(0), 1);
    assert_eq!(subset_count(1), 2);
    assert_eq!(subset_count(5), 32);
    assert_eq!(subset_count(31), 0x8000_0000);
    for mask in 0u32..64 {
        for k in 0..32u32 {
            assert_eq!(subset_contains(mask, k), mask & (1 << k) != 0);
        }
        assert_eq!(subset_is_odd(mask, 6), mask.count_ones() % 2 == 1);
        assert_eq!(subset_is_odd(mask, 3), (mask & 7).count_ones() % 2 == 1);
        assert!(!subset_is_odd(mask, 0));
    }
    assert_eq!(subset_of(&[10, 20, 40], 0), (0, false));
    assert_eq!(subset_of(&[10, 20, 40], 5), (50, false));
    assert_eq!(subset_of(&[10, 20, 40], 7), (70, true));
    assert_eq!(subset_of(&[10, 20, 40], 0xffff_fffa), (20, true));
    assert_eq!(subset_of(&[10, 20, 40], 0xffff_fffe), (60, false));
    assert_eq!(subset_of(&[u32::MAX; 31], 0x7fff_ffff), (31 * u32::MAX as i128, true));
    assert!(subset_contains(0x8000_0000, 31));
    assert!(subset_is_odd(0x8000_0000, 32));
    assert!(!subset_is_odd(0x8000_0000, 31));
}

#[test]
fn result_is_zero_at_the_lower_end_and_one_at_the_upper() {
    assert_eq!(cdf_irwin_hall(&[3], [0], 5).unwrap().num, 0);
    assert_eq!(cdf_irwin_hall(&[3, 9], [0, 0], 5).unwrap().num, 0);
    assert_eq!(cdf_irwin_hall(&[3, 9, 1, 4], [0, 0, 0, 0], 5).unwrap().num, 0);
    for n in [[1u32, 1, 1, 1, 1], [2, 3, 5, 7, 11], [9, 1, 9, 1, 9]] {
        let q = cdf_irwin_hall(&n, [6; 5], 6).unwrap();
        assert_eq!(q.num, q.den);
        assert_eq!(q.den, 6i128.pow(5) * n.iter().map(|a| *a as i128).product::<i128>() * 120);
    }
}

#[test]
fn result_does_not_fall_when_a_sample_rises() {
    let weights = [4u32, 1, 6];
    for s0 in 0..5u32 {
        for s1 in 0..=5u32 {
            for s2 in 0..=5u32 {
                let low = cdf_irwin_hall(&weights, [s0, s1, s2], 5).unwrap();
                let high = cdf_irwin_hall(&weights, [s0 + 1, s1, s2], 5).unwrap();
                assert_eq!(low.den, high.den);
                assert!(low.num <= high.num);
            }
        }
    }
}
