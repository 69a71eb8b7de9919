use noise_cdf::grid::{GridSize, Vec2};
use noise_cdf::uniform::{
    collect_samples, try_uniform_noise, try_uniformize, uniform_noise, uniformize, Fraction,
    InverseCdf,
};
use std::cell::RefCell;

fn bits(values: &[Option<f32>]) -> Vec<Option<u32>> {
    values.iter().map(|v| v.map(f32::to_bits)).collect()
}

fn as_floats(grid: &InverseCdf) -> Vec<(f32, f32)> {
    grid.iter()
        .map(|(fraction, value)| {
            (fraction.num as f32 / fraction.den as f32, f32::from_bits(*value))
        })
        .collect()
}

fn ranks(grid: &InverseCdf) -> Vec<usize> {
    grid.iter().map(|(fraction, _)| fraction.num).collect()
}

#[test]
fn all_samples_absent_gives_zero_pairs() {
    let out = uniformize(&bits(&[None, None, None, None]));
    assert_eq!(out.len(), 4);
    for cell in &out {
        assert_eq!(*cell, (Fraction { num: 0, den: 1 }, 0));
    }
    assert_eq!(as_floats(&out), vec![(0.0, 0.0); 4]);
}

#[test]
fn three_samples_are_ranked() {
    let out = uniformize(&bits(&[Some(0.5), Some(0.1), Some(0.9)]));
    assert_eq!(
        out,
        vec![
            (Fraction { num: 2, den: 3 }, 0.5f32.to_bits()),
            (Fraction { num: 1, den: 3 }, 0.1f32.to_bits()),
            (Fraction { num: 3, den: 3 }, 0.9f32.to_bits()),
        ]
    );
    assert_eq!(
        as_floats(&out),
        vec![(2.0 / 3.0, 0.5), (1.0 / 3.0, 0.1), (3.0 / 3.0, 0.9)]
    );
}

#[test]
fn empty_grid_gives_empty_result() {
    assert_eq!(uniformize(&Vec::new()), Vec::new());
}

#[test]
fn single_sample_has_fraction_one() {
    let out = uniformize(&bits(&[Some(-3.5)]));
    assert_eq!(out, vec![(Fraction { num: 1, den: 1 }, (-3.5f32).to_bits())]);
}

#[test]
fn equal_samples_are_ranked_by_index() {
    let out = uniformize(&bits(&[Some(7.0), Some(7.0), Some(7.0), Some(7.0)]));
    assert_eq!(ranks(&out), vec![1, 2, 3, 4]);
    for (fraction, value) in &out {
        assert_eq!(fraction.den, 4);
        assert_eq!(*value, 7.0f32.to_bits());
    }
    assert_eq!(
        as_floats(&out).iter().map(|c| c.0).collect::<Vec<_>>(),
        vec![0.25, 0.5, 0.75, 1.0]
    );
}

#[test]
fn both_zeros_tie_and_keep_their_patterns() {
    let out = uniformize(&bits(&[Some(0.0), Some(-0.0), Some(0.0), Some(-1.0)]));
    assert_eq!(ranks(&out), vec![2, 3, 4, 1]);
    assert_eq!(out[0].1, 0.0f32.to_bits());
    assert_eq!(out[1].1, (-0.0f32).to_bits());
}

#[test]
fn absent_cells_are_left_out_of_the_count() {
    let out = uniformize(&bits(&[None, Some(2.0), None, Some(1.0), None]));
    assert_eq!(
        out,
        vec![
            (Fraction { num: 0, den: 1 }, 0),
            (Fraction { num: 2, den: 2 }, 2.0f32.to_bits()),
            (Fraction { num: 0, den: 1 }, 0),
            (Fraction { num: 1, den: 2 }, 1.0f32.to_bits()),
            (Fraction { num: 0, den: 1 }, 0),
        ]
    );
}

#[test]
fn absent_cells_do_not_shift_other_fractions() {
    let base = [Some(0.25), Some(-4.0), Some(0.25), Some(9.0)];
    let plain = uniformize(&bits(&base));
    for at in 0..=base.len() {
        let mut with_gap = base.to_vec();
        with_gap.insert(at, None);
        let out = uniformize(&bits(&with_gap));
        assert_eq!(out[at], (Fraction { num: 0, den: 1 }, 0));
        let mut rest = out.clone();
        rest.remove(at);
        assert_eq!(rest, plain);
    }
}

#[test]
fn fractions_rise_with_the_samples() {
    let values = [3.0f32, -1.0, 2.5, f32::INFINITY, -0.0, f32::NEG_INFINITY, 1.0e-40, 2.5];
    let samples: Vec<Option<f32>> = values.iter().map(|v| Some(*v)).collect();
    let out = uniformize(&bits(&samples));
    for i in 0..values.len() {
        assert!(out[i].0.num >= 1 && out[i].0.num <= values.len());
        assert_eq!(out[i].0.den, values.len());
        for j in 0..values.len() {
            if values[i] < values[j] || (values[i] == values[j] && i < j) {
                assert!(out[i].0.num < out[j].0.num);
            }
        }
    }
    assert_eq!(ranks(&out), vec![7, 2, 5, 8, 3, 1, 4, 6]);
}

#[test]
fn least_and_greatest_fractions() {
    let out = uniformize(&bits(&[Some(4.0), None, Some(-2.0), Some(11.0), Some(4.0)]));
    let present: Vec<Fraction> = out.iter().filter(|c| c.0.num > 0).map(|c| c.0).collect();
    assert_eq!(present.len(), 4);
    assert_eq!(present.iter().map(|f| f.num).min(), Some(1));
    assert_eq!(present.iter().map(|f| f.num).max(), Some(4));
    assert_eq!(out[3].0, Fraction { num: 4, den: 4 });
    assert_eq!(out[2].0, Fraction { num: 1, den: 4 });
}

#[test]
fn uniformize_is_reproducible() {
    let samples = bits(&[Some(1.5), Some(1.5), None, Some(-8.0), Some(0.0), Some(1.5)]);
    let first = uniformize(&samples);
    let second = uniformize(&samples);
    assert_eq!(first, second);
    assert_eq!(ranks(&first), vec![3, 4, 0, 1, 2, 5]);
}

#[test]
fn uniformize_agrees_with_sorting_the_numbers() {
    let mut state: u32 = 0x9e37_79b9;
    let mut samples: Vec<Option<f32>> = Vec::new();
    for _ in 0..2000 {
        state ^= state << 13;
        state ^= state >> 17;
        state ^= state << 5;
        if state % 5 == 0 {
            samples.push(None);
        } else {
            samples.push(Some(((state >> 8) % 400) as f32 / 16.0 - 12.0));
        }
    }
    let mut present: Vec<(usize, f32)> = Vec::new();
    for (i, s) in samples.iter().enumerate() {
        if let Some(v) = s {
            present.push((i, *v));
        }
    }
    present.sort_by(|f, g| (f.1, f.0).partial_cmp(&(g.1, g.0)).unwrap());
    let total = present.len();
    let mut expected = vec![(0.0f32, 0.0f32); samples.len()];
    for (place, (i, v)) in present.into_iter().enumerate() {
        expected[i] = ((1 + place) as f32 / total as f32, v);
    }
    let out = uniformize(&bits(&samples));
    assert_eq!(as_floats(&out), expected);
}

#[test]
fn sampling_visits_every_cell_in_order() {
    let size = GridSize::new(3, 2).unwrap();
    let calls: RefCell<Vec<(usize, Vec2)>> = RefCell::new(Vec::new());
    let f = |i: usize, pos: Vec2| {
        calls.borrow_mut().push((i, pos));
        if i % 2 == 0 {
            Some((i as f32).to_bits())
        } else {
            None
        }
    };
    let samples = collect_samples(&size, Vec2 { x: 32, y: 16 }, &f);
    assert_eq!(
        samples,
        vec![
            Some(0.0f32.to_bits()),
            None,
            Some(2.0f32.to_bits()),
            None,
            Some(4.0f32.to_bits()),
            None
        ]
    );
    assert_eq!(
        *calls.borrow(),
        vec![
            (0, Vec2 { x: 0, y: 0 }),
            (1, Vec2 { x: 32, y: 0 }),
            (2, Vec2 { x: 64, y: 0 }),
            (3, Vec2 { x: 0, y: 16 }),
            (4, Vec2 { x: 32, y: 16 }),
            (5, Vec2 { x: 64, y: 16 }),
        ]
    );
}

#[test]
fn uniform_noise_ranks_what_the_function_returns() {
    let size = GridSize::new(2, 2).unwrap();
    let out = uniform_noise(&size, Vec2 { x: 32, y: 32 }, |i: usize, pos: Vec2| {
        if i == 2 {
            None
        } else {
            Some(((pos.x - pos.y) as f32).to_bits())
        }
    });
    assert_eq!(
        out,
        vec![
            (Fraction { num: 1, den: 3 }, 0.0f32.to_bits()),
            (Fraction { num: 3, den: 3 }, 32.0f32.to_bits()),
            (Fraction { num: 0, den: 1 }, 0),
            (Fraction { num: 2, den: 3 }, 0.0f32.to_bits()),
        ]
    );
}

#[test]
fn uniform_noise_with_no_sample_at_all() {
    let size = GridSize::new(2, 2).unwrap();
    let out = uniform_noise(&size, Vec2 { x: 1, y: 1 }, |_i: usize, _pos: Vec2| None);
    assert_eq!(out, vec![(Fraction { num: 0, den: 1 }, 0); 4]);
}

#[test]
fn nan_samples_are_refused() {
    assert_eq!(try_uniformize(&bits(&[Some(1.0), Some(f32::NAN), None])), None);
    assert_eq!(try_uniformize(&bits(&[Some(-f32::NAN)])), None);
    assert_eq!(try_uniformize(&vec![None, Some(0x7f80_0001)]), None);
    assert_eq!(try_uniformize(&vec![Some(0xffff_ffff), Some(0)]), None);
    let size = GridSize::new(2, 1).unwrap();
    let out = try_uniform_noise(&size, Vec2 { x: 1, y: 1 }, |i: usize, _pos: Vec2| {
        if i == 1 {
            Some(f32::NAN.to_bits())
        } else {
            Some(0)
        }
    });
    assert_eq!(out, None);
}

#[test]
fn samples_without_nan_are_ranked() {
    let samples = bits(&[Some(f32::INFINITY), None, Some(f32::NEG_INFINITY), Some(2.0)]);
    assert_eq!(try_uniformize(&samples), Some(uniformize(&samples)));
    assert_eq!(try_uniformize(&Vec::new()), Some(Vec::new()));
    let size = GridSize::new(1, 3).unwrap();
    let out = try_uniform_noise(&size, Vec2 { x: 2, y: 5 }, |_i: usize, pos: Vec2| {
        Some((-(pos.y as f32)).to_bits())
    });
    assert_eq!(
        out,
        Some(vec![
            (Fraction { num: 3, den: 3 }, (-0.0f32).to_bits()),
            (Fraction { num: 2, den: 3 }, (-5.0f32).to_bits()),
            (Fraction { num: 1, den: 3 }, (-10.0f32).to_bits()),
        ])
    );
}
