use arith_table::model::{CumulativeModel, Model};

fn custom(values: &[u16], threshold: u32) -> Model {
    let v: Vec<u16> = values.to_vec();
    Model::new_custom(v.len(), threshold, move |i: usize| v[i])
}

#[test]
fn flat_model_starts_uniform_and_adapts() {
    let mut m = Model::new_flat(4, 1000);
    assert_eq!(m.get_frequencies(), &[1, 1, 1, 1]);
    assert_eq!(m.get_denominator(), 4);
    m.update(0, 10, 1);
    assert_eq!(m.get_frequencies(), &[2, 1, 1, 1]);
    assert_eq!(m.get_denominator(), 5);
}

#[test]
fn downscale_rounds_up() {
    let mut m = custom(&[5, 3, 0, 1], 1000);
    m.downscale();
    assert_eq!(m.get_frequencies(), &[3, 2, 0, 1]);
    assert_eq!(m.get_denominator(), 6);
}

#[test]
fn custom_init_is_downscaled_under_threshold() {
    let m = custom(&[1000, 1000], 100);
    assert_eq!(m.get_frequencies(), &[32, 32]);
    assert_eq!(m.get_denominator(), 64);
}

#[test]
fn custom_init_under_threshold_is_kept() {
    let m = custom(&[7, 0, 2], 100);
    assert_eq!(m.get_frequencies(), &[7, 0, 2]);
    assert_eq!(m.get_denominator(), 9);
}

#[test]
fn update_rescales_until_under_threshold() {
    let mut m = Model::new_flat(4, 10);
    m.update(0, 0, 1);
    assert_eq!(m.get_frequencies(), &[6, 1, 1, 1]);
    assert_eq!(m.get_denominator(), 9);
    m.update(0, 0, 0);
    assert_eq!(m.get_frequencies(), &[4, 1, 1, 1]);
    assert_eq!(m.get_denominator(), 7);
}

#[test]
fn update_with_large_shift_adds_the_constant() {
    let mut m = Model::new_flat(3, 1000);
    m.update(2, 31, 7);
    assert_eq!(m.get_frequencies(), &[1, 1, 8]);
    assert_eq!(m.get_denominator(), 10);
}

#[test]
fn reset_restores_flat() {
    let mut m = custom(&[9, 4, 0, 2], 100);
    m.reset_flat();
    assert_eq!(m.get_frequencies(), &[1, 1, 1, 1]);
    assert_eq!(m.get_denominator(), 4);
}

#[test]
fn ranges_partition_the_total() {
    let m = custom(&[3, 0, 5, 1], 100);
    assert_eq!(m.get_range(0), (0, 3));
    assert_eq!(m.get_range(1), (3, 3));
    assert_eq!(m.get_range(2), (3, 8));
    assert_eq!(m.get_range(3), (8, 9));
    for v in 0..3 {
        assert_eq!(m.get_range(v).1, m.get_range(v + 1).0);
    }
}

#[test]
fn find_is_the_inverse_of_range() {
    let m = custom(&[3, 0, 5, 1], 100);
    for offset in 0..m.get_denominator() {
        let (v, lo, hi) = m.find_value(offset);
        assert!(lo <= offset && offset < hi);
        assert_eq!(m.get_range(v), (lo, hi));
    }
    assert_eq!(m.find_value(3), (2, 3, 8));
    assert_eq!(m.find_value(8), (3, 8, 9));
}
