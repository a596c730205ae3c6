use arith_table::blend::SumProxy;
use arith_table::codec::{DecodeError, IntervalDecoder, IntervalEncoder};
use arith_table::model::{CumulativeModel, Model};

fn custom(values: &[u16], threshold: u32) -> Model {
    let v: Vec<u16> = values.to_vec();
    Model::new_custom(v.len(), threshold, move |i: usize| v[i])
}

#[test]
fn blend_ranges_use_the_weighted_formula() {
    let a = custom(&[4, 2, 6], 100);
    let b = custom(&[1, 3, 0], 100);
    let p = SumProxy::new(3, &a, 2, &b, 1);
    // (3 * A + 2 * B) >> 1 on the prefix sums 0, 4/1, 6/4, 12/4
    assert_eq!(p.get_range(0), (0, 7));
    assert_eq!(p.get_range(1), (7, 13));
    assert_eq!(p.get_range(2), (13, 22));
    assert_eq!(p.get_denominator(), 22);
}

#[test]
fn blend_find_is_the_inverse_of_range() {
    let a = custom(&[4, 2, 6, 1], 100);
    let b = custom(&[1, 3, 0, 5], 100);
    let p = SumProxy::new(3, &a, 5, &b, 2);
    for offset in 0..p.get_denominator() {
        let (v, lo, hi) = p.find_value(offset);
        assert!(lo <= offset && offset < hi);
        assert_eq!(p.get_range(v), (lo, hi));
    }
}

#[test]
fn blend_find_agrees_where_per_symbol_rounding_would_not() {
    let a = custom(&[1, 1], 10);
    let b = custom(&[0, 0], 10);
    let p = SumProxy::new(1, &a, 1, &b, 1);
    assert_eq!(p.get_range(0), (0, 0));
    assert_eq!(p.get_range(1), (0, 1));
    assert_eq!(p.get_denominator(), 1);
    assert_eq!(p.find_value(0), (1, 0, 1));
}

#[test]
fn codec_round_trips_over_a_blend() {
    let a = custom(&[4, 2, 6, 1], 100);
    let b = custom(&[1, 3, 2, 5], 100);
    let p = SumProxy::new(2, &a, 3, &b, 1);
    let mut e = IntervalEncoder::new(Vec::new());
    for v in [3usize, 0, 2, 2, 1] {
        e.encode(v, &p);
    }
    let mut d = IntervalDecoder::new(e.finish());
    for v in [3usize, 0, 2, 2, 1] {
        assert_eq!(d.decode(&p), Ok(v));
    }
    assert_eq!(d.decode(&p), Err(DecodeError::UnexpectedEnd));
}
