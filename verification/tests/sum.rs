use sharebill::rational::{sum, Rational, SumRat};

fn value(numer: u32, denom: u32) -> Rational {
    Rational::new(&numer.to_le_bytes(), &denom.to_le_bytes()).unwrap()
}

#[test]
fn sum_of_nothing_is_zero() {
    assert_eq!(sum(&[]), Rational::zero());
}

#[test]
fn sum_of_two_fourteenths() {
    assert_eq!(sum(&[value(3, 14), value(2, 14)]), value(5, 14));
}

#[test]
fn sum_does_not_depend_on_order() {
    let values = [value(1, 2), value(2, 3), value(3, 4), value(2, 3), value(0, 1)];
    let expected = value(31, 12);
    assert_eq!(sum(&values), expected);
    let orders: [[usize; 5]; 4] = [[4, 3, 2, 1, 0], [1, 0, 3, 2, 4], [2, 4, 0, 1, 3], [3, 1, 4, 0, 2]];
    for order in orders {
        let shuffled: Vec<Rational> = order.iter().map(|&i| values[i].clone()).collect();
        assert_eq!(sum(&shuffled), expected);
    }
}

#[test]
fn merging_partial_sums_equals_summing_all() {
    let values = [value(1, 2), value(2, 3), value(3, 4), value(5, 6), value(7, 8)];
    for split in 0..=values.len() {
        let merged = sum(&values[..split]) + sum(&values[split..]);
        assert_eq!(merged, sum(&values));
    }
}

#[test]
fn aggregate_folds_like_sum() {
    let values = [value(1, 2), value(2, 3), value(3, 4)];
    let mut aggregate = SumRat::default();
    for v in &values {
        aggregate.step(v.clone());
    }
    assert_eq!(SumRat::finalize(Some(aggregate)), sum(&values));
}
