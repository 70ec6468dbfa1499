use dbsp::average::{apply_average, Avg};

#[test]
fn apply_average_smoke() {
    let input = vec![
        (0i64, Avg::new(1000i64, 10), 1isize),
        (1, Avg::new(1, 1), -12),
        (1000, Avg::new(200, 20), 544),
    ];
    let expected = vec![(0i64, 100i64, 1isize), (1, 1, -12), (1000, 10, 544)];
    let output = apply_average(&input);
    assert_eq!(output, expected);
}

#[test]
fn average_rounds_toward_zero() {
    assert_eq!(Avg::new(7i64, 2).average(), 3);
    assert_eq!(Avg::new(-7i64, 2).average(), -3);
    assert_eq!(Avg::new(7i64, -2).average(), -3);
    assert_eq!(Avg::new(-7i64, -2).average(), 3);
}

#[test]
fn avg_pairwise_arithmetic() {
    let a = Avg::new(10i64, 2);
    let b = Avg::new(5i64, 3);
    assert_eq!(a.add_by_ref(&b), Avg::new(15, 5));
    let mut c = a;
    c.add_assign_by_ref(&b);
    assert_eq!(c, Avg::new(15, 5));
    assert_eq!(a.neg_by_ref(), Avg::new(-10, -2));
    assert_eq!(a.mul_by_ref(3), Avg::new(30, 6));
    assert!(Avg::<i64>::zero().is_zero());
    assert!(!a.is_zero());
    assert!(!Avg::new(0i64, 1).is_zero());
}
