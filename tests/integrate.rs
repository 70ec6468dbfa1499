use dbsp::integrate::Stream;

#[test]
fn scalar_integrate() {
    let source = Stream::from_values(vec![1i64; 100]);
    let integral = source.integrate();
    let mut counter = 0;
    for n in integral.values() {
        counter += 1;
        assert_eq!(*n, counter);
    }
    assert_eq!(counter, 100);
}

/// Each parent step feeds one input into a nested circuit that counts it
/// down to zero; the nested integral sums the countdowns of all parent
/// steps so far, and the nested run ends when the integral reaches zero.
#[test]
fn scalar_integrate_nested() {
    let input = vec![3i64, 4, 2, 5];
    let expected_counters = vec![3i64, 2, 1, 0, 4, 3, 2, 1, 0, 2, 1, 0, 0, 0, 5, 4, 3, 2, 1, 0];
    let expected_integrals = vec![3i64, 2, 1, 0, 7, 5, 3, 1, 0, 9, 6, 3, 1, 0, 14, 10, 6, 3, 1, 0];
    let expected_outer_integrals = vec![6i64, 16, 19, 34];

    let mut rows: Vec<Vec<i64>> = Vec::new();
    for x in input {
        rows.push(Vec::new());
        let mut feedback = 0i64;
        let mut first = true;
        loop {
            let delta = if first { x } else { 0 };
            first = false;
            let counter = delta + if feedback > 0 { feedback - 1 } else { feedback };
            feedback = counter;
            rows.last_mut().unwrap().push(counter);
            let integral = Stream::from_values(rows.clone()).integrate_nested();
            if *integral.values().last().unwrap().last().unwrap() == 0 {
                break;
            }
        }
    }

    let counters: Vec<i64> = rows.iter().flatten().copied().collect();
    assert_eq!(counters, expected_counters);

    let integral = Stream::from_values(rows).integrate_nested();
    let integrals: Vec<i64> = integral.values().iter().flatten().copied().collect();
    assert_eq!(integrals, expected_integrals);

    let outer: Vec<i64> = integral
        .values()
        .iter()
        .map(|row| *Stream::from_values(row.clone()).integrate().values().last().unwrap())
        .collect();
    assert_eq!(outer, expected_outer_integrals);
}
