//! Measurements, errors, classifications, and the small laws on concrete
//! values.

use usl::{Measurement, Model, Ratio, UslError};

fn ratio(num: i128, den: i128) -> Ratio {
    Ratio::new(num, den).unwrap()
}

fn to_f64(r: &Ratio) -> f64 {
    (r.num as f64) / (r.den as f64)
}

fn rel_eq(a: f64, b: f64, tol: f64) -> bool {
    let scale = a.abs().max(b.abs()).max(1e-300);
    (a - b).abs() <= tol * scale
}

#[test]
fn measurement() {
    // three concurrent events at 600 ms each: throughput must be 5/s
    let m = Measurement::concurrency_and_latency(ratio(3, 1), ratio(600, 1000)).unwrap();
    assert!(m.n.eq_value(&ratio(3, 1)));
    assert!(m.r.eq_value(&ratio(6, 10)));
    assert!(m.x.eq_value(&ratio(5, 1)));

    let m = Measurement::concurrency_and_throughput(ratio(3, 1), ratio(5, 1)).unwrap();
    assert!(m.n.eq_value(&ratio(3, 1)));
    assert!(m.r.eq_value(&ratio(6, 10)));
    assert!(m.x.eq_value(&ratio(5, 1)));

    let m = Measurement::throughput_and_latency(ratio(5, 1), ratio(600, 1000)).unwrap();
    assert!(m.n.eq_value(&ratio(3, 1)));
    assert!(m.r.eq_value(&ratio(6, 10)));
    assert!(m.x.eq_value(&ratio(5, 1)));
}

#[test]
fn lib_measurement() {
    // the same triple reached from plain fractional quantities
    let m = Measurement::concurrency_and_latency(ratio(3, 1), ratio(6, 10)).unwrap();
    assert!(rel_eq(to_f64(&m.n), 3.0, 1e-12));
    assert!(rel_eq(to_f64(&m.r), 0.6, 1e-12));
    assert!(rel_eq(to_f64(&m.x), 5.0, 1e-12));

    let m = Measurement::concurrency_and_throughput(ratio(3, 1), ratio(5, 1)).unwrap();
    assert!(rel_eq(to_f64(&m.n), 3.0, 1e-12));
    assert!(rel_eq(to_f64(&m.r), 0.6, 1e-12));
    assert!(rel_eq(to_f64(&m.x), 5.0, 1e-12));

    let m = Measurement::throughput_and_latency(ratio(5, 1), ratio(6, 10)).unwrap();
    assert!(rel_eq(to_f64(&m.n), 3.0, 1e-12));
    assert!(rel_eq(to_f64(&m.r), 0.6, 1e-12));
    assert!(rel_eq(to_f64(&m.x), 5.0, 1e-12));
}

#[test]
fn little_law_round_trip_exact() {
    // x derived from (n, r) multiplies back to n exactly, not approximately
    let n = ratio(7, 2);
    let r = ratio(3, 16);
    let m = Measurement::concurrency_and_latency(n, r).unwrap();
    let back = m.x.mul_exact(&m.r).unwrap();
    assert!(back.eq_value(&n));

    // r derived from (n, x) satisfies n / x = r exactly
    let x = ratio(355, 113);
    let m = Measurement::concurrency_and_throughput(n, x).unwrap();
    let nx = m.r.mul_exact(&x).unwrap();
    assert!(nx.eq_value(&n));
}

#[test]
fn measurement_domain_errors() {
    // a zero or negative latency cannot yield a throughput
    let e = Measurement::concurrency_and_latency(ratio(3, 1), ratio(0, 1)).unwrap_err();
    assert!(matches!(e, UslError::DomainError));
    let e = Measurement::concurrency_and_latency(ratio(3, 1), ratio(-1, 2)).unwrap_err();
    assert!(matches!(e, UslError::DomainError));
    // a zero throughput cannot yield a latency
    let e = Measurement::concurrency_and_throughput(ratio(3, 1), ratio(0, 1)).unwrap_err();
    assert!(matches!(e, UslError::DomainError));
    // negative quantities are rejected outright
    let e = Measurement::throughput_and_latency(ratio(-5, 1), ratio(1, 2)).unwrap_err();
    assert!(matches!(e, UslError::DomainError));
}

#[test]
fn measurement_unrepresentable() {
    // the exact quotient needs a denominator beyond the machine range
    let big: i128 = 1 << 64;
    let n = ratio(1, big);
    let r = ratio(big, 1);
    let e = Measurement::concurrency_and_latency(n, r).unwrap_err();
    assert!(matches!(e, UslError::Unrepresentable));
}

#[test]
fn insufficient_data() {
    // five points are one too few: the answer comes before any solver work
    let ms: Vec<Measurement> = (1..=5)
        .map(|i| {
            Measurement::concurrency_and_throughput(ratio(i, 1), ratio(100 * i, 1)).unwrap()
        })
        .collect();
    let e = usl::fit::initial_guess(&ms).unwrap_err();
    assert!(matches!(e, UslError::InsufficientData));
}

#[test]
fn initial_guess_values() {
    // σ = 1/10, κ = 1/100, λ = the best observed rate x/n
    let points: [(i128, i128); 6] = [(1, 900), (2, 1800), (3, 2900), (4, 3400), (5, 4000), (6, 4400)];
    let ms: Vec<Measurement> = points
        .iter()
        .map(|&(n, x)| {
            Measurement::concurrency_and_throughput(ratio(n, 1), ratio(x, 1)).unwrap()
        })
        .collect();
    let g = usl::fit::initial_guess(&ms).unwrap();
    assert!(g.sigma.eq_value(&ratio(1, 10)));
    assert!(g.kappa.eq_value(&ratio(1, 100)));
    // 2900 / 3 beats every other rate in the list
    assert!(g.lambda.eq_value(&ratio(2900, 3)));
}

#[test]
fn residual_of_exact_point_is_zero() {
    // a measurement generated by the model itself leaves no residual
    let model = Model { sigma: ratio(1, 50), kappa: ratio(1, 2000), lambda: ratio(1000, 1) };
    let n = 8u32;
    let predicted = model.throughput_at_concurrency(n).unwrap();
    let ms = vec![
        Measurement::concurrency_and_throughput(ratio(8, 1), predicted).unwrap(),
        Measurement::concurrency_and_throughput(ratio(2, 1), ratio(1900, 1)).unwrap(),
    ];
    let res = usl::fit::residuals(&model, &ms).unwrap();
    assert_eq!(res.len(), 2);
    assert_eq!(res[0].num, 0);
    assert!(res[1].num != 0);
}

#[test]
fn classifications_partition() {
    // contention-bound: σ > κ
    let m = Model { sigma: ratio(3, 100), kappa: ratio(1, 1000), lambda: ratio(1000, 1) };
    assert!(m.is_contention_constrained());
    assert!(!m.is_coherency_constrained());
    assert!(!m.is_limitless());
    assert!(m.contention_constrained());
    assert!(!m.coherency_constrained());
    assert!(!m.limitless());

    // coherency-bound: σ < κ
    let m = Model { sigma: ratio(1, 1000), kappa: ratio(3, 100), lambda: ratio(1000, 1) };
    assert!(!m.is_contention_constrained());
    assert!(m.is_coherency_constrained());
    assert!(!m.is_limitless());

    // the boundary σ = κ ≠ 0: all three must be false
    let m = Model { sigma: ratio(1, 2), kappa: ratio(1, 2), lambda: ratio(1000, 1) };
    assert!(!m.is_contention_constrained());
    assert!(!m.is_coherency_constrained());
    assert!(!m.is_limitless());

    // κ exactly zero: linearly scalable
    let m = Model { sigma: ratio(1, 2), kappa: ratio(0, 1), lambda: ratio(1000, 1) };
    assert!(m.is_limitless());
}

#[test]
fn undefined_queries() {
    let limitless = Model { sigma: ratio(1, 10), kappa: ratio(0, 1), lambda: ratio(100, 1) };
    assert!(matches!(limitless.max_concurrency().unwrap_err(), UslError::UndefinedQuery));
    assert!(matches!(limitless.max_throughput().unwrap_err(), UslError::UndefinedQuery));
    assert!(matches!(
        limitless.throughput_at_latency(&ratio(1, 10)).unwrap_err(),
        UslError::UndefinedQuery
    ));
    assert!(matches!(
        limitless.concurrency_at_latency(&ratio(1, 10)).unwrap_err(),
        UslError::UndefinedQuery
    ));

    // a vanishing λ leaves the latency formula without a value
    let flat = Model { sigma: ratio(1, 10), kappa: ratio(1, 100), lambda: ratio(0, 1) };
    assert!(matches!(flat.latency_at_concurrency(4).unwrap_err(), UslError::UndefinedQuery));

    // σ·x = λ puts the latency-at-throughput pole exactly on the input
    let m = Model { sigma: ratio(1, 2), kappa: ratio(1, 100), lambda: ratio(50, 1) };
    let e = m.latency_at_throughput(&ratio(100, 1)).unwrap_err();
    assert!(matches!(e, UslError::UndefinedQuery));
}

#[test]
fn query_unrepresentable() {
    // a coefficient near the top of the machine range cannot be squared
    let big: i128 = 1 << 100;
    let m = Model { sigma: ratio(big, 1), kappa: ratio(1, 100), lambda: ratio(100, 1) };
    let e = m.throughput_at_latency(&ratio(1, 10)).unwrap_err();
    assert!(matches!(e, UslError::Unrepresentable));
}

#[test]
fn error_descriptions() {
    assert_eq!(UslError::InsufficientData.describe(), "insufficient data");
    assert_eq!(UslError::DomainError.describe(), "domain error");
    assert_eq!(UslError::UndefinedQuery.describe(), "undefined query");
    assert_eq!(UslError::Unrepresentable.describe(), "unrepresentable");
    let nc = UslError::NonConvergence {
        sigma: ratio(1, 10),
        kappa: ratio(1, 100),
        lambda: ratio(100, 1),
        iterations: 25,
    };
    assert_eq!(nc.describe(), "no convergence");
}

#[test]
fn peak_is_local_max_when_floor_lands_high() {
    // (1 − σ) / κ = 16, so the peak query answers 4; 4·5 = 20 ≥ 16 means the
    // floor landed above the real-valued peak and both neighbours lose
    let m = Model { sigma: ratio(0, 1), kappa: ratio(1, 16), lambda: ratio(100, 1) };
    assert_eq!(m.max_concurrency().unwrap(), 4);
    let at3 = to_f64(&m.throughput_at_concurrency(3).unwrap());
    let at4 = to_f64(&m.throughput_at_concurrency(4).unwrap());
    let at5 = to_f64(&m.throughput_at_concurrency(5).unwrap());
    assert!(at3 <= at4);
    assert!(at5 <= at4);
}

#[test]
fn round_trip_exact_when_limitless() {
    // with κ = 0 the concurrency read back from a prediction is exact
    let m = Model { sigma: ratio(1, 4), kappa: ratio(0, 1), lambda: ratio(500, 1) };
    for n in [1u32, 2, 5, 17, 100] {
        let x = m.throughput_at_concurrency(n).unwrap();
        let back = m.concurrency_at_throughput(&x).unwrap();
        assert!(back.eq_value(&ratio(n as i128, 1)));
    }
}

#[test]
fn latency_throughput_consistency() {
    // R(N) · X(N) = N: the two per-concurrency queries agree with
    // Little's Law exactly
    let m = Model { sigma: ratio(3, 100), kappa: ratio(1, 1250), lambda: ratio(995, 1) };
    for n in [1u32, 10, 35] {
        let x = m.throughput_at_concurrency(n).unwrap();
        let r = m.latency_at_concurrency(n).unwrap();
        let prod = x.mul_exact(&r).unwrap();
        assert!(prod.eq_value(&ratio(n as i128, 1)));
    }
}
