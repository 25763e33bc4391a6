//! Fitting models against measured data with the damped least-squares
//! solver, and querying the fitted models.

use rmpfit::{MPError, MPFitter, MPResult};
use usl::{Measurement, Model, Ratio};

/// The canonical 32-point benchmark dataset.
const MEASUREMENTS: [(u32, f64); 32] = [
    (1, 955.16),
    (2, 1878.91),
    (3, 2688.01),
    (4, 3548.68),
    (5, 4315.54),
    (6, 5130.43),
    (7, 5931.37),
    (8, 6531.08),
    (9, 7219.8),
    (10, 7867.61),
    (11, 8278.71),
    (12, 8646.7),
    (13, 9047.84),
    (14, 9426.55),
    (15, 9645.37),
    (16, 9897.24),
    (17, 10097.6),
    (18, 10240.5),
    (19, 10532.39),
    (20, 10798.52),
    (21, 11151.43),
    (22, 11518.63),
    (23, 11806.0),
    (24, 12089.37),
    (25, 12075.41),
    (26, 12177.29),
    (27, 12211.41),
    (28, 12158.93),
    (29, 12155.27),
    (30, 12118.04),
    (31, 12140.4),
    (32, 12074.39),
];

const ACCURACY: f64 = 0.00001;

/// The binary fraction standing for a float, exact whenever the needed
/// denominator fits the machine range.
fn ratio_from_f64(v: f64) -> Ratio {
    assert!(v.is_finite());
    if v == 0.0 {
        return Ratio::new(0, 1).unwrap();
    }
    let mut num = v;
    let mut den: i128 = 1;
    while num.fract() != 0.0 && den < (1i128 << 62) {
        num *= 2.0;
        den *= 2;
    }
    let scaled = num.round();
    assert!(scaled.abs() < 1.5e38);
    Ratio::new(scaled as i128, den).unwrap()
}

/// A decimal rounding of a float, for query-friendly denominators.
fn ratio_decimal(v: f64) -> Ratio {
    let scale: i128 = 1_000_000_000_000;
    Ratio::new((v * scale as f64).round() as i128, scale).unwrap()
}

fn to_f64(r: &Ratio) -> f64 {
    (r.num as f64) / (r.den as f64)
}

fn assert_rel(actual: f64, expected: f64, tol: f64) {
    let scale = actual.abs().max(expected.abs()).max(1e-300);
    assert!(
        (actual - expected).abs() <= tol * scale,
        "expected {expected}, got {actual} (tolerance {tol})"
    );
}

/// The solver's view of the data: residuals come from the library's exact
/// evaluator.
struct UslFit {
    ms: Vec<Measurement>,
}

impl MPFitter for UslFit {
    fn eval(&mut self, params: &[f64], deviates: &mut [f64]) -> MPResult<()> {
        let candidate = Model {
            sigma: ratio_from_f64(params[0]),
            kappa: ratio_from_f64(params[1]),
            lambda: ratio_from_f64(params[2]),
        };
        match usl::fit::residuals(&candidate, &self.ms) {
            Ok(res) => {
                for (d, r) in deviates.iter_mut().zip(res.iter()) {
                    *d = to_f64(r);
                }
                Ok(())
            },
            Err(_) => Err(MPError::Eval),
        }
    }

    fn number_of_points(&self) -> usize {
        self.ms.len()
    }
}

/// Validate, take the starting point, run the solver, assemble the model.
fn build_model(points: &[(f64, f64)]) -> Model {
    let ms: Vec<Measurement> = points
        .iter()
        .map(|&(n, x)| {
            Measurement::concurrency_and_throughput(ratio_from_f64(n), ratio_from_f64(x)).unwrap()
        })
        .collect();
    let guess = usl::fit::initial_guess(&ms).unwrap();
    let mut params: [f64; 3] =
        [to_f64(&guess.sigma), to_f64(&guess.kappa), to_f64(&guess.lambda)];
    let mut fitter = UslFit { ms };
    fitter.mpfit(&mut params).unwrap();
    Model {
        sigma: ratio_from_f64(params[0]),
        kappa: ratio_from_f64(params[1]),
        lambda: ratio_from_f64(params[2]),
    }
}

fn canonical_model() -> Model {
    let points: Vec<(f64, f64)> =
        MEASUREMENTS.iter().map(|&(n, x)| (n as f64, x)).collect();
    build_model(&points)
}

/// The canonical model with coefficients on decimal denominators, which the
/// square-root queries prefer.
fn decimal_model(m: &Model) -> Model {
    Model {
        sigma: ratio_decimal(to_f64(&m.sigma)),
        kappa: ratio_decimal(to_f64(&m.kappa)),
        lambda: ratio_decimal(to_f64(&m.lambda)),
    }
}

#[test]
fn build() {
    let model = canonical_model();

    assert_rel(to_f64(&model.sigma), 0.02671591, ACCURACY);
    assert_rel(to_f64(&model.kappa), 7.690945e-4, ACCURACY);
    assert_rel(to_f64(&model.lambda), 995.6486, ACCURACY);
    assert_eq!(model.max_concurrency().unwrap(), 35);
    assert_rel(to_f64(&model.max_throughput().unwrap()), 12341.7454, ACCURACY);
    assert!(!model.is_coherency_constrained());
    assert!(model.is_contention_constrained());
    assert!(!model.is_limitless());

    assert_rel(to_f64(&model.latency_at_concurrency(1).unwrap()), 0.0010043702162450092, 1e-4);
    assert_rel(to_f64(&model.latency_at_concurrency(20).unwrap()), 0.0018077244442155811, 1e-4);
    assert_rel(to_f64(&model.latency_at_concurrency(35).unwrap()), 0.002835903510841524, 1e-4);

    assert_rel(to_f64(&model.throughput_at_concurrency(1).unwrap()), 995.648799442353, 1e-4);
    assert_rel(to_f64(&model.throughput_at_concurrency(20).unwrap()), 11063.633101824058, 1e-4);
    assert_rel(to_f64(&model.throughput_at_concurrency(35).unwrap()), 12341.74571391328, 1e-4);

    let x = ratio_from_f64(955.0);
    assert_rel(to_f64(&model.concurrency_at_throughput(&x).unwrap()), 0.958099855673978, 1e-4);
    let x = ratio_from_f64(11048.0);
    assert_rel(to_f64(&model.concurrency_at_throughput(&x).unwrap()), 15.35043561102983, 1e-4);
    let x = ratio_from_f64(12201.0);
    assert_rel(to_f64(&model.concurrency_at_throughput(&x).unwrap()), 17.732208293896793, 1e-4);

    // the square-root queries, on decimal coefficients
    let dm = decimal_model(&model);
    let r = Ratio::new(30, 1000).unwrap();
    assert_rel(to_f64(&dm.throughput_at_latency(&r).unwrap()), 7047.844027581335, 1e-4);
    let r = Ratio::new(40, 1000).unwrap();
    assert_rel(to_f64(&dm.throughput_at_latency(&r).unwrap()), 6056.536321602774, 1e-4);
    let r = Ratio::new(50, 1000).unwrap();
    assert_rel(to_f64(&dm.throughput_at_latency(&r).unwrap()), 5387.032125730636, 1e-4);

    let x = ratio_from_f64(7000.0);
    assert_rel(to_f64(&model.latency_at_throughput(&x).unwrap()), 0.0012036103337889738, 1e-4);
    let x = ratio_from_f64(6000.0);
    assert_rel(to_f64(&model.latency_at_throughput(&x).unwrap()), 0.001165116923601453, 1e-4);
    let x = ratio_from_f64(5000.0);
    assert_rel(to_f64(&model.latency_at_throughput(&x).unwrap()), 0.0011290093731056857, 1e-4);

    let r = Ratio::new(30, 1000).unwrap();
    assert_rel(to_f64(&dm.concurrency_at_latency(&r).unwrap()), 177.69840792284043, 1e-4);
    let r = Ratio::new(40, 1000).unwrap();
    assert_rel(to_f64(&dm.concurrency_at_latency(&r).unwrap()), 208.52453995951137, 1e-4);
    let r = Ratio::new(50, 1000).unwrap();
    assert_rel(to_f64(&dm.concurrency_at_latency(&r).unwrap()), 235.61469338193223, 1e-4);
}

#[test]
fn lib_build() {
    // the same dataset reached through fractional concurrencies
    let points: Vec<(f64, f64)> =
        MEASUREMENTS.iter().map(|&(n, x)| (n as f64, x)).collect();
    let model = build_model(&points);

    assert_rel(to_f64(&model.sigma), 0.02671591, ACCURACY);
    assert_rel(to_f64(&model.kappa), 7.690945e-4, ACCURACY);
    assert_rel(to_f64(&model.lambda), 995.6486, ACCURACY);
    assert_eq!(model.max_concurrency().unwrap(), 35);
    assert_rel(to_f64(&model.max_throughput().unwrap()), 12341.7454, ACCURACY);
    assert_eq!(model.coherency_constrained(), false);
    assert_eq!(model.contention_constrained(), true);
    assert_eq!(model.limitless(), false);

    assert_rel(to_f64(&model.latency_at_concurrency(1).unwrap()), 0.0010043702162450092, 1e-4);
    assert_rel(to_f64(&model.throughput_at_concurrency(20).unwrap()), 11063.633101824058, 1e-4);
    let x = ratio_from_f64(11048.0);
    assert_rel(to_f64(&model.concurrency_at_throughput(&x).unwrap()), 15.35043561102983, 1e-4);
}

#[test]
fn fit_recovers_known_coefficients() {
    // noiseless data generated by a known model comes back as that model
    let sigma = 0.03;
    let kappa = 0.0005;
    let lambda = 800.0;
    let points: Vec<(f64, f64)> = (1..=24)
        .map(|n| {
            let nf = n as f64;
            let x = lambda * nf / (1.0 + sigma * (nf - 1.0) + kappa * nf * (nf - 1.0));
            (nf, x)
        })
        .collect();
    let model = build_model(&points);
    assert_rel(to_f64(&model.sigma), sigma, 1e-4);
    assert_rel(to_f64(&model.kappa), kappa, 1e-4);
    assert_rel(to_f64(&model.lambda), lambda, 1e-4);
}

#[test]
fn peak_neighbours() {
    // one step below the peak the model never predicts more throughput; one
    // step above it may gain a little where the floor lands under the
    // real-valued peak, as it does for this dataset
    let model = canonical_model();
    let v = model.max_concurrency().unwrap();
    assert_eq!(v, 35);
    let at_peak = to_f64(&model.throughput_at_concurrency(v).unwrap());
    let below = to_f64(&model.throughput_at_concurrency(v - 1).unwrap());
    assert!(below <= at_peak);
    let above = to_f64(&model.throughput_at_concurrency(v + 1).unwrap());
    // the documented boundary: 1 − σ > κ·35·36 here, so 36 still gains
    assert!(above > at_peak);
    assert_rel(above, at_peak, 1e-3);
}

#[test]
fn round_trip_in_rising_region() {
    // reading concurrency back from a prediction lands near the original,
    // contracted by the coherency term; decimal coefficients keep the exact
    // intermediate fractions small
    let model = decimal_model(&canonical_model());
    for n in [1u32, 2, 5, 10, 20] {
        let x = model.throughput_at_concurrency(n).unwrap();
        let back = to_f64(&model.concurrency_at_throughput(&x).unwrap());
        // the contraction is exactly (1−σ) / (1−σ+κn(n−1))
        let s = to_f64(&model.sigma);
        let k = to_f64(&model.kappa);
        let nf = n as f64;
        let exact = nf * (1.0 - s) / ((1.0 - s) + k * nf * (nf - 1.0));
        assert_rel(back, exact, 1e-6);
        // low in the rising region the coherency term is small, so the
        // round trip lands close to where it started
        if n <= 5 {
            assert_rel(back, nf, 0.05);
        }
    }
}
