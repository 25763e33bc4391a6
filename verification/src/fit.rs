//! The decision-making parts of the least-squares fit.
//!
//! Fitting hands the measurements to an iterative damped least-squares
//! solver. Everything around that loop that decides or computes is here:
//! the minimum-count validation, the starting coefficients, and the residual
//! evaluator that the solver calls at each iteration. The caller that owns
//! the solver loop validates with [`initial_guess`], iterates with
//! [`residuals`], and assembles the fitted coefficients into a
//! [`Model`].

use vstd::prelude::*;
use crate::error::UslError;
use crate::measurement::Measurement;
use crate::model::Model;
use crate::rational::{
    lemma_div_mul_cancel, lemma_div_value, lemma_fle_mul_pos, lemma_fle_trans, lemma_sub_value,
    try_div, try_sub, Frac, Ratio,
};

verus! {

/// The minimum number of measurements required to build a model: three free
/// coefficients need at least this many points for a stable fit.
pub const MIN_MEASUREMENTS: usize = 6;

/// Every measurement is well formed and was taken at positive concurrency.
pub open spec fn fit_input_wf(ms: Seq<Measurement>) -> bool {
    forall|i: int| 0 <= i < ms.len() ==> (#[trigger] ms[i]).wf() && ms[i].n.num > 0
}

/// The best observed per-unit-concurrency throughput among the first `k`
/// measurements, or `None` where a rate leaves the machine range.
pub open spec fn best_rate_steps(ms: Seq<Measurement>, k: int) -> Option<Ratio>
    decreases k,
{
    if k <= 0 {
        None
    } else if k == 1 {
        try_div(ms[0].x, ms[0].n)
    } else {
        match best_rate_steps(ms, k - 1) {
            None => None,
            Some(cur) => match try_div(ms[k - 1].x, ms[k - 1].n) {
                None => None,
                Some(rate) => if cur@.flt(rate@) {
                    Some(rate)
                } else {
                    Some(cur)
                },
            },
        }
    }
}

/// Once a rate fails to fit the machine range, every longer prefix fails.
proof fn lemma_best_rate_none_propagates(ms: Seq<Measurement>, k: int, l: int)
    requires
        0 < k <= l,
        best_rate_steps(ms, k) is None,
    ensures
        best_rate_steps(ms, l) is None,
    decreases l,
{
    if l > k {
        lemma_best_rate_none_propagates(ms, k, l - 1);
    }
}

/// Starting coefficients for the fit: `σ = 1/10`, `κ = 1/100`, and `λ` the
/// best observed per-unit-concurrency throughput — an upper bound consistent
/// with ideal linear scaling. Fails with `InsufficientData` before any other
/// work where fewer than [`MIN_MEASUREMENTS`] measurements are given.
pub fn initial_guess(ms: &Vec<Measurement>) -> (r: Result<Model, UslError>)
    requires
        fit_input_wf(ms@),
    ensures
        (r == Err::<Model, UslError>(UslError::InsufficientData)) <==> ms@.len() < (
        MIN_MEASUREMENTS as int),
        ms@.len() >= MIN_MEASUREMENTS as int ==> r == (match best_rate_steps(
            ms@,
            ms@.len() as int,
        ) {
            None => Err::<Model, UslError>(UslError::Unrepresentable),
            Some(l) => Ok(
                Model { sigma: Ratio { num: 1, den: 10 }, kappa: Ratio { num: 1, den: 100 }, lambda: l },
            ),
        }),
        r is Ok ==> ({
            let m = r.unwrap();
            &&& m.wf()
            &&& m.sigma@.feq(Frac { n: 1, d: 10 })
            &&& m.kappa@.feq(Frac { n: 1, d: 100 })
            &&& forall|i: int|
                0 <= i < ms@.len() ==> (#[trigger] ms@[i]).x@.fle(m.lambda@.fmul(ms@[i].n@))
            &&& exists|i: int|
                0 <= i < ms@.len() && m.lambda@.fmul((#[trigger] ms@[i]).n@).feq(ms@[i].x@)
        }),
{
    if ms.len() < MIN_MEASUREMENTS {
        return Err(UslError::InsufficientData);
    }
    let first = ms[0];
    let mut cur: Ratio = match first.x.div_exact(&first.n) {
        Some(v) => v,
        None => {
            proof {
                lemma_best_rate_none_propagates(ms@, 1, ms@.len() as int);
            }
            return Err(UslError::Unrepresentable);
        },
    };
    proof {
        lemma_div_value(first.x, first.n);
        lemma_div_mul_cancel(cur@, first.x@, first.n@);
        assert(cur@.fmul(first.n@).feq(first.x@));
        assert(first.x@.fle(cur@.fmul(first.n@))) by (nonlinear_arith)
            requires
                cur@.fmul(first.n@).feq(first.x@),
                cur@.fmul(first.n@).wf(),
                first.x.den > 0,
        ;
    }
    let mut i: usize = 1;
    while i < ms.len()
        invariant
            1 <= i <= ms@.len(),
            ms@.len() >= MIN_MEASUREMENTS as int,
            fit_input_wf(ms@),
            cur.wf(),
            Some(cur) == best_rate_steps(ms@, i as int),
            forall|j: int| 0 <= j < i ==> (#[trigger] ms@[j]).x@.fle(cur@.fmul(ms@[j].n@)),
            exists|j: int| 0 <= j < i && cur@.fmul((#[trigger] ms@[j]).n@).feq(ms@[j].x@),
        decreases ms@.len() - i,
    {
        let mea = ms[i];
        let rate: Ratio = match mea.x.div_exact(&mea.n) {
            Some(v) => v,
            None => {
                proof {
                    lemma_best_rate_none_propagates(ms@, i as int + 1, ms@.len() as int);
                }
                return Err(UslError::Unrepresentable);
            },
        };
        proof {
            lemma_div_value(mea.x, mea.n);
            lemma_div_mul_cancel(rate@, mea.x@, mea.n@);
        }
        if cur.lt(&rate) {
            proof {
                // every earlier bound carries over to the larger rate
                assert forall|j: int| 0 <= j < i implies (#[trigger] ms@[j]).x@.fle(
                    rate@.fmul(ms@[j].n@),
                ) by {
                    assert(ms@[j].n@.n > 0);
                    lemma_fle_mul_pos(cur@, rate@, ms@[j].n@);
                    assert(cur@.fmul(ms@[j].n@).wf() && rate@.fmul(ms@[j].n@).wf())
                        by (nonlinear_arith)
                        requires
                            cur.den > 0,
                            rate.den > 0,
                            ms@[j].n.den > 0,
                    ;
                    lemma_fle_trans(ms@[j].x@, cur@.fmul(ms@[j].n@), rate@.fmul(ms@[j].n@));
                }
                assert(mea.x@.fle(rate@.fmul(mea.n@))) by (nonlinear_arith)
                    requires
                        rate@.fmul(mea.n@).feq(mea.x@),
                        rate@.fmul(mea.n@).wf(),
                        mea.x.den > 0,
                ;
                assert(ms@[i as int] == mea);
            }
            cur = rate;
        } else {
            proof {
                // the new rate is bounded by the current best
                assert(rate@.fle(cur@));
                assert(ms@[i as int].n@.n > 0);
                lemma_fle_mul_pos(rate@, cur@, mea.n@);
                assert(rate@.fmul(mea.n@).wf() && cur@.fmul(mea.n@).wf()) by (nonlinear_arith)
                    requires
                        cur.den > 0,
                        rate.den > 0,
                        mea.n.den > 0,
                ;
                assert(mea.x@.fle(rate@.fmul(mea.n@))) by (nonlinear_arith)
                    requires
                        rate@.fmul(mea.n@).feq(mea.x@),
                        rate@.fmul(mea.n@).wf(),
                        mea.x.den > 0,
                ;
                lemma_fle_trans(mea.x@, rate@.fmul(mea.n@), cur@.fmul(mea.n@));
                assert(ms@[i as int] == mea);
            }
        }
        i = i + 1;
    }
    Ok(Model { sigma: Ratio { num: 1, den: 10 }, kappa: Ratio { num: 1, den: 100 }, lambda: cur })
}

/// One signed prediction error: the observed throughput minus the
/// throughput the candidate model predicts at the observed concurrency.
pub open spec fn residual_steps(m: Model, mea: Measurement) -> Result<Ratio, UslError> {
    match m.throughput_steps(mea.n) {
        Ok(p) => match try_sub(mea.x, p) {
            None => Err(UslError::Unrepresentable),
            Some(d) => Ok(d),
        },
        Err(e) => Err(e),
    }
}

/// Evaluate the residual vector of a candidate model against the
/// measurements: one signed error per measurement, exactly.
pub fn residuals(m: &Model, ms: &Vec<Measurement>) -> (r: Result<Vec<Ratio>, UslError>)
    requires
        m.wf(),
        fit_input_wf(ms@),
    ensures
        (r is Ok) <==> (forall|i: int|
            0 <= i < ms@.len() ==> (#[trigger] residual_steps(*m, ms@[i])) is Ok),
        r is Ok ==> r.unwrap()@.len() == ms@.len(),
        r is Ok ==> forall|i: int|
            0 <= i < ms@.len() ==> Ok::<Ratio, UslError>(#[trigger] r.unwrap()@[i])
                == residual_steps(*m, ms@[i]),
        r is Ok ==> forall|i: int|
            0 <= i < ms@.len() ==> (#[trigger] r.unwrap()@[i])@.fadd(
                m.throughput_steps(ms@[i].n).unwrap()@,
            ).feq(ms@[i].x@),
        r is Err ==> exists|i: int|
            0 <= i < ms@.len() && #[trigger] residual_steps(*m, ms@[i]) == Err::<Ratio, UslError>(
                r.unwrap_err(),
            ),
{
    let mut out: Vec<Ratio> = Vec::new();
    let mut i: usize = 0;
    while i < ms.len()
        invariant
            0 <= i <= ms@.len(),
            m.wf(),
            fit_input_wf(ms@),
            out@.len() == i as int,
            forall|j: int|
                0 <= j < i ==> Ok::<Ratio, UslError>(#[trigger] out@[j]) == residual_steps(
                    *m,
                    ms@[j],
                ),
            forall|j: int|
                0 <= j < i ==> (#[trigger] out@[j])@.fadd(
                    m.throughput_steps(ms@[j].n).unwrap()@,
                ).feq(ms@[j].x@),
        decreases ms@.len() - i,
    {
        let mea = ms[i];
        proof {
            assert(ms@[i as int] == mea);
        }
        let p = match m.throughput_at(&mea.n) {
            Ok(v) => v,
            Err(e) => {
                proof {
                    assert(residual_steps(*m, ms@[i as int]) == Err::<Ratio, UslError>(e));
                }
                return Err(e);
            },
        };
        let d = match mea.x.sub_exact(&p) {
            Some(v) => v,
            None => {
                proof {
                    assert(residual_steps(*m, ms@[i as int]) == Err::<Ratio, UslError>(
                        UslError::Unrepresentable,
                    ));
                }
                return Err(UslError::Unrepresentable);
            },
        };
        proof {
            lemma_sub_value(mea.x, p);
            // d + p has the value of the observation
            assert(d@.fadd(p@).feq(mea.x@)) by (nonlinear_arith)
                requires
                    d@.feq(mea.x@.fsub(p@)),
                    d.den > 0,
                    p.den > 0,
                    mea.x.den > 0,
            ;
        }
        out.push(d);
        i = i + 1;
    }
    proof {
        assert forall|k: int| 0 <= k < ms@.len() implies (#[trigger] residual_steps(
            *m,
            ms@[k],
        )) is Ok by {
            assert(Ok::<Ratio, UslError>(out@[k]) == residual_steps(*m, ms@[k]));
        }
    }
    Ok(out)
}

} // verus!
