//! Simultaneous observations of concurrency, throughput and latency.

use vstd::prelude::*;
use crate::error::UslError;
use crate::rational::{
    lemma_div_mul_cancel, lemma_div_value, lemma_feq_sign, lemma_mul_value, try_div, try_mul,
    Frac, Ratio,
};

verus! {

/// A simultaneous measurement of two of the parameters of Little's Law —
/// concurrency, throughput, and latency — with the third derived from the
/// other two, so that `n == x * r` holds exactly.
#[derive(Clone, Copy, Debug)]
pub struct Measurement {
    /// The average number of concurrent events.
    pub n: Ratio,
    /// The long-term arrival rate of events, in events/sec.
    pub x: Ratio,
    /// The average duration of events, in seconds.
    pub r: Ratio,
}

impl Measurement {
    /// Well-formedness: every component is a meaningful non-negative
    /// quantity and Little's Law holds exactly.
    pub open spec fn wf(self) -> bool {
        &&& self.n.wf()
        &&& self.x.wf()
        &&& self.r.wf()
        &&& self.n.num >= 0
        &&& self.x.num >= 0
        &&& self.r.num >= 0
        &&& self.x@.fmul(self.r@).feq(self.n@)
    }

    /// Measure a system's latency at a given level of concurrency; the
    /// throughput is derived via Little's Law as `x = n / r`.
    pub fn concurrency_and_latency(n: Ratio, r: Ratio) -> (m: Result<Measurement, UslError>)
        requires
            n.wf(),
            r.wf(),
        ensures
            (m == Err::<Measurement, UslError>(UslError::DomainError)) <==> (n.num < 0 || r.num
                <= 0),
            n.num >= 0 && r.num > 0 ==> (m is Ok <==> try_div(n, r) is Some),
            n.num >= 0 && r.num > 0 && try_div(n, r) is None ==> m == Err::<
                Measurement,
                UslError,
            >(UslError::Unrepresentable),
            m is Ok ==> m.unwrap() == (Measurement { n, x: try_div(n, r).unwrap(), r }),
            m is Ok ==> m.unwrap().wf(),
            m is Ok ==> m.unwrap().x@.fmul(r@).feq(n@),
    {
        if n.num < 0 || r.num <= 0 {
            return Err(UslError::DomainError);
        }
        match n.div_exact(&r) {
            Some(x) => {
                proof {
                    lemma_div_value(n, r);
                    lemma_div_mul_cancel(x@, n@, r@);
                    let q = n@.fdiv(r@);
                    assert(q.n == n.num * r.den);
                    assert(q.n >= 0) by (nonlinear_arith)
                        requires
                            n.num >= 0,
                            r.den > 0,
                            q.n == n.num * r.den,
                    ;
                    lemma_feq_sign(x@, q);
                }
                Ok(Measurement { n, x, r })
            },
            None => Err(UslError::Unrepresentable),
        }
    }

    /// Measure a system's throughput at a given level of concurrency; the
    /// latency is derived via Little's Law as `r = n / x`.
    pub fn concurrency_and_throughput(n: Ratio, x: Ratio) -> (m: Result<Measurement, UslError>)
        requires
            n.wf(),
            x.wf(),
        ensures
            (m == Err::<Measurement, UslError>(UslError::DomainError)) <==> (n.num < 0 || x.num
                <= 0),
            n.num >= 0 && x.num > 0 ==> (m is Ok <==> try_div(n, x) is Some),
            n.num >= 0 && x.num > 0 && try_div(n, x) is None ==> m == Err::<
                Measurement,
                UslError,
            >(UslError::Unrepresentable),
            m is Ok ==> m.unwrap() == (Measurement { n, x, r: try_div(n, x).unwrap() }),
            m is Ok ==> m.unwrap().wf(),
            m is Ok ==> m.unwrap().r@.feq(n@.fdiv(x@)),
    {
        if n.num < 0 || x.num <= 0 {
            return Err(UslError::DomainError);
        }
        match n.div_exact(&x) {
            Some(r) => {
                proof {
                    lemma_div_value(n, x);
                    lemma_div_mul_cancel(r@, n@, x@);
                    let q = n@.fdiv(x@);
                    assert(q.n == n.num * x.den);
                    assert(q.n >= 0) by (nonlinear_arith)
                        requires
                            n.num >= 0,
                            x.den > 0,
                            q.n == n.num * x.den,
                    ;
                    lemma_feq_sign(r@, q);
                    assert(x@.fmul(r@).feq(r@.fmul(x@)) && x@.fmul(r@).wf() && r@.fmul(x@).wf())
                        by (nonlinear_arith)
                        requires
                            x.den > 0,
                            r.den > 0,
                            x@.fmul(r@) == (Frac { n: x.num as int * r.num as int, d: x.den as int * r.den as int }),
                            r@.fmul(x@) == (Frac { n: r.num as int * x.num as int, d: r.den as int * x.den as int }),
                    ;
                    crate::rational::lemma_feq_trans(x@.fmul(r@), r@.fmul(x@), n@);
                }
                Ok(Measurement { n, x, r })
            },
            None => Err(UslError::Unrepresentable),
        }
    }

    /// Measure a system's latency at a given level of throughput; the
    /// concurrency is derived via Little's Law as `n = x * r`.
    pub fn throughput_and_latency(x: Ratio, r: Ratio) -> (m: Result<Measurement, UslError>)
        requires
            x.wf(),
            r.wf(),
        ensures
            (m == Err::<Measurement, UslError>(UslError::DomainError)) <==> (x.num < 0 || r.num
                < 0),
            x.num >= 0 && r.num >= 0 ==> (m is Ok <==> try_mul(x, r) is Some),
            x.num >= 0 && r.num >= 0 && try_mul(x, r) is None ==> m == Err::<
                Measurement,
                UslError,
            >(UslError::Unrepresentable),
            m is Ok ==> m.unwrap() == (Measurement { n: try_mul(x, r).unwrap(), x, r }),
            m is Ok ==> m.unwrap().wf(),
    {
        if x.num < 0 || r.num < 0 {
            return Err(UslError::DomainError);
        }
        match x.mul_exact(&r) {
            Some(n) => {
                proof {
                    lemma_mul_value(x, r);
                    let p = x@.fmul(r@);
                    assert(p.n >= 0) by (nonlinear_arith)
                        requires
                            x.num >= 0,
                            r.num >= 0,
                            p.n == x.num * r.num,
                    ;
                    lemma_feq_sign(n@, p);
                    assert(x@.fmul(r@).feq(n@));
                }
                Ok(Measurement { n, x, r })
            },
            None => Err(UslError::Unrepresentable),
        }
    }
}

} // verus!
