//! The fitted Universal Scalability Law model and its analytic queries.
//!
//! The model predicts throughput as `X(N) = λN / (1 + σ(N−1) + κN(N−1))`.
//! Every query either returns the exact rational value of its formula, the
//! grid square root where the formula takes a root, or says precisely why it
//! has no answer.

use vstd::prelude::*;
use crate::error::UslError;
use crate::rational::{
    int_ratio, isqrt_u128, lemma_add_value, lemma_div_mul_cancel, lemma_div_value,
    lemma_fadd_cong, lemma_feq_sign, lemma_feq_trans, lemma_fmul_cong, lemma_fsub_cong,
    lemma_mul_value, lemma_sqrt_nat_bounds, lemma_sub_value, sqrt_nat, try_add, try_div, try_mul,
    try_sub, Frac, Ratio,
};
use vstd::arithmetic::div_mod::lemma_fundamental_div_mod;

verus! {

/// A Universal Scalability Law model: the three fitted coefficients.
#[derive(Clone, Copy, Debug)]
pub struct Model {
    /// The model's coefficient of contention, σ.
    pub sigma: Ratio,
    /// The model's coefficient of crosstalk/coherency, κ.
    pub kappa: Ratio,
    /// The model's coefficient of performance, λ.
    pub lambda: Ratio,
}

impl Model {
    /// Well-formedness: the three coefficients are meaningful rationals.
    pub open spec fn wf(self) -> bool {
        self.sigma.wf() && self.kappa.wf() && self.lambda.wf()
    }

    /// The exact USL load factor at concurrency `n`:
    /// `1 + σ(n−1) + κn(n−1)`, the denominator of the throughput formula.
    pub open spec fn load_factor(self, n: Frac) -> Frac {
        let one = Frac::from_int(1);
        one.fadd(self.sigma@.fmul(n.fsub(one))).fadd(self.kappa@.fmul(n).fmul(n.fsub(one)))
    }

    /// The machine steps that evaluate the load factor, with their exact
    /// overflow behaviour.
    pub open spec fn load_steps(self, n: Ratio) -> Option<Ratio> {
        let one = int_ratio(1);
        match try_sub(n, one) {
            None => None,
            Some(nm1) => match try_mul(self.sigma, nm1) {
                None => None,
                Some(t) => match try_add(one, t) {
                    None => None,
                    Some(u) => match try_mul(self.kappa, n) {
                        None => None,
                        Some(v) => match try_mul(v, nm1) {
                            None => None,
                            Some(w) => try_add(u, w),
                        },
                    },
                },
            },
        }
    }

    /// Evaluate the load factor at a rational concurrency.
    fn load_at(&self, n: &Ratio) -> (r: Option<Ratio>)
        requires
            self.wf(),
            n.wf(),
        ensures
            r == self.load_steps(*n),
            r is Some ==> r.unwrap().wf() && self.load_factor(n@).wf() && r.unwrap()@.feq(
                self.load_factor(n@),
            ),
    {
        let one = Ratio::from_int(1);
        let nm1 = match n.sub_exact(&one) {
            Some(v) => v,
            None => {
                return None;
            },
        };
        let t = match self.sigma.mul_exact(&nm1) {
            Some(v) => v,
            None => {
                return None;
            },
        };
        let u = match one.add_exact(&t) {
            Some(v) => v,
            None => {
                return None;
            },
        };
        let v = match self.kappa.mul_exact(n) {
            Some(v) => v,
            None => {
                return None;
            },
        };
        let w = match v.mul_exact(&nm1) {
            Some(v) => v,
            None => {
                return None;
            },
        };
        let d = match u.add_exact(&w) {
            Some(v) => v,
            None => {
                return None;
            },
        };
        proof {
            let onef = Frac::from_int(1);
            let nf = n@;
            lemma_sub_value(*n, one);
            assert(nm1@.feq(nf.fsub(onef)));
            lemma_mul_value(self.sigma, nm1);
            lemma_fmul_cong(self.sigma@, nm1@, self.sigma@, nf.fsub(onef));
            lemma_feq_trans(t@, self.sigma@.fmul(nm1@), self.sigma@.fmul(nf.fsub(onef)));
            lemma_add_value(one, t);
            lemma_fadd_cong(onef, t@, onef, self.sigma@.fmul(nf.fsub(onef)));
            lemma_feq_trans(
                u@,
                onef.fadd(t@),
                onef.fadd(self.sigma@.fmul(nf.fsub(onef))),
            );
            lemma_mul_value(self.kappa, *n);
            lemma_mul_value(v, nm1);
            lemma_fmul_cong(v@, nm1@, self.kappa@.fmul(nf), nf.fsub(onef));
            lemma_feq_trans(w@, v@.fmul(nm1@), self.kappa@.fmul(nf).fmul(nf.fsub(onef)));
            lemma_add_value(u, w);
            lemma_fadd_cong(
                u@,
                w@,
                onef.fadd(self.sigma@.fmul(nf.fsub(onef))),
                self.kappa@.fmul(nf).fmul(nf.fsub(onef)),
            );
            lemma_feq_trans(
                d@,
                u@.fadd(w@),
                self.load_factor(nf),
            );
        }
        Some(d)
    }

    /// The machine steps of the throughput query, with their exact failure
    /// behaviour: an unrepresentable intermediate, or a vanishing load
    /// factor.
    pub open spec fn throughput_steps(self, n: Ratio) -> Result<Ratio, UslError> {
        match self.load_steps(n) {
            None => Err(UslError::Unrepresentable),
            Some(d) => if d.num == 0 {
                Err(UslError::UndefinedQuery)
            } else {
                match try_mul(self.lambda, n) {
                    None => Err(UslError::Unrepresentable),
                    Some(ln) => match try_div(ln, d) {
                        None => Err(UslError::Unrepresentable),
                        Some(x) => Ok(x),
                    },
                }
            },
        }
    }

    /// Evaluate the throughput formula at a rational concurrency.
    pub(crate) fn throughput_at(&self, n: &Ratio) -> (r: Result<Ratio, UslError>)
        requires
            self.wf(),
            n.wf(),
        ensures
            r == self.throughput_steps(*n),
            r is Ok ==> r.unwrap().wf() && self.load_factor(n@).wf() && r.unwrap()@.fmul(
                self.load_factor(n@),
            ).feq(self.lambda@.fmul(n@)),
    {
        let d = match self.load_at(n) {
            Some(v) => v,
            None => {
                return Err(UslError::Unrepresentable);
            },
        };
        if d.num == 0 {
            return Err(UslError::UndefinedQuery);
        }
        let ln = match self.lambda.mul_exact(n) {
            Some(v) => v,
            None => {
                return Err(UslError::Unrepresentable);
            },
        };
        let x = match ln.div_exact(&d) {
            Some(v) => v,
            None => {
                return Err(UslError::Unrepresentable);
            },
        };
        proof {
            lemma_mul_value(self.lambda, *n);
            lemma_div_value(ln, d);
            lemma_div_mul_cancel(x@, ln@, d@);
            lemma_fmul_cong(x@, d@, x@, self.load_factor(n@));
            lemma_feq_trans(x@.fmul(self.load_factor(n@)), x@.fmul(d@), ln@);
            lemma_feq_trans(
                x@.fmul(self.load_factor(n@)),
                ln@,
                self.lambda@.fmul(n@),
            );
        }
        Ok(x)
    }

    /// Calculate the expected throughput given a number of concurrent
    /// events, `X(N) = λN / (1 + σ(N−1) + κN(N−1))`.
    pub fn throughput_at_concurrency(&self, n: u32) -> (r: Result<Ratio, UslError>)
        requires
            self.wf(),
        ensures
            r == self.throughput_steps(int_ratio(n as int)),
            r is Ok ==> r.unwrap().wf() && r.unwrap()@.fmul(
                self.load_factor(Frac::from_int(n as int)),
            ).feq(self.lambda@.fmul(Frac::from_int(n as int))),
    {
        self.throughput_at(&Ratio::from_int(n as i64))
    }

    /// The machine steps of the latency query.
    pub open spec fn latency_steps(self, n: Ratio) -> Result<Ratio, UslError> {
        match self.load_steps(n) {
            None => Err(UslError::Unrepresentable),
            Some(d) => if self.lambda.num == 0 {
                Err(UslError::UndefinedQuery)
            } else {
                match try_div(d, self.lambda) {
                    None => Err(UslError::Unrepresentable),
                    Some(x) => Ok(x),
                }
            },
        }
    }

    /// Calculate the expected mean latency given a number of concurrent
    /// events, `R(N) = (1 + σ(N−1) + κN(N−1)) / λ`.
    pub fn latency_at_concurrency(&self, n: u32) -> (r: Result<Ratio, UslError>)
        requires
            self.wf(),
        ensures
            r == self.latency_steps(int_ratio(n as int)),
            (r == Err::<Ratio, UslError>(UslError::UndefinedQuery)) ==> self.lambda.num == 0,
            r is Ok ==> r.unwrap().wf() && r.unwrap()@.fmul(self.lambda@).feq(
                self.load_factor(Frac::from_int(n as int)),
            ),
    {
        let nr = Ratio::from_int(n as i64);
        let d = match self.load_at(&nr) {
            Some(v) => v,
            None => {
                return Err(UslError::Unrepresentable);
            },
        };
        if self.lambda.num == 0 {
            return Err(UslError::UndefinedQuery);
        }
        let x = match d.div_exact(&self.lambda) {
            Some(v) => v,
            None => {
                return Err(UslError::Unrepresentable);
            },
        };
        proof {
            lemma_div_value(d, self.lambda);
            lemma_div_mul_cancel(x@, d@, self.lambda@);
            lemma_feq_trans(
                x@.fmul(self.lambda@),
                d@,
                self.load_factor(Frac::from_int(n as int)),
            );
        }
        Ok(x)
    }
}


impl Model {
    /// The machine steps of the peak-concurrency query.
    pub open spec fn max_conc_steps(self) -> Result<u32, UslError> {
        let one = int_ratio(1);
        if self.kappa.num <= 0 || Frac::from_int(1).flt(self.sigma@) {
            Err(UslError::UndefinedQuery)
        } else {
            match try_sub(one, self.sigma) {
                None => Err(UslError::Unrepresentable),
                Some(t) => match try_div(t, self.kappa) {
                    None => Err(UslError::Unrepresentable),
                    Some(q) => {
                        let w = q.num as int / q.den as int;
                        let s = sqrt_nat(w as nat);
                        if s > u32::MAX {
                            Ok(u32::MAX)
                        } else {
                            Ok(s as u32)
                        }
                    },
                },
            }
        }
    }

    /// Calculate the maximum expected number of concurrent events the system
    /// can handle, `N(max) = floor(sqrt((1 − σ) / κ))`, saturating at
    /// `u32::MAX`. Asks for a strictly positive κ and σ ≤ 1.
    pub fn max_concurrency(&self) -> (r: Result<u32, UslError>)
        requires
            self.wf(),
        ensures
            r == self.max_conc_steps(),
            (r == Err::<u32, UslError>(UslError::UndefinedQuery)) <==> (self.kappa.num <= 0
                || Frac::from_int(1).flt(self.sigma@)),
            r is Ok ==> ({
                let v = r.unwrap() as int;
                &&& Frac::from_int(v * v).fmul(self.kappa@).fle(
                    Frac::from_int(1).fsub(self.sigma@),
                )
                &&& v < u32::MAX as int ==> Frac::from_int(1).fsub(self.sigma@).flt(
                    Frac::from_int((v + 1) * (v + 1)).fmul(self.kappa@),
                )
            }),
    {
        let one = Ratio::from_int(1);
        if self.kappa.num <= 0 {
            return Err(UslError::UndefinedQuery);
        }
        if one.lt(&self.sigma) {
            return Err(UslError::UndefinedQuery);
        }
        let t = match one.sub_exact(&self.sigma) {
            Some(v) => v,
            None => {
                return Err(UslError::Unrepresentable);
            },
        };
        let q = match t.div_exact(&self.kappa) {
            Some(v) => v,
            None => {
                return Err(UslError::Unrepresentable);
            },
        };
        proof {
            let onef = Frac::from_int(1);
            lemma_sub_value(one, self.sigma);
            assert(t@.feq(onef.fsub(self.sigma@)));
            assert(onef.fsub(self.sigma@).n >= 0) by (nonlinear_arith)
                requires
                    !(onef.flt(self.sigma@)),
                    onef == (Frac { n: 1int, d: 1int }),
                    self.sigma.den > 0,
            ;
            assert(onef.fsub(self.sigma@).wf()) by (nonlinear_arith)
                requires
                    self.sigma.den > 0,
                    onef == (Frac { n: 1int, d: 1int }),
            ;
            lemma_feq_sign(t@, onef.fsub(self.sigma@));
            lemma_div_value(t, self.kappa);
            let qi = t@.fdiv(self.kappa@);
            assert(qi.n >= 0 && qi.wf()) by (nonlinear_arith)
                requires
                    t.num >= 0,
                    t.den > 0,
                    self.kappa.num > 0,
                    self.kappa.den > 0,
                    qi == (Frac { n: t.num as int * self.kappa.den as int, d: t.den as int * self.kappa.num as int }),
            ;
            lemma_feq_sign(q@, qi);
            assert(q.num >= 0);
        }
        let w: u128 = (q.num as u128) / (q.den as u128);
        let s: u128 = isqrt_u128(w);
        proof {
            lemma_fundamental_div_mod(q.num as int, q.den as int);
            lemma_sqrt_nat_bounds(w as nat);
        }
        let v: u32 = if s > 0xffff_ffffu128 {
            0xffff_ffffu32
        } else {
            s as u32
        };
        proof {
            let onef = Frac::from_int(1);
            let sf = onef.fsub(self.sigma@);
            let si = s as int;
            let vi = v as int;
            let qn = q.num as int;
            let qd = q.den as int;
            let wi = w as int;
            let rem0 = qn % qd;
            assert(qn == qd * wi + rem0 && rem0 >= 0 && rem0 < qd);
            // v * v <= q as fractions
            assert((vi * vi) * qd <= qn * 1) by (nonlinear_arith)
                requires
                    vi <= si,
                    0 <= vi,
                    si * si <= wi,
                    qn == qd * wi + rem0,
                    rem0 >= 0,
                    qd > 0,
            ;
            assert(Frac::from_int(vi * vi).fle(q@));
            // multiply through by kappa
            crate::rational::lemma_fle_mul_pos(Frac::from_int(vi * vi), q@, self.kappa@);
            // q * kappa has the value of t
            lemma_div_value(t, self.kappa);
            lemma_div_mul_cancel(q@, t@, self.kappa@);
            lemma_sub_value(one, self.sigma);
            assert(sf.wf()) by (nonlinear_arith)
                requires
                    self.sigma.den > 0,
                    onef == (Frac { n: 1int, d: 1int }),
                    sf == onef.fsub(self.sigma@),
            ;
            assert(Frac::from_int(vi * vi).fmul(self.kappa@).wf()) by (nonlinear_arith)
                requires
                    self.kappa.den > 0,
            ;
            assert(q@.fmul(self.kappa@).wf()) by (nonlinear_arith)
                requires
                    q.den > 0,
                    self.kappa.den > 0,
            ;
            lemma_feq_trans(q@.fmul(self.kappa@), t@, sf);
            crate::rational::lemma_fle_congruence(
                Frac::from_int(vi * vi).fmul(self.kappa@),
                q@.fmul(self.kappa@),
                Frac::from_int(vi * vi).fmul(self.kappa@),
                sf,
            );
            // the strict upper side, when not saturated
            if v < 0xffff_ffffu32 {
                assert(vi == si);
                assert(qn * 1 < ((vi + 1) * (vi + 1)) * qd) by (nonlinear_arith)
                    requires
                        vi == si,
                        wi < (si + 1) * (si + 1),
                        qn == qd * wi + rem0,
                        rem0 < qd,
                        qd > 0,
                ;
                assert(q@.flt(Frac::from_int((vi + 1) * (vi + 1))));
                crate::rational::lemma_fle_mul_pos(
                    q@,
                    Frac::from_int((vi + 1) * (vi + 1)),
                    self.kappa@,
                );
                assert(Frac::from_int((vi + 1) * (vi + 1)).fmul(self.kappa@).wf())
                    by (nonlinear_arith)
                    requires
                        self.kappa.den > 0,
                ;
                crate::rational::lemma_fle_congruence(
                    q@.fmul(self.kappa@),
                    Frac::from_int((vi + 1) * (vi + 1)).fmul(self.kappa@),
                    sf,
                    Frac::from_int((vi + 1) * (vi + 1)).fmul(self.kappa@),
                );
            }
        }
        Ok(v)
    }

    /// Calculate the maximum expected throughput the system can handle:
    /// the predicted throughput at the peak concurrency.
    pub fn max_throughput(&self) -> (r: Result<Ratio, UslError>)
        requires
            self.wf(),
        ensures
            r == match self.max_conc_steps() {
                Ok(v) => self.throughput_steps(int_ratio(v as int)),
                Err(e) => Err(e),
            },
            r is Ok ==> r.unwrap().wf(),
    {
        let v = match self.max_concurrency() {
            Ok(v) => v,
            Err(e) => {
                return Err(e);
            },
        };
        self.throughput_at_concurrency(v)
    }
}


impl Model {
    /// The machine steps of the latency-from-throughput query.
    pub open spec fn latency_at_throughput_steps(self, x: Ratio) -> Result<Ratio, UslError> {
        let one = int_ratio(1);
        match try_mul(self.sigma, x) {
            None => Err(UslError::Unrepresentable),
            Some(sx) => match try_sub(sx, self.lambda) {
                None => Err(UslError::Unrepresentable),
                Some(den) => if den.num == 0 {
                    Err(UslError::UndefinedQuery)
                } else {
                    match try_sub(self.sigma, one) {
                        None => Err(UslError::Unrepresentable),
                        Some(top) => match try_div(top, den) {
                            None => Err(UslError::Unrepresentable),
                            Some(l) => Ok(l),
                        },
                    }
                },
            },
        }
    }

    /// Calculate the expected mean latency given a throughput,
    /// `R(X) = (σ − 1) / (σX − λ)`; undefined where `σX == λ`.
    pub fn latency_at_throughput(&self, x: &Ratio) -> (r: Result<Ratio, UslError>)
        requires
            self.wf(),
            x.wf(),
        ensures
            r == self.latency_at_throughput_steps(*x),
            r is Ok ==> r.unwrap().wf() && r.unwrap()@.fmul(
                self.sigma@.fmul(x@).fsub(self.lambda@),
            ).feq(self.sigma@.fsub(Frac::from_int(1))),
            (r == Err::<Ratio, UslError>(UslError::UndefinedQuery)) ==> self.sigma@.fmul(
                x@,
            ).feq(self.lambda@),
    {
        let one = Ratio::from_int(1);
        let sx = match self.sigma.mul_exact(x) {
            Some(v) => v,
            None => {
                return Err(UslError::Unrepresentable);
            },
        };
        let den = match sx.sub_exact(&self.lambda) {
            Some(v) => v,
            None => {
                return Err(UslError::Unrepresentable);
            },
        };
        if den.num == 0 {
            proof {
                lemma_mul_value(self.sigma, *x);
                lemma_sub_value(sx, self.lambda);
                crate::rational::lemma_fsub_zero(sx@, self.lambda@);
                assert(sx@.fsub(self.lambda@).wf()) by (nonlinear_arith)
                    requires
                        sx.den > 0,
                        self.lambda.den > 0,
                ;
                lemma_feq_sign(den@, sx@.fsub(self.lambda@));
                assert(sx@.feq(self.lambda@));
                assert(self.sigma@.fmul(x@).wf()) by (nonlinear_arith)
                    requires
                        self.sigma.den > 0,
                        x.den > 0,
                ;
                lemma_feq_trans(self.sigma@.fmul(x@), sx@, self.lambda@);
            }
            return Err(UslError::UndefinedQuery);
        }
        let top = match self.sigma.sub_exact(&one) {
            Some(v) => v,
            None => {
                return Err(UslError::Unrepresentable);
            },
        };
        let l = match top.div_exact(&den) {
            Some(v) => v,
            None => {
                return Err(UslError::Unrepresentable);
            },
        };
        proof {
            lemma_mul_value(self.sigma, *x);
            lemma_sub_value(sx, self.lambda);
            lemma_sub_value(self.sigma, one);
            lemma_div_value(top, den);
            lemma_div_mul_cancel(l@, top@, den@);
            // carry the exact value of the denominator across
            let idean = self.sigma@.fmul(x@).fsub(self.lambda@);
            assert(self.sigma@.fmul(x@).wf()) by (nonlinear_arith)
                requires
                    self.sigma.den > 0,
                    x.den > 0,
            ;
            assert(sx@.fsub(self.lambda@).wf() && self.sigma@.fsub(Frac::from_int(1)).wf())
                by (nonlinear_arith)
                requires
                    sx.den > 0,
                    self.lambda.den > 0,
                    self.sigma.den > 0,
            ;
            crate::rational::lemma_fsub_cong(sx@, self.lambda@, self.sigma@.fmul(x@), self.lambda@);
            lemma_feq_trans(den@, sx@.fsub(self.lambda@), idean);
            lemma_fmul_cong(l@, den@, l@, idean);
            lemma_feq_trans(l@.fmul(idean), l@.fmul(den@), top@);
            lemma_feq_trans(l@.fmul(idean), top@, self.sigma@.fsub(Frac::from_int(1)));
        }
        Ok(l)
    }

    /// Calculate the expected number of concurrent events at a particular
    /// throughput, `N(X) = R(X) · X`.
    pub fn concurrency_at_throughput(&self, x: &Ratio) -> (r: Result<Ratio, UslError>)
        requires
            self.wf(),
            x.wf(),
        ensures
            r == match self.latency_at_throughput_steps(*x) {
                Ok(l) => match try_mul(l, *x) {
                    None => Err(UslError::Unrepresentable),
                    Some(n) => Ok(n),
                },
                Err(e) => Err(e),
            },
            r is Ok ==> r.unwrap().wf(),
    {
        let l = match self.latency_at_throughput(x) {
            Ok(v) => v,
            Err(e) => {
                return Err(e);
            },
        };
        match l.mul_exact(x) {
            Some(n) => Ok(n),
            None => Err(UslError::Unrepresentable),
        }
    }
}


impl Model {
    /// The exact discriminant under the square root of the latency-side
    /// queries: `σ² + κ² + 2κ(2λr + σ − 2)`.
    pub open spec fn disc_factor(self, rf: Frac) -> Frac {
        let two = Frac::from_int(2);
        self.sigma@.fmul(self.sigma@).fadd(self.kappa@.fmul(self.kappa@)).fadd(
            two.fmul(self.kappa@.fmul(two.fmul(self.lambda@.fmul(rf)).fadd(self.sigma@).fsub(two))),
        )
    }

    /// The machine steps that evaluate the discriminant.
    pub open spec fn disc_steps(self, rr: Ratio) -> Option<Ratio> {
        let two = int_ratio(2);
        match try_mul(self.sigma, self.sigma) {
            None => None,
            Some(s2) => match try_mul(self.kappa, self.kappa) {
                None => None,
                Some(k2) => match try_add(s2, k2) {
                    None => None,
                    Some(c1) => match try_mul(self.lambda, rr) {
                        None => None,
                        Some(lr) => match try_mul(two, lr) {
                            None => None,
                            Some(lr2) => match try_add(lr2, self.sigma) {
                                None => None,
                                Some(a) => match try_sub(a, two) {
                                    None => None,
                                    Some(a2) => match try_mul(self.kappa, a2) {
                                        None => None,
                                        Some(b) => match try_mul(two, b) {
                                            None => None,
                                            Some(b2) => try_add(c1, b2),
                                        },
                                    },
                                },
                            },
                        },
                    },
                },
            },
        }
    }

    /// Evaluate the discriminant at a rational latency.
    fn disc_at(&self, rr: &Ratio) -> (r: Option<Ratio>)
        requires
            self.wf(),
            rr.wf(),
        ensures
            r == self.disc_steps(*rr),
            r is Some ==> r.unwrap().wf() && self.disc_factor(rr@).wf() && r.unwrap()@.feq(
                self.disc_factor(rr@),
            ),
    {
        let two = Ratio::from_int(2);
        let s2 = match self.sigma.mul_exact(&self.sigma) {
            Some(v) => v,
            None => {
                return None;
            },
        };
        let k2 = match self.kappa.mul_exact(&self.kappa) {
            Some(v) => v,
            None => {
                return None;
            },
        };
        let c1 = match s2.add_exact(&k2) {
            Some(v) => v,
            None => {
                return None;
            },
        };
        let lr = match self.lambda.mul_exact(rr) {
            Some(v) => v,
            None => {
                return None;
            },
        };
        let lr2 = match two.mul_exact(&lr) {
            Some(v) => v,
            None => {
                return None;
            },
        };
        let a = match lr2.add_exact(&self.sigma) {
            Some(v) => v,
            None => {
                return None;
            },
        };
        let a2 = match a.sub_exact(&two) {
            Some(v) => v,
            None => {
                return None;
            },
        };
        let b = match self.kappa.mul_exact(&a2) {
            Some(v) => v,
            None => {
                return None;
            },
        };
        let b2 = match two.mul_exact(&b) {
            Some(v) => v,
            None => {
                return None;
            },
        };
        let disc = match c1.add_exact(&b2) {
            Some(v) => v,
            None => {
                return None;
            },
        };
        proof {
            let twof = Frac::from_int(2);
            let rf = rr@;
            let sg = self.sigma@;
            let kp = self.kappa@;
            let lm = self.lambda@;
            lemma_mul_value(self.sigma, self.sigma);
            lemma_mul_value(self.kappa, self.kappa);
            lemma_add_value(s2, k2);
            lemma_fadd_cong(s2@, k2@, sg.fmul(sg), kp.fmul(kp));
            lemma_feq_trans(c1@, s2@.fadd(k2@), sg.fmul(sg).fadd(kp.fmul(kp)));
            lemma_mul_value(self.lambda, *rr);
            lemma_mul_value(two, lr);
            lemma_fmul_cong(two@, lr@, twof, lm.fmul(rf));
            lemma_feq_trans(lr2@, two@.fmul(lr@), twof.fmul(lm.fmul(rf)));
            lemma_add_value(lr2, self.sigma);
            lemma_fadd_cong(lr2@, sg, twof.fmul(lm.fmul(rf)), sg);
            lemma_feq_trans(a@, lr2@.fadd(sg), twof.fmul(lm.fmul(rf)).fadd(sg));
            lemma_sub_value(a, two);
            lemma_fsub_cong(a@, two@, twof.fmul(lm.fmul(rf)).fadd(sg), twof);
            lemma_feq_trans(a2@, a@.fsub(two@), twof.fmul(lm.fmul(rf)).fadd(sg).fsub(twof));
            lemma_mul_value(self.kappa, a2);
            lemma_fmul_cong(kp, a2@, kp, twof.fmul(lm.fmul(rf)).fadd(sg).fsub(twof));
            lemma_feq_trans(
                b@,
                kp.fmul(a2@),
                kp.fmul(twof.fmul(lm.fmul(rf)).fadd(sg).fsub(twof)),
            );
            lemma_mul_value(two, b);
            lemma_fmul_cong(two@, b@, twof, kp.fmul(twof.fmul(lm.fmul(rf)).fadd(sg).fsub(twof)));
            lemma_feq_trans(
                b2@,
                two@.fmul(b@),
                twof.fmul(kp.fmul(twof.fmul(lm.fmul(rf)).fadd(sg).fsub(twof))),
            );
            lemma_add_value(c1, b2);
            lemma_fadd_cong(
                c1@,
                b2@,
                sg.fmul(sg).fadd(kp.fmul(kp)),
                twof.fmul(kp.fmul(twof.fmul(lm.fmul(rf)).fadd(sg).fsub(twof))),
            );
            lemma_feq_trans(disc@, c1@.fadd(b2@), self.disc_factor(rf));
        }
        Some(disc)
    }

    /// The machine steps up to and including the grid square root of the
    /// discriminant.
    pub open spec fn disc_sqrt_steps(self, rr: Ratio) -> Option<Ratio> {
        match self.disc_steps(rr) {
            None => None,
            Some(d) => if d.num < 0 {
                None
            } else {
                crate::rational::try_sqrt_grid(d)
            },
        }
    }

    /// The machine steps of the throughput-from-latency query.
    pub open spec fn throughput_at_latency_steps(self, rr: Ratio) -> Result<Ratio, UslError> {
        let two = int_ratio(2);
        if self.kappa.num <= 0 || rr.num <= 0 {
            Err(UslError::UndefinedQuery)
        } else {
            match self.disc_steps(rr) {
                None => Err(UslError::Unrepresentable),
                Some(d) => if d.num < 0 {
                    Err(UslError::UndefinedQuery)
                } else {
                    match crate::rational::try_sqrt_grid(d) {
                        None => Err(UslError::Unrepresentable),
                        Some(s) => match try_sub(s, self.kappa) {
                            None => Err(UslError::Unrepresentable),
                            Some(t1) => match try_add(t1, self.sigma) {
                                None => Err(UslError::Unrepresentable),
                                Some(top) => match try_mul(two, self.kappa) {
                                    None => Err(UslError::Unrepresentable),
                                    Some(b1) => match try_mul(b1, rr) {
                                        None => Err(UslError::Unrepresentable),
                                        Some(bot) => match try_div(top, bot) {
                                            None => Err(UslError::Unrepresentable),
                                            Some(x) => Ok(x),
                                        },
                                    },
                                },
                            },
                        },
                    }
                },
            }
        }
    }

    /// Calculate the expected throughput given a mean latency,
    /// `X(R) = (sqrt(σ² + κ² + 2κ(2λR + σ − 2)) − κ + σ) / (2κR)`, with the
    /// square root taken on the grid of `1 / SQRT_GRID`. Asks for κ > 0 and
    /// R > 0.
    pub fn throughput_at_latency(&self, rr: &Ratio) -> (r: Result<Ratio, UslError>)
        requires
            self.wf(),
            rr.wf(),
        ensures
            r == self.throughput_at_latency_steps(*rr),
            r is Ok ==> ({
                let s = self.disc_sqrt_steps(*rr).unwrap();
                let splus = Frac { n: s@.n + 1, d: s@.d };
                &&& r.unwrap().wf()
                &&& s.wf()
                &&& s@.fmul(s@).fle(self.disc_factor(rr@))
                &&& self.disc_factor(rr@).flt(splus.fmul(splus))
                &&& r.unwrap()@.fmul(
                    Frac::from_int(2).fmul(self.kappa@).fmul(rr@),
                ).feq(s@.fsub(self.kappa@).fadd(self.sigma@))
            }),
    {
        let two = Ratio::from_int(2);
        if self.kappa.num <= 0 || rr.num <= 0 {
            return Err(UslError::UndefinedQuery);
        }
        let d = match self.disc_at(rr) {
            Some(v) => v,
            None => {
                return Err(UslError::Unrepresentable);
            },
        };
        if d.num < 0 {
            return Err(UslError::UndefinedQuery);
        }
        let s = match d.sqrt_grid() {
            Some(v) => v,
            None => {
                return Err(UslError::Unrepresentable);
            },
        };
        let t1 = match s.sub_exact(&self.kappa) {
            Some(v) => v,
            None => {
                return Err(UslError::Unrepresentable);
            },
        };
        let top = match t1.add_exact(&self.sigma) {
            Some(v) => v,
            None => {
                return Err(UslError::Unrepresentable);
            },
        };
        let b1 = match two.mul_exact(&self.kappa) {
            Some(v) => v,
            None => {
                return Err(UslError::Unrepresentable);
            },
        };
        let bot = match b1.mul_exact(rr) {
            Some(v) => v,
            None => {
                return Err(UslError::Unrepresentable);
            },
        };
        let x = match top.div_exact(&bot) {
            Some(v) => v,
            None => {
                return Err(UslError::Unrepresentable);
            },
        };
        proof {
            let twof = Frac::from_int(2);
            let kp = self.kappa@;
            let sg = self.sigma@;
            let rf = rr@;
            let g = crate::rational::SQRT_GRID as int;
            let splus = Frac { n: s@.n + 1, d: s@.d };
            // the square-root bracket, moved from the machine value of the
            // discriminant to its exact value
            assert(s@.fmul(s@).fle(d@) && d@.flt(splus.fmul(splus))) by (nonlinear_arith)
                requires
                    s.num * s.num * d.den <= d.num * g * g,
                    d.num * g * g < (s.num + 1) * (s.num + 1) * d.den,
                    s.den == g,
                    g > 0,
                    d.den > 0,
                    splus == (Frac { n: s.num as int + 1, d: g }),
            ;
            assert(s@.fmul(s@).wf() && splus.fmul(splus).wf()) by (nonlinear_arith)
                requires
                    s.den == g,
                    g > 0,
                    splus == (Frac { n: s.num as int + 1, d: g }),
            ;
            crate::rational::lemma_fle_congruence(
                s@.fmul(s@),
                d@,
                s@.fmul(s@),
                self.disc_factor(rf),
            );
            crate::rational::lemma_fle_congruence(
                d@,
                splus.fmul(splus),
                self.disc_factor(rf),
                splus.fmul(splus),
            );
            // the value of the quotient
            lemma_sub_value(s, self.kappa);
            lemma_add_value(t1, self.sigma);
            lemma_fadd_cong(t1@, sg, s@.fsub(kp), sg);
            lemma_feq_trans(top@, t1@.fadd(sg), s@.fsub(kp).fadd(sg));
            lemma_mul_value(two, self.kappa);
            lemma_mul_value(b1, *rr);
            lemma_fmul_cong(b1@, rf, twof.fmul(kp), rf);
            lemma_feq_trans(bot@, b1@.fmul(rf), twof.fmul(kp).fmul(rf));
            lemma_div_value(top, bot);
            lemma_div_mul_cancel(x@, top@, bot@);
            lemma_fmul_cong(x@, bot@, x@, twof.fmul(kp).fmul(rf));
            lemma_feq_trans(x@.fmul(twof.fmul(kp).fmul(rf)), x@.fmul(bot@), top@);
            lemma_feq_trans(
                x@.fmul(twof.fmul(kp).fmul(rf)),
                top@,
                s@.fsub(kp).fadd(sg),
            );
        }
        Ok(x)
    }

    /// The machine steps of the concurrency-from-latency query.
    pub open spec fn concurrency_at_latency_steps(self, rr: Ratio) -> Result<Ratio, UslError> {
        let two = int_ratio(2);
        if self.kappa.num <= 0 || rr.num <= 0 {
            Err(UslError::UndefinedQuery)
        } else {
            match self.disc_steps(rr) {
                None => Err(UslError::Unrepresentable),
                Some(d) => if d.num < 0 {
                    Err(UslError::UndefinedQuery)
                } else {
                    match crate::rational::try_sqrt_grid(d) {
                        None => Err(UslError::Unrepresentable),
                        Some(s) => match try_sub(self.kappa, self.sigma) {
                            None => Err(UslError::Unrepresentable),
                            Some(t1) => match try_add(t1, s) {
                                None => Err(UslError::Unrepresentable),
                                Some(top) => match try_mul(two, self.kappa) {
                                    None => Err(UslError::Unrepresentable),
                                    Some(bot) => match try_div(top, bot) {
                                        None => Err(UslError::Unrepresentable),
                                        Some(n) => Ok(n),
                                    },
                                },
                            },
                        },
                    }
                },
            }
        }
    }

    /// Calculate the expected number of concurrent events at a particular
    /// mean latency, `N(R) = (κ − σ + sqrt(σ² + κ² + 2κ(2λR + σ − 2))) / (2κ)`,
    /// with the square root taken on the grid of `1 / SQRT_GRID`. Asks for
    /// κ > 0 and R > 0.
    pub fn concurrency_at_latency(&self, rr: &Ratio) -> (r: Result<Ratio, UslError>)
        requires
            self.wf(),
            rr.wf(),
        ensures
            r == self.concurrency_at_latency_steps(*rr),
            r is Ok ==> ({
                let s = self.disc_sqrt_steps(*rr).unwrap();
                let splus = Frac { n: s@.n + 1, d: s@.d };
                &&& r.unwrap().wf()
                &&& s.wf()
                &&& s@.fmul(s@).fle(self.disc_factor(rr@))
                &&& self.disc_factor(rr@).flt(splus.fmul(splus))
                &&& r.unwrap()@.fmul(Frac::from_int(2).fmul(self.kappa@)).feq(
                    self.kappa@.fsub(self.sigma@).fadd(s@),
                )
            }),
    {
        let two = Ratio::from_int(2);
        if self.kappa.num <= 0 || rr.num <= 0 {
            return Err(UslError::UndefinedQuery);
        }
        let d = match self.disc_at(rr) {
            Some(v) => v,
            None => {
                return Err(UslError::Unrepresentable);
            },
        };
        if d.num < 0 {
            return Err(UslError::UndefinedQuery);
        }
        let s = match d.sqrt_grid() {
            Some(v) => v,
            None => {
                return Err(UslError::Unrepresentable);
            },
        };
        let t1 = match self.kappa.sub_exact(&self.sigma) {
            Some(v) => v,
            None => {
                return Err(UslError::Unrepresentable);
            },
        };
        let top = match t1.add_exact(&s) {
            Some(v) => v,
            None => {
                return Err(UslError::Unrepresentable);
            },
        };
        let bot = match two.mul_exact(&self.kappa) {
            Some(v) => v,
            None => {
                return Err(UslError::Unrepresentable);
            },
        };
        let n = match top.div_exact(&bot) {
            Some(v) => v,
            None => {
                return Err(UslError::Unrepresentable);
            },
        };
        proof {
            let twof = Frac::from_int(2);
            let kp = self.kappa@;
            let sg = self.sigma@;
            let rf = rr@;
            let g = crate::rational::SQRT_GRID as int;
            let splus = Frac { n: s@.n + 1, d: s@.d };
            assert(s@.fmul(s@).fle(d@) && d@.flt(splus.fmul(splus))) by (nonlinear_arith)
                requires
                    s.num * s.num * d.den <= d.num * g * g,
                    d.num * g * g < (s.num + 1) * (s.num + 1) * d.den,
                    s.den == g,
                    g > 0,
                    d.den > 0,
                    splus == (Frac { n: s.num as int + 1, d: g }),
            ;
            assert(s@.fmul(s@).wf() && splus.fmul(splus).wf()) by (nonlinear_arith)
                requires
                    s.den == g,
                    g > 0,
                    splus == (Frac { n: s.num as int + 1, d: g }),
            ;
            crate::rational::lemma_fle_congruence(
                s@.fmul(s@),
                d@,
                s@.fmul(s@),
                self.disc_factor(rf),
            );
            crate::rational::lemma_fle_congruence(
                d@,
                splus.fmul(splus),
                self.disc_factor(rf),
                splus.fmul(splus),
            );
            lemma_sub_value(self.kappa, self.sigma);
            lemma_add_value(t1, s);
            assert(kp.fsub(sg).wf()) by (nonlinear_arith)
                requires
                    kp.d > 0,
                    sg.d > 0,
            ;
            lemma_fadd_cong(t1@, s@, kp.fsub(sg), s@);
            lemma_feq_trans(top@, t1@.fadd(s@), kp.fsub(sg).fadd(s@));
            lemma_mul_value(two, self.kappa);
            lemma_div_value(top, bot);
            lemma_div_mul_cancel(n@, top@, bot@);
            lemma_fmul_cong(n@, bot@, n@, twof.fmul(kp));
            lemma_feq_trans(n@.fmul(twof.fmul(kp)), n@.fmul(bot@), top@);
            lemma_feq_trans(n@.fmul(twof.fmul(kp)), top@, kp.fsub(sg).fadd(s@));
        }
        Ok(n)
    }
}


/// The tolerance under which a coherency coefficient counts as zero: one
/// part in 2^52.
pub open spec fn limitless_tolerance() -> Frac {
    Frac { n: 1, d: 0x10_0000_0000_0000 }
}

impl Model {
    /// Whether the system is constrained by contention effects: `σ > κ`.
    pub fn is_contention_constrained(&self) -> (r: bool)
        requires
            self.wf(),
        ensures
            r == self.kappa@.flt(self.sigma@),
    {
        self.kappa.lt(&self.sigma)
    }

    /// Whether the system is constrained by coherency effects: `σ < κ`.
    pub fn is_coherency_constrained(&self) -> (r: bool)
        requires
            self.wf(),
        ensures
            r == self.sigma@.flt(self.kappa@),
    {
        self.sigma.lt(&self.kappa)
    }

    /// Whether the system is linearly scalable: κ is zero within tolerance.
    pub fn is_limitless(&self) -> (r: bool)
        requires
            self.wf(),
        ensures
            r == (self.kappa@.fle(limitless_tolerance())
                && limitless_tolerance().fneg().fle(self.kappa@)),
    {
        let eps = Ratio { num: 1, den: 0x10_0000_0000_0000 };
        self.kappa.le(&eps) && eps.negated().le(&self.kappa)
    }

    /// Whether the system is constrained by contention effects: `σ > κ`.
    pub fn contention_constrained(&self) -> (r: bool)
        requires
            self.wf(),
        ensures
            r == self.kappa@.flt(self.sigma@),
    {
        self.is_contention_constrained()
    }

    /// Whether the system is constrained by coherency effects: `σ < κ`.
    pub fn coherency_constrained(&self) -> (r: bool)
        requires
            self.wf(),
        ensures
            r == self.sigma@.flt(self.kappa@),
    {
        self.is_coherency_constrained()
    }

    /// Whether the system is linearly scalable: κ is zero within tolerance.
    pub fn limitless(&self) -> (r: bool)
        requires
            self.wf(),
        ensures
            r == (self.kappa@.fle(limitless_tolerance())
                && limitless_tolerance().fneg().fle(self.kappa@)),
    {
        self.is_limitless()
    }
}

} // verus!
