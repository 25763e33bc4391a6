//! The laws of the model, stated and proved once and for all.
//!
//! Each proof function here is a theorem about the contracts of the public
//! operations: its premises are exactly what those contracts give a caller,
//! and its conclusion is a property promised of the library as a whole.

use vstd::prelude::*;
use crate::model::{limitless_tolerance, Model};
use crate::rational::Frac;

verus! {

/// The classification predicates partition the parameter space. Where κ lies
/// outside the zero tolerance — within it the limitless classification can
/// overlap the other two, as it does for σ = κ = 2⁻⁵³ — the system is by
/// definition not limitless, contention and coherency exclude one another,
/// so the three are pairwise exclusive for σ ≠ κ; and where moreover σ
/// equals κ in value, all three are false.
pub proof fn lemma_classifications_partition(m: Model)
    requires
        m.wf(),
        !(m.kappa@.fle(limitless_tolerance()) && limitless_tolerance().fneg().fle(m.kappa@)),
    ensures
        !(m.kappa@.flt(m.sigma@) && m.sigma@.flt(m.kappa@)),
        m.sigma@.feq(m.kappa@) ==> !m.kappa@.flt(m.sigma@) && !m.sigma@.flt(m.kappa@),
{
}

/// The closed form of the load factor at a whole-number concurrency, over a
/// common denominator.
pub open spec fn load_closed(m: Model, n: int) -> Frac {
    Frac {
        n: ((m.sigma.den as int) + (m.sigma.num as int) * (n - 1)) * (m.kappa.den as int) + (
        m.kappa.num as int) * n * (n - 1) * (m.sigma.den as int),
        d: (m.sigma.den as int) * (m.kappa.den as int),
    }
}

/// At a whole-number concurrency the load factor is exactly its closed form.
pub proof fn lemma_load_factor_closed(m: Model, n: int)
    requires
        m.wf(),
    ensures
        m.load_factor(Frac::from_int(n)) == load_closed(m, n),
{
    let sn = m.sigma.num as int;
    let sd = m.sigma.den as int;
    let kn = m.kappa.num as int;
    let kd = m.kappa.den as int;
    let one = Frac::from_int(1);
    let nf = Frac::from_int(n);
    assert(nf.fsub(one) == (Frac { n: n * 1 - 1 * 1, d: 1int * 1 }));
    assert(n * 1 - 1 * 1 == n - 1) by (nonlinear_arith);
    assert(m.sigma@.fmul(nf.fsub(one)) == (Frac { n: sn * (n - 1), d: sd * 1 }));
    assert(sd * 1 == sd) by (nonlinear_arith);
    assert(one.fadd(m.sigma@.fmul(nf.fsub(one))) == (Frac {
        n: 1 * sd + sn * (n - 1) * 1,
        d: 1 * sd,
    }));
    assert(1 * sd + sn * (n - 1) * 1 == sd + sn * (n - 1)) by (nonlinear_arith);
    assert(1 * sd == sd) by (nonlinear_arith);
    assert(m.kappa@.fmul(nf) == (Frac { n: kn * n, d: kd * 1 }));
    assert(kd * 1 == kd) by (nonlinear_arith);
    assert(m.kappa@.fmul(nf).fmul(nf.fsub(one)) == (Frac { n: kn * n * (n - 1), d: kd * 1 }));
    assert(m.load_factor(nf) == (Frac {
        n: (sd + sn * (n - 1)) * kd + kn * n * (n - 1) * sd,
        d: sd * kd,
    }));
}

/// In the physically meaningful regime the load factor is positive at every
/// positive whole-number concurrency.
pub proof fn lemma_load_closed_pos(m: Model, n: int)
    requires
        m.wf(),
        m.sigma.num >= 0,
        m.kappa.num > 0,
        n >= 1,
    ensures
        load_closed(m, n).n > 0,
        load_closed(m, n).wf(),
{
    let sn = m.sigma.num as int;
    let sd = m.sigma.den as int;
    let kn = m.kappa.num as int;
    let kd = m.kappa.den as int;
    assert(((sd + sn * (n - 1)) * kd + kn * n * (n - 1) * sd > 0) && sd * kd > 0)
        by (nonlinear_arith)
        requires
            sd > 0,
            kd > 0,
            sn >= 0,
            kn > 0,
            n >= 1,
    ;
}

/// The heart of the peak law: between two positive whole-number
/// concurrencies, predicted throughput is ordered by the sign of
/// `(a − b) · (1 − σ − κab)`.
pub proof fn lemma_throughput_order(m: Model, a: int, b: int, xa: Frac, xb: Frac)
    requires
        m.wf(),
        xa.wf(),
        xb.wf(),
        m.sigma.num >= 0,
        m.kappa.num > 0,
        m.lambda.num > 0,
        a >= 1,
        b >= 1,
        xa.fmul(m.load_factor(Frac::from_int(a))).feq(m.lambda@.fmul(Frac::from_int(a))),
        xb.fmul(m.load_factor(Frac::from_int(b))).feq(m.lambda@.fmul(Frac::from_int(b))),
        Frac::from_int(0).fle(
            Frac::from_int(a - b).fmul(
                Frac::from_int(1).fsub(m.sigma@).fsub(m.kappa@.fmul(Frac::from_int(a * b))),
            ),
        ),
    ensures
        xb.fle(xa),
{
    let sn = m.sigma.num as int;
    let sd = m.sigma.den as int;
    let kn = m.kappa.num as int;
    let kd = m.kappa.den as int;
    let ln = m.lambda.num as int;
    let ld = m.lambda.den as int;
    lemma_load_factor_closed(m, a);
    lemma_load_factor_closed(m, b);
    lemma_load_closed_pos(m, a);
    lemma_load_closed_pos(m, b);
    let da = load_closed(m, a);
    let db = load_closed(m, b);
    // the sign hypothesis, written out over the components
    let sign = (a - b) * ((sd - sn) * kd - kn * (a * b) * sd);
    assert(Frac::from_int(1).fsub(m.sigma@) == (Frac { n: 1 * sd - sn * 1, d: 1 * sd }));
    assert(m.kappa@.fmul(Frac::from_int(a * b)) == (Frac { n: kn * (a * b), d: kd * 1 }));
    assert(Frac::from_int(1).fsub(m.sigma@).fsub(m.kappa@.fmul(Frac::from_int(a * b))) == (Frac {
        n: (1 * sd - sn * 1) * (kd * 1) - kn * (a * b) * (1 * sd),
        d: 1 * sd * (kd * 1),
    }));
    assert(0 <= sign) by (nonlinear_arith)
        requires
            Frac::from_int(0).fle(
                Frac::from_int(a - b).fmul(
                    Frac::from_int(1).fsub(m.sigma@).fsub(m.kappa@.fmul(Frac::from_int(a * b))),
                ),
            ),
            Frac::from_int(a - b).fmul(
                Frac::from_int(1).fsub(m.sigma@).fsub(m.kappa@.fmul(Frac::from_int(a * b))),
            ) == (Frac {
                n: (a - b) * ((1 * sd - sn * 1) * (kd * 1) - kn * (a * b) * (1 * sd)),
                d: 1 * (1 * sd * (kd * 1)),
            }),
            sign == (a - b) * ((sd - sn) * kd - kn * (a * b) * sd),
            sd > 0,
            kd > 0,
    ;
    // the denominators of the two load factors agree, so the comparison of
    // λb · D(a) against λa · D(b) is decided by b · D(a).n against a · D(b).n
    let u = sd * kd;
    let v = sn * kd;
    let w = kn * sd;
    assert(da.n == u + v * (a - 1) + w * (a * (a - 1))) by (nonlinear_arith)
        requires
            da.n == (sd + sn * (a - 1)) * kd + kn * a * (a - 1) * sd,
            u == sd * kd,
            v == sn * kd,
            w == kn * sd,
    ;
    assert(db.n == u + v * (b - 1) + w * (b * (b - 1))) by (nonlinear_arith)
        requires
            db.n == (sd + sn * (b - 1)) * kd + kn * b * (b - 1) * sd,
            u == sd * kd,
            v == sn * kd,
            w == kn * sd,
    ;
    let p = a - b;
    let q = a * b;
    let t1 = v * (a * (b - 1));
    let t2 = w * (a * (b * (b - 1)));
    let t3 = v * (b * (a - 1));
    let t4 = w * (b * (a * (a - 1)));
    assert(t1 == v * q - v * a) by (nonlinear_arith)
        requires
            t1 == v * (a * (b - 1)),
            q == a * b,
    ;
    assert(t2 == (w * q) * b - w * q) by (nonlinear_arith)
        requires
            t2 == w * (a * (b * (b - 1))),
            q == a * b,
    ;
    assert(t3 == v * q - v * b) by (nonlinear_arith)
        requires
            t3 == v * (b * (a - 1)),
            q == a * b,
    ;
    assert(t4 == (w * q) * a - w * q) by (nonlinear_arith)
        requires
            t4 == w * (b * (a * (a - 1))),
            q == a * b,
    ;
    assert(a * db.n == a * u + t1 + t2) by (nonlinear_arith)
        requires
            db.n == u + v * (b - 1) + w * (b * (b - 1)),
            t1 == v * (a * (b - 1)),
            t2 == w * (a * (b * (b - 1))),
    ;
    assert(b * da.n == b * u + t3 + t4) by (nonlinear_arith)
        requires
            da.n == u + v * (a - 1) + w * (a * (a - 1)),
            t3 == v * (b * (a - 1)),
            t4 == w * (b * (a * (a - 1))),
    ;
    assert(a * u - b * u == u * p) by (nonlinear_arith)
        requires
            p == a - b,
    ;
    assert(v * b - v * a == -(v * p)) by (nonlinear_arith)
        requires
            p == a - b,
    ;
    assert((w * q) * b - (w * q) * a == -((w * q) * p)) by (nonlinear_arith)
        requires
            p == a - b,
    ;
    assert(p * (u - v - w * q) == u * p - v * p - (w * q) * p) by (nonlinear_arith);
    assert((a - b) * ((sd - sn) * kd - kn * (a * b) * sd) == p * (u - v - w * q))
        by (nonlinear_arith)
        requires
            u == sd * kd,
            v == sn * kd,
            w == kn * sd,
            p == a - b,
            q == a * b,
    ;
    assert(v * p == v * a - v * b) by (nonlinear_arith)
        requires
            p == a - b,
    ;
    assert(a * db.n - b * da.n == u * p - v * p - (w * q) * p);
    assert(b * da.n <= a * db.n);
    // lift that to the fraction ordering of λ ⊗ b ⊗ D(a) and λ ⊗ a ⊗ D(b)
    let lb_da = m.lambda@.fmul(Frac::from_int(b)).fmul(da);
    let la_db = m.lambda@.fmul(Frac::from_int(a)).fmul(db);
    assert(lb_da == (Frac { n: ln * b * da.n, d: ld * 1 * da.d }));
    assert(la_db == (Frac { n: ln * a * db.n, d: ld * 1 * db.d }));
    assert(lb_da.fle(la_db)) by (nonlinear_arith)
        requires
            lb_da == (Frac { n: ln * b * da.n, d: ld * 1 * da.d }),
            la_db == (Frac { n: ln * a * db.n, d: ld * 1 * db.d }),
            da.d == sd * kd,
            db.d == sd * kd,
            b * da.n <= a * db.n,
            ln > 0,
            ld > 0,
            sd > 0,
            kd > 0,
    ;
    // and finally move the ordering back over the contract equalities
    let dd = da.fmul(db);
    assert(dd.n > 0 && dd.wf()) by (nonlinear_arith)
        requires
            da.n > 0,
            db.n > 0,
            da.d > 0,
            db.d > 0,
            dd == da.fmul(db),
    ;
    // well-formedness of everything the congruences touch
    assert(xa.fmul(da).wf() && xb.fmul(db).wf() && xa.fmul(dd).wf() && xb.fmul(dd).wf()
        && m.lambda@.fmul(Frac::from_int(a)).wf() && m.lambda@.fmul(Frac::from_int(b)).wf())
        by (nonlinear_arith)
        requires
            xa.d > 0,
            xb.d > 0,
            da.d > 0,
            db.d > 0,
            dd.d > 0,
            ld > 0,
            dd == da.fmul(db),
            m.lambda@.d == ld,
    ;
    crate::rational::lemma_fmul_assoc_shuffle(xa, da, db);
    crate::rational::lemma_fmul_assoc_shuffle(xb, db, da);
    crate::rational::lemma_fmul_comm_struct(da, db);
    // xa ⊗ (da ⊗ db) == (xa ⊗ da) ⊗ db ≃ (λ ⊗ a) ⊗ db, and its mirror image
    crate::rational::lemma_fmul_cong_l(
        xa.fmul(da),
        m.lambda@.fmul(Frac::from_int(a)),
        db,
    );
    crate::rational::lemma_fmul_cong_l(
        xb.fmul(db),
        m.lambda@.fmul(Frac::from_int(b)),
        da,
    );
    assert(xa.fmul(dd).feq(la_db));
    assert(xb.fmul(dd) == xb.fmul(db).fmul(da));
    assert(xb.fmul(dd).feq(lb_da));
    crate::rational::lemma_fle_congruence(xb.fmul(dd), xa.fmul(dd), lb_da, la_db);
    crate::rational::lemma_fle_mul_pos(xb, xa, dd);
}


/// The peak law: the concurrency the model names as its maximum is a local
/// maximum of predicted throughput. Stepping down by one never gains
/// throughput. Stepping up by one gains nothing either, provided the floor
/// landed above the true real-valued peak, which the premise
/// `1 − σ ≤ κ·v·(v+1)` states; where it lands below — as it does for models
/// in wide use — one step up still gains a little, so that premise is the
/// exact boundary of the law.
pub proof fn lemma_peak_local_max(m: Model, v: int, xv: Frac, xlo: Frac, xhi: Frac)
    requires
        m.wf(),
        xv.wf(),
        xlo.wf(),
        xhi.wf(),
        m.sigma.num >= 0,
        m.kappa.num > 0,
        m.lambda.num > 0,
        v >= 2,
        xv.fmul(m.load_factor(Frac::from_int(v))).feq(m.lambda@.fmul(Frac::from_int(v))),
        xlo.fmul(m.load_factor(Frac::from_int(v - 1))).feq(m.lambda@.fmul(Frac::from_int(v - 1))),
        xhi.fmul(m.load_factor(Frac::from_int(v + 1))).feq(m.lambda@.fmul(Frac::from_int(v + 1))),
        Frac::from_int(v * v).fmul(m.kappa@).fle(Frac::from_int(1).fsub(m.sigma@)),
    ensures
        xlo.fle(xv),
        Frac::from_int(1).fsub(m.sigma@).fle(Frac::from_int(v * (v + 1)).fmul(m.kappa@))
            ==> xhi.fle(xv),
{
    let sn = m.sigma.num as int;
    let sd = m.sigma.den as int;
    let kn = m.kappa.num as int;
    let kd = m.kappa.den as int;
    // the square bracket from the peak query, over components
    assert(Frac::from_int(v * v).fmul(m.kappa@) == (Frac { n: (v * v) * kn, d: 1 * kd }));
    assert(Frac::from_int(1).fsub(m.sigma@) == (Frac { n: 1 * sd - sn * 1, d: 1 * sd }));
    assert(((v * v) * kn) * (1 * sd) <= (1 * sd - sn * 1) * ((1 * kd)));
    // stepping down: the sign condition holds outright
    let blo = v - 1;
    let xcond_lo = Frac::from_int(1).fsub(m.sigma@).fsub(
        m.kappa@.fmul(Frac::from_int(v * blo)),
    );
    assert(xcond_lo == (Frac {
        n: (1 * sd - sn * 1) * (kd * 1) - kn * (v * blo) * (1 * sd),
        d: 1 * sd * (kd * 1),
    }));
    assert(0 <= (v - blo) * xcond_lo.n) by (nonlinear_arith)
        requires
            blo == v - 1,
            xcond_lo.n == (1 * sd - sn * 1) * (kd * 1) - kn * (v * blo) * (1 * sd),
            ((v * v) * kn) * (1 * sd) <= (1 * sd - sn * 1) * ((1 * kd)),
            kn > 0,
            sd > 0,
            kd > 0,
            v >= 2,
    ;
    assert(Frac::from_int(0).fle(Frac::from_int(v - blo).fmul(xcond_lo))) by (nonlinear_arith)
        requires
            0 <= (v - blo) * xcond_lo.n,
            Frac::from_int(v - blo).fmul(xcond_lo) == (Frac {
                n: (v - blo) * xcond_lo.n,
                d: 1 * xcond_lo.d,
            }),
            xcond_lo.d == 1 * sd * (kd * 1),
            sd > 0,
            kd > 0,
    ;
    lemma_throughput_order(m, v, blo, xv, xlo);
    // stepping up: the sign condition is exactly the stated premise
    if Frac::from_int(1).fsub(m.sigma@).fle(Frac::from_int(v * (v + 1)).fmul(m.kappa@)) {
        let bhi = v + 1;
        let xcond_hi = Frac::from_int(1).fsub(m.sigma@).fsub(
            m.kappa@.fmul(Frac::from_int(v * bhi)),
        );
        assert(xcond_hi == (Frac {
            n: (1 * sd - sn * 1) * (kd * 1) - kn * (v * bhi) * (1 * sd),
            d: 1 * sd * (kd * 1),
        }));
        assert(Frac::from_int(v * bhi).fmul(m.kappa@) == (Frac { n: (v * bhi) * kn, d: 1 * kd }));
        assert((1 * sd - sn * 1) * (1 * kd) <= ((v * bhi) * kn) * (1 * sd));
        assert(0 <= (v - bhi) * xcond_hi.n) by (nonlinear_arith)
            requires
                bhi == v + 1,
                xcond_hi.n == (1 * sd - sn * 1) * (kd * 1) - kn * (v * bhi) * (1 * sd),
                (1 * sd - sn * 1) * (1 * kd) <= ((v * bhi) * kn) * (1 * sd),
                sd > 0,
                kd > 0,
        ;
        assert(Frac::from_int(0).fle(Frac::from_int(v - bhi).fmul(xcond_hi)))
            by (nonlinear_arith)
            requires
                0 <= (v - bhi) * xcond_hi.n,
                Frac::from_int(v - bhi).fmul(xcond_hi) == (Frac {
                    n: (v - bhi) * xcond_hi.n,
                    d: 1 * xcond_hi.d,
                }),
                xcond_hi.d == 1 * sd * (kd * 1),
                sd > 0,
                kd > 0,
        ;
        lemma_throughput_order(m, v, bhi, xv, xhi);
    }
}


/// The round-trip law: in the linearly scalable regime — κ exactly zero —
/// reading the concurrency back from a predicted throughput returns exactly
/// the concurrency the prediction was made for. With κ > 0 the round trip
/// is instead contracted by the factor `(1−σ) / (1−σ+κn(n−1))`, so the
/// identity is stated where it holds exactly.
pub proof fn lemma_concurrency_round_trip(m: Model, n: int, x: Frac, l: Frac, c: Frac)
    requires
        m.wf(),
        x.wf(),
        l.wf(),
        c.wf(),
        m.kappa.num == 0,
        m.lambda.num != 0,
        m.sigma.num != m.sigma.den,
        load_closed(m, n).n != 0,
        x.fmul(m.load_factor(Frac::from_int(n))).feq(m.lambda@.fmul(Frac::from_int(n))),
        l.fmul(m.sigma@.fmul(x).fsub(m.lambda@)).feq(m.sigma@.fsub(Frac::from_int(1))),
        c.feq(l.fmul(x)),
    ensures
        c.feq(Frac::from_int(n)),
{
    let sn = m.sigma.num as int;
    let sd = m.sigma.den as int;
    let kd = m.kappa.den as int;
    let ln = m.lambda.num as int;
    let ld = m.lambda.den as int;
    let nf = Frac::from_int(n);
    lemma_load_factor_closed(m, n);
    let dc = load_closed(m, n);
    let dn = dc.n;
    assert(dn == (sd + sn * (n - 1)) * kd) by (nonlinear_arith)
        requires
            dn == (sd + sn * (n - 1)) * kd + (m.kappa.num as int) * n * (n - 1) * sd,
            m.kappa.num == 0,
    ;
    assert(dc.d == sd * kd);
    let af = m.sigma@.fmul(x).fsub(m.lambda@);
    assert(m.sigma@ == (Frac { n: sn, d: sd }) && m.lambda@ == (Frac { n: ln, d: ld })
        && nf.d == 1);
    assert(dc.wf()) by (nonlinear_arith)
        requires
            sd > 0,
            kd > 0,
            dc.d == sd * kd,
    ;
    assert(m.sigma@.fmul(x).wf() && m.lambda@.fmul(nf).wf() && l.fmul(x).wf() && x.fmul(dc).wf()
        && m.lambda@.fmul(dc).wf()) by (nonlinear_arith)
        requires
            sd > 0,
            ld > 0,
            x.d > 0,
            l.d > 0,
            dc.d > 0,
            nf.d == 1,
            m.sigma@ == (Frac { n: sn, d: sd }),
            m.lambda@ == (Frac { n: ln, d: ld }),
    ;
    assert(af.wf() && af.d == (sd * x.d) * ld) by (nonlinear_arith)
        requires
            sd > 0,
            ld > 0,
            x.d > 0,
            af.d == (m.sigma@.fmul(x)).d * (m.lambda@).d,
            m.sigma@.fmul(x).d == sd * x.d,
            m.lambda@.d == ld,
    ;
    // Step one: A ⊗ D has the value of λ ⊗ (σ − 1).
    crate::rational::lemma_fmul_distrib_sub(m.sigma@.fmul(x), m.lambda@, dc);
    crate::rational::lemma_fmul_assoc_shuffle(m.sigma@, x, dc);
    crate::rational::lemma_fmul_cong(m.sigma@, x.fmul(dc), m.sigma@, m.lambda@.fmul(nf));
    // σ ⊗ (x ⊗ D) == (σ ⊗ x) ⊗ D, so (σ ⊗ x) ⊗ D ≃ σ ⊗ (λ ⊗ n)
    crate::rational::lemma_fsub_cong(
        m.sigma@.fmul(x).fmul(dc),
        m.lambda@.fmul(dc),
        m.sigma@.fmul(m.lambda@.fmul(nf)),
        m.lambda@.fmul(dc),
    );
    crate::rational::lemma_feq_trans(
        af.fmul(dc),
        m.sigma@.fmul(x).fmul(dc).fsub(m.lambda@.fmul(dc)),
        m.sigma@.fmul(m.lambda@.fmul(nf)).fsub(m.lambda@.fmul(dc)),
    );
    // the x-free identity: σ ⊗ (λ ⊗ n) − λ ⊗ D has the value λ ⊗ (σ − 1)
    let pp = m.sigma@.fmul(m.lambda@.fmul(nf));
    let qq = m.lambda@.fmul(dc);
    let rr = m.lambda@.fmul(m.sigma@.fsub(Frac::from_int(1)));
    assert(pp == (Frac { n: sn * (ln * n), d: sd * (ld * 1) }));
    assert(qq == (Frac { n: ln * dn, d: ld * (sd * kd) }));
    assert(rr == (Frac { n: ln * (sn * 1 - 1 * sd), d: ld * (sd * 1) }));
    let sub_n = pp.n * qq.d - qq.n * pp.d;
    let gg = ln * (ld * sd);
    assert((sn * (ln * n)) * (ld * (sd * kd)) == gg * ((sn * n) * kd)) by (nonlinear_arith)
        requires
            gg == ln * (ld * sd),
    ;
    assert((ln * dn) * (sd * (ld * 1)) == gg * dn) by (nonlinear_arith)
        requires
            gg == ln * (ld * sd),
    ;
    assert(gg * ((sn * n) * kd) - gg * dn == gg * ((sn * n) * kd - dn)) by (nonlinear_arith);
    assert(sub_n == gg * ((sn * n) * kd - dn));
    assert((sn * n) * kd - dn == (sn - sd) * kd) by (nonlinear_arith)
        requires
            dn == (sd + sn * (n - 1)) * kd,
    ;
    let bb = ld * sd;
    assert(rr.d == bb) by (nonlinear_arith)
        requires
            rr.d == ld * (sd * 1),
            bb == ld * sd,
    ;
    assert(pp.fsub(qq).d == (bb * bb) * kd) by (nonlinear_arith)
        requires
            pp.fsub(qq).d == (sd * (ld * 1)) * (ld * (sd * kd)),
            bb == ld * sd,
    ;
    assert(sub_n == gg * ((sn - sd) * kd));
    assert(sub_n * bb == (ln * (sn - sd)) * ((bb * bb) * kd)) by (nonlinear_arith)
        requires
            sub_n == gg * ((sn - sd) * kd),
            gg == ln * (ld * sd),
            bb == ld * sd,
    ;
    assert(pp.fsub(qq).feq(rr)) by (nonlinear_arith)
        requires
            pp.fsub(qq).n == sub_n,
            pp.fsub(qq).d == (bb * bb) * kd,
            rr.n == ln * (sn * 1 - 1 * sd),
            rr.d == bb,
            sub_n * bb == (ln * (sn - sd)) * ((bb * bb) * kd),
    ;
    assert(pp.fsub(qq).wf() && rr.wf() && af.fmul(dc).wf()) by (nonlinear_arith)
        requires
            sd > 0,
            kd > 0,
            ld > 0,
            x.d > 0,
            pp.d == sd * (ld * 1),
            qq.d == ld * (sd * kd),
            rr.d == ld * (sd * 1),
            af.d == (sd * x.d) * ld,
            dc.d == sd * kd,
    ;
    crate::rational::lemma_feq_trans(af.fmul(dc), pp.fsub(qq), rr);
    // Step two: multiplied by A ⊗ D, both c and n give (σ − 1) ⊗ (λ ⊗ n).
    let k = af.fmul(dc);
    assert(k.n != 0) by {
        assert(rr.n != 0) by (nonlinear_arith)
            requires
                rr.n == ln * (sn * 1 - 1 * sd),
                ln != 0,
                sn != sd,
        ;
        crate::rational::lemma_feq_sign(k, rr);
    }
    crate::rational::lemma_fmul_cong(c, k, l.fmul(x), k);
    assert(l.fmul(x).fmul(k) == l.fmul(x).fmul(af).fmul(dc)) by {
        crate::rational::lemma_fmul_assoc_shuffle(l.fmul(x), af, dc);
    }
    assert(l.fmul(x).fmul(af) == l.fmul(af).fmul(x)) by {
        crate::rational::lemma_fmul_assoc_shuffle(l, x, af);
        crate::rational::lemma_fmul_comm_struct(x, af);
        crate::rational::lemma_fmul_assoc_shuffle(l, af, x);
    }
    assert(l.fmul(af).fmul(x).fmul(dc) == l.fmul(af).fmul(x.fmul(dc))) by {
        crate::rational::lemma_fmul_assoc_shuffle(l.fmul(af), x, dc);
    }
    assert(l.fmul(af).wf() && l.fmul(af).fmul(x.fmul(dc)).wf() && x.fmul(dc).wf()
        && m.sigma@.fsub(Frac::from_int(1)).wf()) by (nonlinear_arith)
        requires
            l.d > 0,
            af.d > 0,
            x.d > 0,
            dc.d > 0,
            sd > 0,
            m.sigma@ == (Frac { n: sn, d: sd }),
    ;
    crate::rational::lemma_fmul_cong(
        l.fmul(af),
        x.fmul(dc),
        m.sigma@.fsub(Frac::from_int(1)),
        m.lambda@.fmul(nf),
    );
    crate::rational::lemma_feq_trans(
        c.fmul(k),
        l.fmul(x).fmul(k),
        m.sigma@.fsub(Frac::from_int(1)).fmul(m.lambda@.fmul(nf)),
    );
    // and n ⊗ k carries the same value
    assert(nf.fmul(k).wf() && c.fmul(k).wf()) by (nonlinear_arith)
        requires
            k.d == af.d * dc.d,
            af.d > 0,
            dc.d > 0,
            c.d > 0,
            nf.d == 1,
    ;
    crate::rational::lemma_fmul_cong(nf, k, nf, rr);
    assert(nf.fmul(rr).feq(m.sigma@.fsub(Frac::from_int(1)).fmul(m.lambda@.fmul(nf))))
        by (nonlinear_arith)
        requires
            nf.fmul(rr) == (Frac { n: n * (ln * (sn * 1 - 1 * sd)), d: 1 * (ld * (sd * 1)) }),
            m.sigma@.fsub(Frac::from_int(1)).fmul(m.lambda@.fmul(nf)) == (Frac {
                n: (sn * 1 - 1 * sd) * (ln * n),
                d: (sd * 1) * (ld * 1),
            }),
            sd > 0,
            ld > 0,
    ;
    crate::rational::lemma_feq_trans(
        nf.fmul(k),
        nf.fmul(rr),
        m.sigma@.fsub(Frac::from_int(1)).fmul(m.lambda@.fmul(nf)),
    );
    crate::rational::lemma_feq_trans(
        c.fmul(k),
        m.sigma@.fsub(Frac::from_int(1)).fmul(m.lambda@.fmul(nf)),
        nf.fmul(k),
    );
    crate::rational::lemma_fmul_cancel(c, nf, k);
}

} // verus!
