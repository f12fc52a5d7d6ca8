//! The QAP evaluation engine.
//!
//! Given a constraint system with `n` rows and `m` wires, choose the
//! multiplicative evaluation domain `H` whose size is the smallest power of
//! two at least `max(n, ℓ+1)`, evaluate the Lagrange basis of `H` at a point
//! `x`, and accumulate, for every wire `i`, the evaluations
//! `uᵢ(x) = Σⱼ A[j][i]·Lⱼ(x)` (and likewise `vᵢ`, `wᵢ` from the second and
//! third combinations).  The vanishing polynomial of `H` is
//! `t(X) = X^|H| − 1`.

use crate::cs::{var_col, ConstraintSystem, CsRow, Var};
use crate::errors::Error;
use crate::field::{fe_add, fe_mul, fe_one, fe_sub, fe_zero, fr_order, Fe};
use vstd::arithmetic::div_mod::{lemma_mod_bound, lemma_mul_mod_noop_general};
use vstd::arithmetic::power::pow;
use vstd::arithmetic::power2::pow2;
use vstd::prelude::*;

verus! {

/// The Lagrange basis of the radix-2 domain of the given size, evaluated at
/// `x`: entry `j` is `Lⱼ(x)`.  Named for the value that
/// `ark_poly::Radix2EvaluationDomain` computes; it depends on the size and
/// the point alone.
pub uninterp spec fn lagrange_basis_at(size: nat, x: nat) -> Seq<nat>;

/// Relies on `ark_poly::Radix2EvaluationDomain::new` (defined for sizes up
/// to two to the two-adicity of the scalar field, which is 28 for BN254) and
/// `EvaluationDomain::evaluate_all_lagrange_coefficients`, whose result is a
/// function of the domain size and the point alone: one canonical field
/// element per domain root.
#[verifier::external_body]
fn lagrange_coeffs(size: u64, x: &Fe) -> (r: Vec<Fe>)
    requires
        x.wf(),
        size >= 1,
        exists|k: nat| k <= 28 && size as nat == pow2(k),
    ensures
        r@.len() == size as nat,
        forall|j: int|
            0 <= j < r@.len() ==> (#[trigger] r@[j]).wf() && r@[j].val() == lagrange_basis_at(
                size as nat,
                x.val(),
            )[j],
{
    let xf = <ark_bn254::Fr as ark_ff::PrimeField>::from_le_bytes_mod_order(x.b.as_slice());
    let domain =
        <ark_poly::Radix2EvaluationDomain<ark_bn254::Fr> as ark_poly::EvaluationDomain<
        ark_bn254::Fr,
    >>::new(size as usize).unwrap();
    let coeffs = ark_poly::EvaluationDomain::evaluate_all_lagrange_coefficients(&domain, xf);
    let mut out = Vec::new();
    for c in coeffs {
        let mut b = Vec::new();
        ark_serialize::CanonicalSerialize::serialize_compressed(&c, &mut b).unwrap();
        out.push(crate::field::Fe { b });
    }
    out
}

/// The chosen domain size for `n` constraints and `l1` instance wires (the
/// constant included): the smallest power of two at least `max(n, l1)`,
/// together with its exponent.  Fails with `DomainUnavailable` when the
/// field has no subgroup that large.
pub fn domain_size(n: u32, l1: u32) -> (r: Result<(u64, u32), Error>)
    requires
        l1 >= 1,
    ensures
        r matches Ok(p) ==> {
            &&& p.1 <= 28
            &&& p.0 as nat == pow2(p.1 as nat)
            &&& p.0 >= n && p.0 >= l1
            &&& (p.1 > 0 ==> pow2((p.1 - 1) as nat) < n as nat || pow2((p.1 - 1) as nat)
                < l1 as nat)
        },
        r is Err <==> (n as nat > pow2(28) || l1 as nat > pow2(28)),
        r is Err ==> r == Err::<(u64, u32), Error>(Error::DomainUnavailable),
{
    let target: u32 = if n > l1 {
        n
    } else {
        l1
    };
    let mut k: u32 = 0;
    let mut size: u64 = 1;
    proof {
        vstd::arithmetic::power2::lemma2_to64();
    }
    while size < target as u64 && k < 28
        invariant
            k <= 28,
            size as nat == pow2(k as nat),
            size >= 1,
            target >= 1,
            k > 0 ==> pow2((k - 1) as nat) < target as nat,
        decreases 28 - k,
    {
        proof {
            vstd::arithmetic::power2::lemma_pow2_unfold((k + 1) as nat);
            vstd::arithmetic::power2::lemma_pow2_pos(k as nat);
            assert(pow2(28) == 0x10000000) by {
                vstd::arithmetic::power2::lemma2_to64();
            }
            vstd::arithmetic::power2::lemma_pow2_strictly_increases(k as nat, 28);
        }
        size = size * 2;
        k = k + 1;
    }
    if size < target as u64 {
        proof {
            assert(k == 28);
            assert(pow2(28) == 0x10000000) by {
                vstd::arithmetic::power2::lemma2_to64();
            }
        }
        return Err(Error::DomainUnavailable);
    }
    proof {
        if n as nat > pow2(28) || l1 as nat > pow2(28) {
            assert(pow2(k as nat) <= pow2(28)) by {
                if k < 28 {
                    vstd::arithmetic::power2::lemma_pow2_strictly_increases(k as nat, 28);
                }
            }
        }
    }
    Ok((size, k))
}

/// The value of the vanishing polynomial `X^size − 1` at `x`, modulo the
/// field order.
pub open spec fn vanishing_val(x: nat, size: nat) -> nat {
    (((pow(x as int, size) % fr_order() as int) + fr_order() - 1) % fr_order() as int) as nat
}

/// Evaluates the vanishing polynomial `t(x) = x^size − 1` of the radix-2
/// domain by repeated squaring.
pub fn vanishing_at(x: &Fe, log_size: u32) -> (r: Fe)
    requires
        x.wf(),
    ensures
        r.wf(),
        r.val() == vanishing_val(x.val(), pow2(log_size as nat)),
{
    let mut acc = x.dup();
    let mut i: u32 = 0;
    proof {
        assert(pow2(0) == 1) by {
            vstd::arithmetic::power2::lemma2_to64();
        }
        assert(pow(x.val() as int, 1) == x.val()) by {
            vstd::arithmetic::power::lemma_pow1(x.val() as int);
        }
        lemma_mod_bound(x.val() as int, fr_order() as int);
        vstd::arithmetic::div_mod::lemma_small_mod(x.val(), fr_order());
    }
    while i < log_size
        invariant
            x.wf(),
            acc.wf(),
            i <= log_size,
            acc.val() == pow(x.val() as int, pow2(i as nat)) % fr_order() as int,
        decreases log_size - i,
    {
        let next = fe_mul(&acc, &acc);
        proof {
            let p = fr_order() as int;
            let e = pow2(i as nat);
            lemma_mul_mod_noop_general(
                pow(x.val() as int, e),
                pow(x.val() as int, e),
                p,
            );
            vstd::arithmetic::power::lemma_pow_adds(x.val() as int, e, e);
            vstd::arithmetic::power2::lemma_pow2_unfold((i + 1) as nat);
            assert(pow2((i + 1) as nat) == 2 * pow2(i as nat));
            assert(e + e == pow2((i + 1) as nat));
        }
        acc = next;
        i = i + 1;
    }
    let one = fe_one();
    let r = fe_sub(&acc, &one);
    proof {
        assert(r.val() == vanishing_val(x.val(), pow2(log_size as nat)));
    }
    r
}

/// One accumulation step: add `coeff·lag` into the accumulator at the
/// term's global column.
pub open spec fn acc_term(u: Seq<nat>, t: (Var, Fe), lag: nat, n_inst: nat) -> Seq<nat> {
    let col = var_col(t.0, n_inst);
    u.update(col, (u[col] + (t.1.val() * lag) % fr_order()) % fr_order())
}

/// Accumulates every term of one linear combination, in order.
pub open spec fn acc_lc(u: Seq<nat>, terms: Seq<(Var, Fe)>, lag: nat, n_inst: nat) -> Seq<nat>
    decreases terms.len(),
{
    if terms.len() == 0 {
        u
    } else {
        acc_term(acc_lc(u, terms.drop_last(), lag, n_inst), terms.last(), lag, n_inst)
    }
}

/// Accumulates the chosen combination of every row against the Lagrange
/// values, in row order: `sel` picks the `a`, `b` or `c` combination.
pub open spec fn acc_rows(
    u: Seq<nat>,
    rows: Seq<CsRow>,
    lag: Seq<nat>,
    sel: int,
    n_inst: nat,
) -> Seq<nat>
    decreases rows.len(),
{
    if rows.len() == 0 {
        u
    } else {
        let prev = acc_rows(u, rows.drop_last(), lag, sel, n_inst);
        let row = rows.last();
        let terms = if sel == 0 {
            row.a@
        } else if sel == 1 {
            row.b@
        } else {
            row.c@
        };
        acc_lc(prev, terms, lag[rows.len() - 1], n_inst)
    }
}

/// The all-zero accumulator of width `m`.
pub open spec fn zero_evals(m: nat) -> Seq<nat> {
    Seq::new(m, |i: int| 0nat)
}

/// The QAP evaluations of a system at `x`: for each wire the accumulated
/// `Σⱼ A[j][i]·Lⱼ(x)` over the Lagrange basis of the chosen domain.
pub open spec fn qap_evals(cs: &ConstraintSystem, lag: Seq<nat>, sel: int) -> Seq<nat> {
    acc_rows(zero_evals(cs.m()), cs.rows@, lag, sel, cs.n_inst())
}

/// A fresh vector of `m` zero elements.
fn zero_vec(m: usize) -> (r: Vec<Fe>)
    ensures
        r@.len() == m as nat,
        forall|i: int| 0 <= i < m as int ==> (#[trigger] r@[i]).wf() && r@[i].val() == 0,
{
    let mut out: Vec<Fe> = Vec::new();
    let mut i: usize = 0;
    while i < m
        invariant
            i <= m,
            out@.len() == i as nat,
            forall|j: int| 0 <= j < i as int ==> (#[trigger] out@[j]).wf() && out@[j].val() == 0,
        decreases m - i,
    {
        out.push(fe_zero());
        i = i + 1;
    }
    out
}

/// Accumulates one linear combination into the evaluation vector.
fn accumulate_lc(
    u: &mut Vec<Fe>,
    terms: &Vec<(Var, Fe)>,
    lag: &Fe,
    n_inst: usize,
    n_wit: usize,
    Ghost(z_inst): Ghost<nat>,
)
    requires
        old(u)@.len() == n_inst + n_wit,
        forall|i: int| 0 <= i < old(u)@.len() ==> (#[trigger] old(u)@[i]).wf(),
        crate::cs::lc_ok(terms@, n_inst as nat, n_wit as nat),
        lag.wf(),
    ensures
        final(u)@.len() == old(u)@.len(),
        forall|i: int| 0 <= i < final(u)@.len() ==> (#[trigger] final(u)@[i]).wf(),
        Seq::new(final(u)@.len(), |i: int| final(u)@[i].val()) == acc_lc(
            Seq::new(old(u)@.len(), |i: int| old(u)@[i].val()),
            terms@,
            lag.val(),
            n_inst as nat,
        ),
{
    let n = terms.len();
    let total = u.len();
    let mut t: usize = 0;
    while t < n
        invariant
            total == u@.len(),
            u@.len() == n_inst + n_wit,
            forall|i: int| 0 <= i < u@.len() ==> (#[trigger] u@[i]).wf(),
            crate::cs::lc_ok(terms@, n_inst as nat, n_wit as nat),
            lag.wf(),
            n == terms@.len(),
            t <= n,
            Seq::new(u@.len(), |i: int| u@[i].val()) == acc_lc(
                Seq::new(old(u)@.len(), |i: int| old(u)@[i].val()),
                terms@.subrange(0, t as int),
                lag.val(),
                n_inst as nat,
            ),
        decreases n - t,
    {
        proof {
            assert(crate::cs::var_ok(terms@[t as int].0, n_inst as nat, n_wit as nat));
        }
        let (v, coeff) = &terms[t];
        let col: usize = match v {
            Var::Instance(k) => *k as usize,
            Var::Witness(k) => n_inst + (*k as usize),
        };
        let term_prod = fe_mul(coeff, lag);
        let updated = fe_add(&u[col], &term_prod);
        let ghost pre_vals = Seq::new(u@.len(), |i: int| u@[i].val());
        u.set(col, updated);
        proof {
            let cur = terms@.subrange(0, t as int + 1);
            assert(cur.drop_last() =~= terms@.subrange(0, t as int));
            assert(cur.last() == terms@[t as int]);
            assert(col as int == var_col(terms@[t as int].0, n_inst as nat));
            assert(Seq::new(u@.len(), |i: int| u@[i].val()) =~= acc_term(pre_vals,
                terms@[t as int], lag.val(), n_inst as nat));
        }
        t = t + 1;
    }
    proof {
        assert(terms@.subrange(0, n as int) =~= terms@);
    }
}

/// The per-wire evaluations of the three QAP polynomial families at `x`.
///
/// Returns `(U, V, W)` with `Uᵢ = uᵢ(x)`, `Vᵢ = vᵢ(x)`, `Wᵢ = wᵢ(x)`, each
/// vector indexed by global wire column, together with the domain size and
/// its logarithm.
pub fn evaluate_qap_at(cs: &ConstraintSystem, x: &Fe) -> (r: Result<
    (Vec<Fe>, Vec<Fe>, Vec<Fe>, u64, u32),
    Error,
>)
    requires
        cs.wf(),
        x.wf(),
    ensures
        r matches Ok(q) ==> {
            &&& q.3 as nat == pow2(q.4 as nat)
            &&& q.4 <= 28
            &&& q.3 >= cs.rows@.len() && q.3 as nat >= cs.n_inst()
            &&& (q.4 > 0 ==> pow2((q.4 - 1) as nat) < cs.rows@.len() || pow2(
                (q.4 - 1) as nat,
            ) < cs.n_inst())
            &&& q.0@.len() == cs.m() && q.1@.len() == cs.m() && q.2@.len() == cs.m()
            &&& (forall|i: int| 0 <= i < q.0@.len() ==> (#[trigger] q.0@[i]).wf())
            &&& (forall|i: int| 0 <= i < q.1@.len() ==> (#[trigger] q.1@[i]).wf())
            &&& (forall|i: int| 0 <= i < q.2@.len() ==> (#[trigger] q.2@[i]).wf())
            &&& Seq::new(q.0@.len(), |i: int| q.0@[i].val()) == qap_evals(
                cs,
                lagrange_basis_at(q.3 as nat, x.val()),
                0,
            )
            &&& Seq::new(q.1@.len(), |i: int| q.1@[i].val()) == qap_evals(
                cs,
                lagrange_basis_at(q.3 as nat, x.val()),
                1,
            )
            &&& Seq::new(q.2@.len(), |i: int| q.2@[i].val()) == qap_evals(
                cs,
                lagrange_basis_at(q.3 as nat, x.val()),
                2,
            )
        },
        r is Err <==> (cs.rows@.len() > pow2(28) || cs.n_inst() > pow2(28)),
        r is Err ==> r == Err::<(Vec<Fe>, Vec<Fe>, Vec<Fe>, u64, u32), Error>(
            Error::DomainUnavailable,
        ),
{
    let n_rows = cs.rows.len();
    let n_inst = cs.instance.len();
    let n_wit = cs.witness.len();
    proof {
        assert(cs.rows@.len() <= 0xffffffffnat || true);
        assert(pow2(28) == 0x10000000) by {
            vstd::arithmetic::power2::lemma2_to64();
        }
    }
    if n_rows > 0x10000000usize || n_inst > 0x10000000usize {
        return Err(Error::DomainUnavailable);
    }
    let (size, log_size) = match domain_size(n_rows as u32, n_inst as u32) {
        Ok(p) => p,
        Err(e) => {
            proof {
                assert(pow2(28) == 0x10000000) by {
                    vstd::arithmetic::power2::lemma2_to64();
                }
            }
            return Err(e);
        },
    };
    let ghost lag_spec = lagrange_basis_at(size as nat, x.val());
    let lag = lagrange_coeffs(size, x);

    let m = n_inst + n_wit;
    let mut u = zero_vec(m);
    let mut v = zero_vec(m);
    let mut w = zero_vec(m);
    proof {
        assert(Seq::new(u@.len(), |i: int| u@[i].val()) =~= zero_evals(cs.m()));
        assert(Seq::new(v@.len(), |i: int| v@[i].val()) =~= zero_evals(cs.m()));
        assert(Seq::new(w@.len(), |i: int| w@[i].val()) =~= zero_evals(cs.m()));
    }
    let mut j: usize = 0;
    while j < n_rows
        invariant
            cs.wf(),
            x.wf(),
            n_rows == cs.rows@.len(),
            n_inst == cs.n_inst(),
            n_wit == cs.n_wit(),
            m == cs.m(),
            n_rows <= size,
            lag@.len() == size as nat,
            forall|t: int|
                0 <= t < lag@.len() ==> (#[trigger] lag@[t]).wf() && lag@[t].val() == lag_spec[t],
            j <= n_rows,
            u@.len() == m && v@.len() == m && w@.len() == m,
            forall|i: int| 0 <= i < u@.len() ==> (#[trigger] u@[i]).wf(),
            forall|i: int| 0 <= i < v@.len() ==> (#[trigger] v@[i]).wf(),
            forall|i: int| 0 <= i < w@.len() ==> (#[trigger] w@[i]).wf(),
            Seq::new(u@.len(), |i: int| u@[i].val()) == acc_rows(zero_evals(cs.m()),
                cs.rows@.subrange(0, j as int), lag_spec, 0, cs.n_inst()),
            Seq::new(v@.len(), |i: int| v@[i].val()) == acc_rows(zero_evals(cs.m()),
                cs.rows@.subrange(0, j as int), lag_spec, 1, cs.n_inst()),
            Seq::new(w@.len(), |i: int| w@[i].val()) == acc_rows(zero_evals(cs.m()),
                cs.rows@.subrange(0, j as int), lag_spec, 2, cs.n_inst()),
        decreases n_rows - j,
    {
        proof {
            assert(crate::cs::lc_ok(cs.rows@[j as int].a@, cs.n_inst(), cs.n_wit()));
            assert(crate::cs::lc_ok(cs.rows@[j as int].b@, cs.n_inst(), cs.n_wit()));
            assert(crate::cs::lc_ok(cs.rows@[j as int].c@, cs.n_inst(), cs.n_wit()));
        }
        let row = &cs.rows[j];
        let lag_j = &lag[j];
        accumulate_lc(&mut u, &row.a, lag_j, n_inst, n_wit, Ghost(0));
        accumulate_lc(&mut v, &row.b, lag_j, n_inst, n_wit, Ghost(0));
        accumulate_lc(&mut w, &row.c, lag_j, n_inst, n_wit, Ghost(0));
        proof {
            let cur = cs.rows@.subrange(0, j as int + 1);
            assert(cur.drop_last() =~= cs.rows@.subrange(0, j as int));
            assert(cur.last() == cs.rows@[j as int]);
        }
        j = j + 1;
    }
    proof {
        assert(cs.rows@.subrange(0, n_rows as int) =~= cs.rows@);
    }
    Ok((u, v, w, size, log_size))
}

} // verus!
