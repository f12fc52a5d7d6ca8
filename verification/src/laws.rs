//! The scheme's stated properties, proved from the contracts of the
//! operations they relate.

use crate::cs::{lc_val, var_col, ConstraintSystem, CsRow, Var};
use crate::field::{fr_order, lemma_le_val_injective, Fe};
use crate::qap::{acc_lc, acc_rows, acc_term, qap_evals, zero_evals};
use crate::wkem::{
    decap_key_bytes, decap_points_ok, encap_post, instance_matches, Ciphertext, Key,
};
use vstd::arithmetic::div_mod::{
    lemma_add_mod_noop, lemma_add_mod_noop_right, lemma_mod_add_multiples_vanish,
    lemma_mod_bound, lemma_mod_twice, lemma_mul_mod_noop_right, lemma_small_mod,
};
use vstd::arithmetic::mul::{
    lemma_mul_is_associative, lemma_mul_is_commutative, lemma_mul_is_distributive_add,
};
use vstd::prelude::*;

verus! {

/// Key recovery for a circuit with no private wires: whatever `encap`
/// produced from such a circuit, `decap` over the same circuit derives the
/// same 32 key bytes, and every side condition of `decap`'s success is met.
/// (With private wires carrying non-zero values the two pairings differ by
/// the witness accumulator, and the keys need not agree.)
pub proof fn lemma_decap_recovers_key(
    cs: &ConstraintSystem,
    alpha: nat,
    beta: nat,
    delta: nat,
    r: nat,
    x: nat,
    ct: &Ciphertext,
    key: &Key,
)
    requires
        cs.wf(),
        cs.n_wit() == 0,
        encap_post(cs, alpha, beta, delta, r, x, ct, key),
    ensures
        decap_key_bytes(cs, ct) == key.0@,
        decap_points_ok(cs, ct),
        instance_matches(cs, ct),
        ct.encap_key.phi_delta_query_g1@.len() == cs.m(),
{
    let lg = crate::wkem::domain_lg(cs.rows@.len(), cs.n_inst());
    let size = vstd::arithmetic::power2::pow2(lg);
    let lag = crate::qap::lagrange_basis_at(size, x);
    let uu = crate::qap::qap_evals(cs, lag, 0);
    let vv = crate::qap::qap_evals(cs, lag, 1);
    let ww = crate::qap::qap_evals(cs, lag, 2);
    let di = crate::wkem::fr_inv(delta);
    assert(cs.m() == cs.n_inst());
    assert(Seq::new(cs.m(), |i: int| ct.encap_key.phi_delta_query_g1@[i]@) =~= Seq::new(
        cs.n_inst(),
        |i: int|
            crate::group::g1_mul_gen_of(
                crate::wkem::phi_scalar(alpha, beta, r, di, uu[i], vv[i], ww[i]),
            ),
    ));
    assert(Seq::new(cs.m(), |i: int| cs.z()[i]) =~= Seq::new(cs.n_inst(), |i: int| cs.z()[i]));
}

/// Determinism: two encapsulations of the same circuit under the same five
/// scalars produce the same ciphertext, element for element, and the same
/// key bytes.
pub proof fn lemma_encap_deterministic(
    cs: &ConstraintSystem,
    alpha: nat,
    beta: nat,
    delta: nat,
    r: nat,
    x: nat,
    ct1: &Ciphertext,
    key1: &Key,
    ct2: &Ciphertext,
    key2: &Key,
)
    requires
        cs.wf(),
        encap_post(cs, alpha, beta, delta, r, x, ct1, key1),
        encap_post(cs, alpha, beta, delta, r, x, ct2, key2),
    ensures
        ct1.encap_key.alpha_g1@ == ct2.encap_key.alpha_g1@,
        ct1.encap_key.beta_g2@ == ct2.encap_key.beta_g2@,
        ct1.encap_key.delta_g2@ == ct2.encap_key.delta_g2@,
        ct1.encap_key.r_u_query_g1@.len() == ct2.encap_key.r_u_query_g1@.len(),
        forall|i: int|
            0 <= i < ct1.encap_key.r_u_query_g1@.len() ==> (
            #[trigger] ct1.encap_key.r_u_query_g1@[i])@ == ct2.encap_key.r_u_query_g1@[i]@,
        ct1.encap_key.r_v_query_g2@.len() == ct2.encap_key.r_v_query_g2@.len(),
        forall|i: int|
            0 <= i < ct1.encap_key.r_v_query_g2@.len() ==> (
            #[trigger] ct1.encap_key.r_v_query_g2@[i])@ == ct2.encap_key.r_v_query_g2@[i]@,
        ct1.encap_key.phi_delta_query_g1@.len() == ct2.encap_key.phi_delta_query_g1@.len(),
        forall|i: int|
            0 <= i < ct1.encap_key.phi_delta_query_g1@.len() ==> (
            #[trigger] ct1.encap_key.phi_delta_query_g1@[i])@
                == ct2.encap_key.phi_delta_query_g1@[i]@,
        ct1.encap_key.h_query_g1@.len() == ct2.encap_key.h_query_g1@.len(),
        forall|i: int|
            0 <= i < ct1.encap_key.h_query_g1@.len() ==> (
            #[trigger] ct1.encap_key.h_query_g1@[i])@ == ct2.encap_key.h_query_g1@[i]@,
        ct1.public_inputs@.len() == ct2.public_inputs@.len(),
        forall|i: int|
            0 <= i < ct1.public_inputs@.len() ==> (#[trigger] ct1.public_inputs@[i]).b@
                == ct2.public_inputs@[i].b@,
        key1.0@ == key2.0@,
{
    assert forall|i: int| 0 <= i < ct1.public_inputs@.len() implies (
    #[trigger] ct1.public_inputs@[i]).b@ == ct2.public_inputs@[i].b@ by {
        assert(ct1.public_inputs@[i].val() == ct2.public_inputs@[i].val());
        lemma_le_val_injective(ct1.public_inputs@[i].b@, ct2.public_inputs@[i].b@);
    }
}



/// The circuit-weighted sum `Σᵢ zᵢ·uᵢ`, accumulated modulo the field order.
pub open spec fn wsum(u: Seq<nat>, z: Seq<nat>) -> nat
    decreases u.len(),
{
    if u.len() == 0 {
        0
    } else {
        (wsum(u.drop_last(), z.drop_last()) + (z[u.len() - 1] * u.last()) % fr_order())
            % fr_order()
    }
}

/// The chosen combination of a row.
pub open spec fn row_terms(row: CsRow, sel: int) -> Seq<(Var, Fe)> {
    if sel == 0 {
        row.a@
    } else if sel == 1 {
        row.b@
    } else {
        row.c@
    }
}

/// The row-weighted sum `Σⱼ Lⱼ·⟨rowⱼ, z⟩`, accumulated modulo the field
/// order.
pub open spec fn rows_weighted_sum(
    rows: Seq<CsRow>,
    lag: Seq<nat>,
    z: Seq<nat>,
    n_inst: nat,
    sel: int,
) -> nat
    decreases rows.len(),
{
    if rows.len() == 0 {
        0
    } else {
        (rows_weighted_sum(rows.drop_last(), lag, z, n_inst, sel) + (lag[rows.len() - 1]
            * lc_val(row_terms(rows.last(), sel), z, n_inst)) % fr_order()) % fr_order()
    }
}

/// Folding a reduced left summand into a sum modulo the order.
proof fn lemma_addm_left(a: nat, b: nat)
    ensures
        (a % fr_order() + b) % fr_order() == (a + b) % fr_order(),
{
    let p = fr_order() as int;
    lemma_add_mod_noop(a as int, b as int, p);
    lemma_add_mod_noop((a as int) % p, b as int, p);
    lemma_mod_twice(a as int, p);
}

/// Folding a reduced right summand into a sum modulo the order.
proof fn lemma_addm_right(a: nat, b: nat)
    ensures
        (a + b % fr_order()) % fr_order() == (a + b) % fr_order(),
{
    lemma_add_mod_noop_right(a as int, b as int, fr_order() as int);
}

/// Residues below the order with equal translates are equal.
proof fn lemma_mod_cancel(x: nat, y: nat, b: nat)
    requires
        x < fr_order(),
        y < fr_order(),
        (x + b) % fr_order() == (y + b) % fr_order(),
    ensures
        x == y,
{
    let p = fr_order() as int;
    let s = (x + b) as int;
    let t = (y + b) as int;
    vstd::arithmetic::div_mod::lemma_fundamental_div_mod(s, p);
    vstd::arithmetic::div_mod::lemma_fundamental_div_mod(t, p);
    let q1 = s / p;
    let q2 = t / p;
    assert(s - t == p * q1 - p * q2);
    assert(p * q1 - p * q2 == p * (q1 - q2)) by (nonlinear_arith);
    assert(-p < s - t < p);
    assert(q1 == q2) by (nonlinear_arith)
        requires
            -p < p * (q1 - q2) < p,
            p > 0,
    ;
}

/// The accumulated weighted sum stays below the field order.
proof fn lemma_wsum_lt(u: Seq<nat>, z: Seq<nat>)
    ensures
        wsum(u, z) < fr_order(),
    decreases u.len(),
{
    if u.len() > 0 {
        lemma_mod_bound(
            (wsum(u.drop_last(), z.drop_last()) + (z[u.len() - 1] * u.last())
                % fr_order()) as int,
            fr_order() as int,
        );
    }
}

/// Updating one slot exchanges its old contribution for the new one: both
/// translates of the weighted sum agree modulo the order.
proof fn lemma_wsum_update(u: Seq<nat>, z: Seq<nat>, col: int, v: nat)
    requires
        u.len() == z.len(),
        0 <= col < u.len(),
    ensures
        (wsum(u.update(col, v), z) + (z[col] * u[col]) % fr_order()) % fr_order() == (wsum(
            u,
            z,
        ) + (z[col] * v) % fr_order()) % fr_order(),
    decreases u.len(),
{
    let p = fr_order();
    let up = u.update(col, v);
    let b = (z[col] * u[col]) % p;
    let c = (z[col] * v) % p;
    if col == u.len() - 1 {
        assert(up.drop_last() =~= u.drop_last());
        assert(up.last() == v);
        let a = wsum(u.drop_last(), z.drop_last());
        assert(wsum(u, z) == (a + b) % p);
        assert(wsum(up, z) == (a + c) % p);
        lemma_addm_left((a + c) as nat, b);
        lemma_addm_left((a + b) as nat, c);
        assert(a + c + b == a + b + c);
    } else {
        lemma_wsum_update(u.drop_last(), z.drop_last(), col, v);
        assert(up.drop_last() =~= u.drop_last().update(col, v));
        assert(up.last() == u.last());
        let a = wsum(u.drop_last(), z.drop_last());
        let a2 = wsum(up.drop_last(), z.drop_last());
        let t = (z[u.len() - 1] * u.last()) % p;
        assert((a2 + b) % p == (a + c) % p);
        assert(wsum(u, z) == (a + t) % p);
        assert(wsum(up, z) == (a2 + t) % p);
        lemma_addm_left((a2 + t) as nat, b);
        lemma_addm_left((a2 + b) as nat, t);
        lemma_addm_left((a + c) as nat, t);
        lemma_addm_left((a + t) as nat, c);
        assert(a2 + t + b == a2 + b + t);
        assert(a + c + t == a + t + c);
        assert(((a2 + b) % p + t) % p == ((a + c) % p + t) % p);
    }
}

/// Products against a reduced factor reduce to the full product.
proof fn lemma_mulm(x: nat, y: nat)
    ensures
        (x * (y % fr_order())) % fr_order() == (x * y) % fr_order(),
{
    lemma_mul_mod_noop_right(x as int, y as int, fr_order() as int);
}

/// Accumulating one combination adds its Lagrange-weighted value to the
/// circuit-weighted sum.
proof fn lemma_wsum_acc_lc(
    u: Seq<nat>,
    terms: Seq<(Var, Fe)>,
    lag_j: nat,
    z: Seq<nat>,
    n_inst: nat,
    n_wit: nat,
)
    requires
        u.len() == z.len(),
        z.len() == n_inst + n_wit,
        crate::cs::lc_ok(terms, n_inst, n_wit),
    ensures
        acc_lc(u, terms, lag_j, n_inst).len() == u.len(),
        wsum(acc_lc(u, terms, lag_j, n_inst), z) == (wsum(u, z) + (lag_j * lc_val(
            terms,
            z,
            n_inst,
        )) % fr_order()) % fr_order(),
    decreases terms.len(),
{
    let p = fr_order();
    lemma_wsum_lt(u, z);
    if terms.len() == 0 {
        assert(lc_val(terms, z, n_inst) == 0);
        assert(lag_j * 0 == 0) by {
            vstd::arithmetic::mul::lemma_mul_basics(lag_j as int);
        }
        lemma_small_mod(0, p);
        lemma_small_mod(wsum(u, z), p);
    } else {
        let dl = terms.drop_last();
        let last = terms.last();
        assert(crate::cs::lc_ok(dl, n_inst, n_wit)) by {
            assert forall|i: int|
                0 <= i < dl.len() implies crate::cs::var_ok((#[trigger] dl[i]).0, n_inst, n_wit)
                && dl[i].1.wf() by {
                assert(dl[i] == terms[i]);
            }
        }
        lemma_wsum_acc_lc(u, dl, lag_j, z, n_inst, n_wit);
        let u1 = acc_lc(u, dl, lag_j, n_inst);
        let col = var_col(last.0, n_inst);
        assert(crate::cs::var_ok(last.0, n_inst, n_wit));
        assert(0 <= col < z.len());
        let cval = last.1.val();
        let mc = (cval * lag_j) % p;
        let newv = (u1[col] + mc) % p;
        assert(acc_lc(u, terms, lag_j, n_inst) == acc_term(u1, last, lag_j, n_inst));
        assert(acc_term(u1, last, lag_j, n_inst) == u1.update(col, newv));
        lemma_wsum_update(u1, z, col, newv);
        let zc = z[col];
        let b = (zc * u1[col]) % p;
        let tv = crate::cs::term_val(last, z, n_inst);
        let e = (lag_j * tv) % p;
        // z[col]·newv reduces to the old contribution plus the term's
        // Lagrange-weighted value.
        assert((zc * newv) % p == (b + e) % p) by {
            lemma_mulm(zc, (u1[col] + mc) as nat);
            assert(zc * (u1[col] + mc) == zc * u1[col] + zc * mc) by {
                lemma_mul_is_distributive_add(zc as int, u1[col] as int, mc as int);
            }
            lemma_add_mod_noop((zc * u1[col]) as int, (zc * mc) as int, p as int);
            // The factors swap: z·(c·L) == L·(c·z) modulo the order.
            assert((zc * mc) % p == e) by {
                lemma_mulm(zc, (cval * lag_j) as nat);
                lemma_mulm(lag_j, (cval * zc) as nat);
                assert(zc * (cval * lag_j) == lag_j * (cval * zc)) by (nonlinear_arith);
            }
            lemma_add_mod_noop(b as int, e as int, p as int);
            lemma_mod_twice((zc * u1[col]) as int, p as int);
            lemma_mod_twice((zc * mc) as int, p as int);
        }
        // Cancellation: the update lemma's two translates pin the new sum.
        let w1 = wsum(u1, z);
        let w2 = wsum(u1.update(col, newv), z);
        lemma_wsum_lt(u1, z);
        lemma_wsum_update(u1, z, col, newv);
        assert((w2 + b) % p == (w1 + (b + e) % p) % p);
        lemma_addm_right(w1, (b + e) as nat);
        assert((w2 + b) % p == (w1 + b + e) % p);
        let r = (w1 + e) % p;
        lemma_addm_left((w1 + e) as nat, b);
        assert((r + b) % p == (w1 + e + b) % p);
        assert(w1 + e + b == w1 + b + e);
        lemma_wsum_lt(u1.update(col, newv), z);
        lemma_mod_bound((w1 + e) as int, p as int);
        lemma_mod_cancel(w2, r, b);
        // And the Lagrange weight distributes over the combination's value.
        assert(w2 == (wsum(u, z) + (lag_j * lc_val(terms, z, n_inst)) % p) % p) by {
            let lv = lc_val(dl, z, n_inst);
            assert(lc_val(terms, z, n_inst) == (lv + tv) % p);
            let f = (lag_j * lv) % p;
            assert((lag_j * ((lv + tv) % p)) % p == (f + e) % p) by {
                lemma_mulm(lag_j, (lv + tv) as nat);
                assert(lag_j * (lv + tv) == lag_j * lv + lag_j * tv) by {
                    lemma_mul_is_distributive_add(lag_j as int, lv as int, tv as int);
                }
                lemma_add_mod_noop((lag_j * lv) as int, (lag_j * tv) as int, p as int);
                lemma_mod_twice((lag_j * lv) as int, p as int);
                lemma_mod_twice((lag_j * tv) as int, p as int);
            }
            let w0 = wsum(u, z);
            assert(w1 == (w0 + f) % p);
            lemma_addm_left((w0 + f) as nat, e);
            lemma_addm_right(w0, (f + e) as nat);
            assert(w0 + f + e == w0 + (f + e));
        }
    }
}

/// Accumulating the rows adds, row by row, the Lagrange-weighted values of
/// their combinations.
proof fn lemma_wsum_acc_rows(
    u: Seq<nat>,
    rows: Seq<CsRow>,
    lag: Seq<nat>,
    z: Seq<nat>,
    n_inst: nat,
    n_wit: nat,
    sel: int,
)
    requires
        u.len() == z.len(),
        z.len() == n_inst + n_wit,
        forall|j: int|
            0 <= j < rows.len() ==> crate::cs::lc_ok(
                row_terms(#[trigger] rows[j], sel),
                n_inst,
                n_wit,
            ),
    ensures
        acc_rows(u, rows, lag, sel, n_inst).len() == u.len(),
        wsum(acc_rows(u, rows, lag, sel, n_inst), z) == (wsum(u, z) + rows_weighted_sum(
            rows,
            lag,
            z,
            n_inst,
            sel,
        )) % fr_order(),
    decreases rows.len(),
{
    let p = fr_order();
    lemma_wsum_lt(u, z);
    if rows.len() == 0 {
        lemma_small_mod(wsum(u, z), p);
    } else {
        let dl = rows.drop_last();
        assert(forall|j: int|
            0 <= j < dl.len() ==> crate::cs::lc_ok(
                row_terms(#[trigger] dl[j], sel),
                n_inst,
                n_wit,
            )) by {
            assert(forall|j: int| 0 <= j < dl.len() ==> dl[j] == rows[j]);
        }
        lemma_wsum_acc_rows(u, dl, lag, z, n_inst, n_wit, sel);
        let prev = acc_rows(u, dl, lag, sel, n_inst);
        assert(crate::cs::lc_ok(row_terms(rows.last(), sel), n_inst, n_wit));
        lemma_wsum_acc_lc(prev, row_terms(rows.last(), sel), lag[rows.len() - 1], z, n_inst,
            n_wit);
        assert(acc_rows(u, rows, lag, sel, n_inst) == acc_lc(prev, row_terms(rows.last(), sel),
            lag[rows.len() - 1], n_inst));
        let w0 = wsum(u, z);
        let s = rows_weighted_sum(dl, lag, z, n_inst, sel);
        let e = (lag[rows.len() - 1] * lc_val(row_terms(rows.last(), sel), z, n_inst)) % p;
        lemma_addm_left((w0 + s) as nat, e);
        lemma_addm_right(w0, (s + e) as nat);
        assert(w0 + s + e == w0 + (s + e));
    }
}

/// The zero accumulator weighs to zero.
proof fn lemma_wsum_zero(m: nat, z: Seq<nat>)
    requires
        z.len() == m,
    ensures
        wsum(zero_evals(m), z) == 0,
    decreases m,
{
    let p = fr_order();
    if m > 0 {
        assert(zero_evals(m).drop_last() =~= zero_evals((m - 1) as nat));
        lemma_wsum_zero((m - 1) as nat, z.drop_last());
        assert(z[m - 1] * 0 == 0) by {
            vstd::arithmetic::mul::lemma_mul_basics(z[m - 1] as int);
        }
        lemma_small_mod(0, p);
    }
}

/// The row-weighted sum stays below the field order.
proof fn lemma_rows_weighted_sum_lt(
    rows: Seq<CsRow>,
    lag: Seq<nat>,
    z: Seq<nat>,
    n_inst: nat,
    sel: int,
)
    ensures
        rows_weighted_sum(rows, lag, z, n_inst, sel) < fr_order(),
    decreases rows.len(),
{
    if rows.len() > 0 {
        lemma_mod_bound(
            (rows_weighted_sum(rows.drop_last(), lag, z, n_inst, sel) + (lag[rows.len() - 1]
                * lc_val(row_terms(rows.last(), sel), z, n_inst)) % fr_order()) as int,
            fr_order() as int,
        );
    }
}

/// The domain polynomial identity: for any Lagrange values and any circuit,
/// the circuit-weighted sum of the per-wire evaluations equals the
/// Lagrange-weighted sum of the rows' combination values,
/// `Σᵢ zᵢ·uᵢ(x) = Σⱼ Lⱼ(x)·⟨Aⱼ, z⟩`, modulo the field order.
pub proof fn lemma_domain_polynomial_identity(cs: &ConstraintSystem, lag: Seq<nat>, sel: int)
    requires
        cs.wf(),
    ensures
        wsum(qap_evals(cs, lag, sel), cs.z()) == rows_weighted_sum(
            cs.rows@,
            lag,
            cs.z(),
            cs.n_inst(),
            sel,
        ),
{
    let p = fr_order();
    let z = cs.z();
    assert(forall|j: int|
        0 <= j < cs.rows@.len() ==> crate::cs::lc_ok(
            row_terms(#[trigger] cs.rows@[j], sel),
            cs.n_inst(),
            cs.n_wit(),
        ));
    lemma_wsum_zero(cs.m(), z);
    lemma_wsum_acc_rows(zero_evals(cs.m()), cs.rows@, lag, z, cs.n_inst(), cs.n_wit(), sel);
    lemma_rows_weighted_sum_lt(cs.rows@, lag, z, cs.n_inst(), sel);
    lemma_small_mod(rows_weighted_sum(cs.rows@, lag, z, cs.n_inst(), sel), p);
}

} // verus!
