//! The witness key encapsulation mechanism.
//!
//! `encap` builds the common reference string σ from one draw of five toxic
//! scalars `(α, β, δ, r, x)` and the QAP evaluations of the circuit at `x`,
//! and derives a 32-byte key by hashing the serialised pairing value
//! `e([α]₁, [β]₂) · e(Π, [1]₂)`, where `Π` accumulates the instance part of
//! the `φ` query.  `decap` checks the instance against the ciphertext and
//! the satisfaction of the full assignment, then re-derives a key from the
//! same pairing over the full `φ` query.  The toxic scalars are erased
//! before `encap` returns.

use crate::cs::ConstraintSystem;
use crate::errors::Error;
use crate::field::{fe_add, fe_eq, fe_inv, fe_mul, fr_order, Fe};
use crate::group::{
    g1_mul_gen, g1_mul_gen_of, g1_ok, g1_msm, g2_gen_bytes, g2_mul_gen, g2_mul_gen_of, g2_ok,
    gt_add, gt_add_of, gt_ok, msm_g1_of, pairing, pairing_of,
};
use crate::qap::{evaluate_qap_at, lagrange_basis_at, qap_evals, vanishing_at, vanishing_val};
use crate::rng::FrRng;
use vstd::arithmetic::power2::pow2;
use vstd::prelude::*;

verus! {

/// The common reference string σ: group-element encodings only.
pub struct EncapKey {
    pub alpha_g1: Vec<u8>,
    pub beta_g2: Vec<u8>,
    pub delta_g2: Vec<u8>,
    pub r_u_query_g1: Vec<Vec<u8>>,
    pub r_v_query_g2: Vec<Vec<u8>>,
    pub phi_delta_query_g1: Vec<Vec<u8>>,
    pub h_query_g1: Vec<Vec<u8>>,
}

/// The ciphertext: σ together with the public inputs it was built for.
pub struct Ciphertext {
    pub encap_key: EncapKey,
    pub public_inputs: Vec<Fe>,
}

/// The derived 32-byte symmetric key.
pub struct Key(pub [u8; 32]);

impl Key {
    /// Wraps 32 key bytes.
    pub fn new(bytes: [u8; 32]) -> (r: Key)
        ensures
            r.0@ == bytes@,
    {
        Key(bytes)
    }

    /// The key bytes.
    pub fn as_bytes(&self) -> (r: &[u8; 32])
        ensures
            r@ == self.0@,
    {
        &self.0
    }
}

/// Relies on `<[u8; 32]>::try_from` over a 32-byte slice: the same bytes as
/// a fixed-size array.
#[verifier::external_body]
fn bytes32(v: &Vec<u8>) -> (r: [u8; 32])
    requires
        v@.len() >= 32,
    ensures
        r@ == v@.subrange(0, 32),
{
    let mut out = [0u8; 32];
    out.copy_from_slice(&v.as_slice()[0..32]);
    out
}

/// The SHA-256 digest of a byte string.  Named for what `sha2` computes; it
/// depends on the input alone.
pub uninterp spec fn sha256_of(data: Seq<u8>) -> Seq<u8>;

/// Relies on `sha2::Sha256`: the 32-byte digest of the input, a function of
/// the input alone.
#[verifier::external_body]
fn sha256(data: &Vec<u8>) -> (r: Vec<u8>)
    ensures
        r@ == sha256_of(data@),
        r@.len() == 32,
{
    let mut hasher = <sha2::Sha256 as sha2::Digest>::new();
    sha2::Digest::update(&mut hasher, data.as_slice());
    sha2::Digest::finalize(hasher).to_vec()
}

/// The multiplicative inverse modulo the field order, as the unique value
/// below the order whose product with the argument is one.
pub open spec fn fr_inv(d: nat) -> nat {
    choose|i: nat| i < fr_order() && #[trigger] ((d * i) % fr_order()) == 1
}

/// Any two inverses of the same value agree, so `fr_inv` names the one
/// inverse that `fe_inv` computes.
pub proof fn lemma_inverse_unique(d: nat, i1: nat, i2: nat)
    requires
        i1 < fr_order(),
        i2 < fr_order(),
        (d * i1) % fr_order() == 1,
        (d * i2) % fr_order() == 1,
    ensures
        i1 == i2,
{
    let p = fr_order() as int;
    let a = i1 as int;
    let b = i2 as int;
    let dd = d as int;
    assert(a % p == a && b % p == b) by {
        vstd::arithmetic::div_mod::lemma_small_mod(i1, fr_order());
        vstd::arithmetic::div_mod::lemma_small_mod(i2, fr_order());
    }
    assert((a * (dd * b)) % p == (a * ((dd * b) % p)) % p) by {
        vstd::arithmetic::div_mod::lemma_mul_mod_noop_right(a, dd * b, p);
    }
    assert((dd * b) % p == 1);
    assert((a * 1) % p == a % p) by {
        vstd::arithmetic::mul::lemma_mul_basics(a);
    }
    assert((a * (dd * b)) % p == ((a * dd) * b) % p) by {
        vstd::arithmetic::mul::lemma_mul_is_associative(a, dd, b);
    }
    assert(((a * dd) * b) % p == (((a * dd) % p) * b) % p) by {
        vstd::arithmetic::div_mod::lemma_mul_mod_noop_left(a * dd, b, p);
    }
    assert((a * dd) % p == (dd * a) % p) by {
        vstd::arithmetic::mul::lemma_mul_is_commutative(a, dd);
    }
    assert((dd * a) % p == 1);
    assert((1 * b) % p == b % p) by {
        vstd::arithmetic::mul::lemma_mul_basics(b);
    }
}

/// The exponent of the chosen domain size: the smallest power of two at
/// least `n` and at least `l1`, within the field's two-adicity.
pub open spec fn is_domain_lg(n: nat, l1: nat, lg: nat) -> bool {
    &&& lg <= 28
    &&& pow2(lg) >= n
    &&& pow2(lg) >= l1
    &&& (lg > 0 ==> (pow2((lg - 1) as nat) < n || pow2((lg - 1) as nat) < l1))
}

/// The exponent of the domain size, as the unique value satisfying
/// `is_domain_lg`.
pub open spec fn domain_lg(n: nat, l1: nat) -> nat {
    choose|lg: nat| #[trigger] is_domain_lg(n, l1, lg)
}

/// The domain exponent is unique, so `domain_lg` names the one the engine
/// computes.
pub proof fn lemma_domain_lg_unique(n: nat, l1: nat, lg1: nat, lg2: nat)
    requires
        is_domain_lg(n, l1, lg1),
        is_domain_lg(n, l1, lg2),
    ensures
        lg1 == lg2,
{
    if lg1 < lg2 {
        assert(pow2(lg1) <= pow2((lg2 - 1) as nat)) by {
            if lg1 < lg2 - 1 {
                vstd::arithmetic::power2::lemma_pow2_strictly_increases(lg1, (lg2 - 1) as nat);
            }
        }
    }
    if lg2 < lg1 {
        assert(pow2(lg2) <= pow2((lg1 - 1) as nat)) by {
            if lg2 < lg1 - 1 {
                vstd::arithmetic::power2::lemma_pow2_strictly_increases(lg2, (lg1 - 1) as nat);
            }
        }
    }
}

/// The scalar `φᵢ(x)/δ = (r·β·uᵢ + r·α·vᵢ + r²·wᵢ)·δ⁻¹`, accumulated exactly
/// as the implementation multiplies and adds, modulo the field order.
pub open spec fn phi_scalar(
    alpha: nat,
    beta: nat,
    r: nat,
    di: nat,
    u: nat,
    v: nat,
    w: nat,
) -> nat {
    let p = fr_order();
    let t1 = (((r * beta) % p) * u) % p;
    let t2 = (((r * alpha) % p) * v) % p;
    let t3 = (((r * r) % p) * w) % p;
    ((((t1 + t2) % p) + t3) % p * di) % p
}

/// `x^k` modulo the field order, accumulated multiplicatively.
pub open spec fn xpow(x: nat, k: nat) -> nat
    decreases k,
{
    if k == 0 {
        1
    } else {
        (xpow(x, (k - 1) as nat) * x) % fr_order()
    }
}

/// The scalar of the `k`-th entry of the `h` query:
/// `r²·xᵏ·t(x)·δ⁻¹` in the accumulation order of the implementation.
pub open spec fn h_scalar(r: nat, x: nat, di: nat, size: nat, k: nat) -> nat {
    let p = fr_order();
    let base = (((r * r) % p) * ((vanishing_val(x, size) * di) % p)) % p;
    (base * xpow(x, k)) % p
}

/// What `encap` produces from a circuit and one draw of the five toxic
/// scalars: every entry of σ is the generator times the stated scalar, the
/// public inputs are the circuit's instance values, and the key is the
/// SHA-256 digest of the serialised `e([α]₁,[β]₂) + e(Π, [1]₂)` with `Π`
/// the instance accumulator of the `φ` query.
pub open spec fn encap_post(
    cs: &ConstraintSystem,
    alpha: nat,
    beta: nat,
    delta: nat,
    r: nat,
    x: nat,
    ct: &Ciphertext,
    key: &Key,
) -> bool {
    let p = fr_order();
    let lg = domain_lg(cs.rows@.len(), cs.n_inst());
    let size = pow2(lg);
    let lag = lagrange_basis_at(size, x);
    let uu = qap_evals(cs, lag, 0);
    let vv = qap_evals(cs, lag, 1);
    let ww = qap_evals(cs, lag, 2);
    let di = fr_inv(delta);
    let m = cs.m();
    &&& is_domain_lg(cs.rows@.len(), cs.n_inst(), lg)
    &&& ct.encap_key.alpha_g1@ == g1_mul_gen_of(alpha)
    &&& ct.encap_key.beta_g2@ == g2_mul_gen_of(beta)
    &&& ct.encap_key.delta_g2@ == g2_mul_gen_of(delta)
    &&& ct.encap_key.r_u_query_g1@.len() == m
    &&& (forall|i: int|
        0 <= i < m ==> (#[trigger] ct.encap_key.r_u_query_g1@[i])@ == g1_mul_gen_of(
            (r * uu[i]) % p,
        ))
    &&& ct.encap_key.r_v_query_g2@.len() == m
    &&& (forall|i: int|
        0 <= i < m ==> (#[trigger] ct.encap_key.r_v_query_g2@[i])@ == g2_mul_gen_of(
            (r * vv[i]) % p,
        ))
    &&& ct.encap_key.phi_delta_query_g1@.len() == m
    &&& (forall|i: int|
        0 <= i < m ==> (#[trigger] ct.encap_key.phi_delta_query_g1@[i])@ == g1_mul_gen_of(
            phi_scalar(alpha, beta, r, di, uu[i], vv[i], ww[i]),
        ))
    &&& ct.encap_key.h_query_g1@.len() == size - 1
    &&& (forall|k: int|
        0 <= k < size - 1 ==> (#[trigger] ct.encap_key.h_query_g1@[k])@ == g1_mul_gen_of(
            h_scalar(r, x, di, size, k as nat),
        ))
    &&& ct.public_inputs@.len() == cs.n_inst() - 1
    &&& (forall|i: int|
        0 <= i < ct.public_inputs@.len() ==> (#[trigger] ct.public_inputs@[i]).wf()
            && ct.public_inputs@[i].val() == cs.z()[i + 1])
    &&& g1_ok(ct.encap_key.alpha_g1@)
    &&& g2_ok(ct.encap_key.beta_g2@)
    &&& (forall|i: int|
        0 <= i < m ==> g1_ok((#[trigger] ct.encap_key.phi_delta_query_g1@[i])@))
    &&& key.0@ == encap_key_bytes(cs, alpha, beta, r, di, uu, vv, ww)
}

/// The bytes of the derived key on the sender's side.
pub open spec fn encap_key_bytes(
    cs: &ConstraintSystem,
    alpha: nat,
    beta: nat,
    r: nat,
    di: nat,
    uu: Seq<nat>,
    vv: Seq<nat>,
    ww: Seq<nat>,
) -> Seq<u8> {
    let phi_pts = Seq::new(
        cs.n_inst(),
        |i: int| g1_mul_gen_of(phi_scalar(alpha, beta, r, di, uu[i], vv[i], ww[i])),
    );
    let scalars = Seq::new(cs.n_inst(), |i: int| cs.z()[i]);
    let s = gt_add_of(
        pairing_of(g1_mul_gen_of(alpha), g2_mul_gen_of(beta)),
        pairing_of(msm_g1_of(phi_pts, scalars), g2_gen_bytes()),
    );
    sha256_of(s)
}

/// The bytes of the key that `decap` re-derives: the same pairing with the
/// full-assignment accumulator over the whole `φ` query.
pub open spec fn decap_key_bytes(cs: &ConstraintSystem, ct: &Ciphertext) -> Seq<u8> {
    let phi_pts = Seq::new(cs.m(), |i: int| ct.encap_key.phi_delta_query_g1@[i]@);
    let scalars = Seq::new(cs.m(), |i: int| cs.z()[i]);
    let s = gt_add_of(
        pairing_of(ct.encap_key.alpha_g1@, ct.encap_key.beta_g2@),
        pairing_of(msm_g1_of(phi_pts, scalars), g2_gen_bytes()),
    );
    sha256_of(s)
}

/// Whether the instance wires all carry values.
pub open spec fn instance_assigned(cs: &ConstraintSystem) -> bool {
    forall|i: int| 0 <= i < cs.instance@.len() ==> (#[trigger] cs.instance@[i]) is Some
}

/// Whether the ciphertext's public inputs equal the circuit's instance
/// assignment, value for value.
pub open spec fn instance_matches(cs: &ConstraintSystem, ct: &Ciphertext) -> bool {
    &&& ct.public_inputs@.len() == cs.n_inst() - 1
    &&& forall|i: int|
        0 <= i < ct.public_inputs@.len() ==> (#[trigger] ct.public_inputs@[i]).val() == cs.z()[i
            + 1]
}

/// Whether every group encoding that `decap` consumes is accepted.
pub open spec fn decap_points_ok(cs: &ConstraintSystem, ct: &Ciphertext) -> bool {
    &&& g1_ok(ct.encap_key.alpha_g1@)
    &&& g2_ok(ct.encap_key.beta_g2@)
    &&& forall|i: int|
        0 <= i < ct.encap_key.phi_delta_query_g1@.len() ==> g1_ok(
            (#[trigger] ct.encap_key.phi_delta_query_g1@[i])@,
        )
}

/// Encapsulation from an explicit scalar draw.
///
/// Deterministic in the circuit and the five scalars; the public `encap`
/// samples the scalars from the caller's generator, calls this, and erases
/// them.
pub fn encap_with_randomness(
    cs: &ConstraintSystem,
    alpha: &Fe,
    beta: &Fe,
    delta: &Fe,
    r: &Fe,
    x: &Fe,
) -> (res: Result<(Ciphertext, Key), Error>)
    requires
        cs.wf(),
        instance_assigned(cs),
        alpha.wf(),
        beta.wf(),
        delta.wf(),
        delta.val() != 0,
        r.wf(),
        x.wf(),
    ensures
        res matches Ok(p) ==> encap_post(
            cs,
            alpha.val(),
            beta.val(),
            delta.val(),
            r.val(),
            x.val(),
            &p.0,
            &p.1,
        ),
        res is Err <==> (cs.rows@.len() > pow2(28) || cs.n_inst() > pow2(28)),
        res is Err ==> res == Err::<(Ciphertext, Key), Error>(Error::DomainUnavailable),
{
    let (uu, vv, ww, size, lg) = match evaluate_qap_at(cs, x) {
        Ok(q) => q,
        Err(e) => {
            return Err(e);
        },
    };
    proof {
        assert(is_domain_lg(cs.rows@.len(), cs.n_inst(), lg as nat));
        assert(domain_lg(cs.rows@.len(), cs.n_inst()) == lg as nat) by {
            let chosen = domain_lg(cs.rows@.len(), cs.n_inst());
            assert(is_domain_lg(cs.rows@.len(), cs.n_inst(), lg as nat));
            assert(exists|l: nat| #[trigger] is_domain_lg(cs.rows@.len(), cs.n_inst(), l));
            lemma_domain_lg_unique(cs.rows@.len(), cs.n_inst(), chosen, lg as nat);
        }
    }
    let mut di = match fe_inv(delta) {
        Some(v) => v,
        None => {
            proof {
                assert(false);
            }
            unreached()
        },
    };
    proof {
        assert(di.val() == fr_inv(delta.val())) by {
            let chosen = fr_inv(delta.val());
            assert(di.val() < fr_order() && (delta.val() * di.val()) % fr_order() == 1);
            assert(exists|i: nat| i < fr_order() && #[trigger] ((delta.val() * i) % fr_order()) == 1);
            assert(chosen < fr_order() && (delta.val() * chosen) % fr_order() == 1);
            lemma_inverse_unique(delta.val(), chosen, di.val());
        }
    }
    let ghost lag = lagrange_basis_at(size as nat, x.val());
    let ghost uu_s = Seq::new(uu@.len(), |i: int| uu@[i].val());
    let ghost vv_s = Seq::new(vv@.len(), |i: int| vv@[i].val());
    let ghost ww_s = Seq::new(ww@.len(), |i: int| ww@[i].val());

    let m = uu.len();
    let mut r_u_query_g1: Vec<Vec<u8>> = Vec::new();
    let mut r_v_query_g2: Vec<Vec<u8>> = Vec::new();
    let mut phi_delta_query_g1: Vec<Vec<u8>> = Vec::new();
    let mut i: usize = 0;
    while i < m
        invariant
            cs.wf(),
            alpha.wf(),
            beta.wf(),
            r.wf(),
            x.wf(),
            di.wf(),
            m == cs.m(),
            uu@.len() == m && vv@.len() == m && ww@.len() == m,
            forall|t: int| 0 <= t < m as int ==> (#[trigger] uu@[t]).wf(),
            forall|t: int| 0 <= t < m as int ==> (#[trigger] vv@[t]).wf(),
            forall|t: int| 0 <= t < m as int ==> (#[trigger] ww@[t]).wf(),
            uu_s == Seq::new(uu@.len(), |t: int| uu@[t].val()),
            vv_s == Seq::new(vv@.len(), |t: int| vv@[t].val()),
            ww_s == Seq::new(ww@.len(), |t: int| ww@[t].val()),
            i <= m,
            r_u_query_g1@.len() == i as nat,
            r_v_query_g2@.len() == i as nat,
            phi_delta_query_g1@.len() == i as nat,
            forall|t: int|
                0 <= t < i as int ==> (#[trigger] r_u_query_g1@[t])@ == g1_mul_gen_of(
                    (r.val() * uu_s[t]) % fr_order(),
                ) && g1_ok(r_u_query_g1@[t]@),
            forall|t: int|
                0 <= t < i as int ==> (#[trigger] r_v_query_g2@[t])@ == g2_mul_gen_of(
                    (r.val() * vv_s[t]) % fr_order(),
                ) && g2_ok(r_v_query_g2@[t]@),
            forall|t: int|
                0 <= t < i as int ==> (#[trigger] phi_delta_query_g1@[t])@ == g1_mul_gen_of(
                    phi_scalar(alpha.val(), beta.val(), r.val(), di.val(), uu_s[t], vv_s[t],
                    ww_s[t]),
                ) && g1_ok(phi_delta_query_g1@[t]@),
        decreases m - i,
    {
        let r_u = fe_mul(r, &uu[i]);
        let r_v = fe_mul(r, &vv[i]);
        let t1 = fe_mul(&fe_mul(r, beta), &uu[i]);
        let t2 = fe_mul(&fe_mul(r, alpha), &vv[i]);
        let t3 = fe_mul(&fe_mul(r, r), &ww[i]);
        let phi = fe_mul(&fe_add(&fe_add(&t1, &t2), &t3), &di);
        proof {
            assert(phi.val() == phi_scalar(alpha.val(), beta.val(), r.val(), di.val(),
                uu_s[i as int], vv_s[i as int], ww_s[i as int]));
        }
        r_u_query_g1.push(g1_mul_gen(&r_u));
        r_v_query_g2.push(g2_mul_gen(&r_v));
        phi_delta_query_g1.push(g1_mul_gen(&phi));
        let mut spent = (r_u, r_v, t1, t2, t3, phi);
        crate::bytesutil::zero_bytes(&mut spent.0.b);
        crate::bytesutil::zero_bytes(&mut spent.1.b);
        crate::bytesutil::zero_bytes(&mut spent.2.b);
        crate::bytesutil::zero_bytes(&mut spent.3.b);
        crate::bytesutil::zero_bytes(&mut spent.4.b);
        crate::bytesutil::zero_bytes(&mut spent.5.b);
        i = i + 1;
    }

    let mut t_at_x = vanishing_at(x, lg);
    let mut base = fe_mul(&fe_mul(r, r), &fe_mul(&t_at_x, &di));
    let mut h_query_g1: Vec<Vec<u8>> = Vec::new();
    let mut xk = crate::field::fe_one();
    let mut k: u64 = 0;
    proof {
        assert(xpow(x.val(), 0) == 1);
    }
    while k < size - 1
        invariant
            x.wf(),
            r.wf(),
            di.wf(),
            base.wf(),
            size >= 1,
            base.val() == (((r.val() * r.val()) % fr_order()) * ((vanishing_val(
                x.val(),
                pow2(lg as nat),
            ) * di.val()) % fr_order())) % fr_order(),
            size as nat == pow2(lg as nat),
            k <= size - 1,
            xk.wf(),
            xk.val() == xpow(x.val(), k as nat),
            h_query_g1@.len() == k as nat,
            forall|t: int|
                0 <= t < k as int ==> (#[trigger] h_query_g1@[t])@ == g1_mul_gen_of(
                    h_scalar(r.val(), x.val(), di.val(), pow2(lg as nat), t as nat),
                ),
        decreases size - k,
    {
        let hk = fe_mul(&base, &xk);
        proof {
            assert(hk.val() == h_scalar(r.val(), x.val(), di.val(), pow2(lg as nat), k as nat));
        }
        h_query_g1.push(g1_mul_gen(&hk));
        let mut hk_spent = hk;
        crate::bytesutil::zero_bytes(&mut hk_spent.b);
        xk = fe_mul(&xk, x);
        k = k + 1;
    }

    let alpha_g1 = g1_mul_gen(alpha);
    let beta_g2 = g2_mul_gen(beta);
    let delta_g2 = g2_mul_gen(delta);

    // The instance accumulator Π over φ₀..φℓ.
    let inst_vals = match cs.instance_values() {
        Ok(v) => v,
        Err(_e) => {
            proof {
                assert(false);
            }
            unreached()
        },
    };
    let n_inst = inst_vals.len();
    let mut phi_inst: Vec<Vec<u8>> = Vec::new();
    let mut j: usize = 0;
    proof {
        assert(cs.n_inst() <= cs.m());
    }
    while j < n_inst
        invariant
            n_inst == cs.n_inst(),
            n_inst <= m,
            m == phi_delta_query_g1@.len(),
            j <= n_inst,
            phi_inst@.len() == j as nat,
            forall|t: int|
                0 <= t < m as int ==> g1_ok((#[trigger] phi_delta_query_g1@[t])@),
            forall|t: int|
                0 <= t < j as int ==> (#[trigger] phi_inst@[t])@ == phi_delta_query_g1@[t]@,
        decreases n_inst - j,
    {
        phi_inst.push(crate::bytesutil::take_bytes(&phi_delta_query_g1[j], 0,
            phi_delta_query_g1[j].len()));
        j = j + 1;
    }
    let pi = match g1_msm(&phi_inst, &inst_vals) {
        Ok(v) => v,
        Err(_e) => {
            proof {
                assert(forall|t: int|
                    0 <= t < phi_inst@.len() ==> g1_ok((#[trigger] phi_inst@[t])@));
                assert(false);
            }
            unreached()
        },
    };
    let one = crate::field::fe_one();
    let g2_gen = g2_mul_gen(&one);
    let s1 = match pairing(&alpha_g1, &beta_g2) {
        Ok(v) => v,
        Err(_e) => {
            proof {
                assert(false);
            }
            unreached()
        },
    };
    let s2 = match pairing(&pi, &g2_gen) {
        Ok(v) => v,
        Err(_e) => {
            proof {
                assert(false);
            }
            unreached()
        },
    };
    let s = match gt_add(&s1, &s2) {
        Ok(v) => v,
        Err(_e) => {
            proof {
                assert(false);
            }
            unreached()
        },
    };
    let digest = sha256(&s);
    let key = Key::new(bytes32(&digest));
    proof {
        assert(digest@.subrange(0, 32) =~= digest@);
    }

    let encap_key = EncapKey {
        alpha_g1,
        beta_g2,
        delta_g2,
        r_u_query_g1,
        r_v_query_g2,
        phi_delta_query_g1,
        h_query_g1,
    };
    let ct = Ciphertext { encap_key, public_inputs: split_publics(inst_vals) };
    proof {
        assert(Seq::new(cs.n_inst(), |t: int| phi_inst@[t]@) =~= Seq::new(
            cs.n_inst(),
            |t: int|
                g1_mul_gen_of(
                    phi_scalar(alpha.val(), beta.val(), r.val(), di.val(), uu_s[t], vv_s[t],
                    ww_s[t]),
                ),
        ));
        assert(Seq::new(cs.n_inst(), |t: int| inst_vals@[t].val()) =~= Seq::new(
            cs.n_inst(),
            |t: int| cs.z()[t],
        ));
        assert(key.0@ == encap_key_bytes(cs, alpha.val(), beta.val(), r.val(), di.val(), uu_s,
            vv_s, ww_s));
        assert(ct.public_inputs@.len() == cs.n_inst() - 1);
    }
    // Erase the remaining scalar intermediates before the call returns.
    crate::bytesutil::zero_bytes(&mut di.b);
    crate::bytesutil::zero_bytes(&mut t_at_x.b);
    crate::bytesutil::zero_bytes(&mut base.b);
    crate::bytesutil::zero_bytes(&mut xk.b);
    Ok((ct, key))
}

/// Drops the constant-one entry from the instance values, leaving the
/// public inputs `a₁..aℓ`.
fn split_publics(vals: Vec<Fe>) -> (r: Vec<Fe>)
    requires
        vals@.len() >= 1,
    ensures
        r@.len() == vals@.len() - 1,
        forall|i: int| 0 <= i < r@.len() ==> (#[trigger] r@[i]).b@ == vals@[i + 1].b@,
{
    let n = vals.len();
    let mut out: Vec<Fe> = Vec::new();
    let mut i: usize = 1;
    while i < n
        invariant
            n == vals@.len(),
            1 <= i <= n,
            out@.len() == i - 1,
            forall|t: int| 0 <= t < out@.len() ==> (#[trigger] out@[t]).b@ == vals@[t + 1].b@,
        decreases n - i,
    {
        out.push(vals[i].dup());
        i = i + 1;
    }
    out
}

/// Encapsulation: samples the five toxic scalars from the caller's
/// generator (rejecting a zero `δ`), builds σ and the key, and erases the
/// scalars before returning.
pub fn encap(cs: &ConstraintSystem, rng: &mut FrRng) -> (res: Result<(Ciphertext, Key), Error>)
    requires
        cs.wf(),
        instance_assigned(cs),
    ensures
        res matches Ok(p) ==> exists|alpha: nat, beta: nat, delta: nat, r: nat, x: nat|
            delta != 0 && #[trigger] encap_post(cs, alpha, beta, delta, r, x, &p.0, &p.1),
        res is Err <==> (cs.rows@.len() > pow2(28) || cs.n_inst() > pow2(28)),
        res is Err ==> res == Err::<(Ciphertext, Key), Error>(Error::DomainUnavailable),
{
    let mut alpha = rng.draw();
    let mut beta = rng.draw();
    let mut delta = rng.draw_nonzero();
    let mut r = rng.draw();
    let mut x = rng.draw();
    let out = encap_with_randomness(cs, &alpha, &beta, &delta, &r, &x);
    let ghost a_v = alpha.val();
    let ghost b_v = beta.val();
    let ghost d_v = delta.val();
    let ghost r_v = r.val();
    let ghost x_v = x.val();
    proof {
        if out is Ok {
            assert(encap_post(cs, a_v, b_v, d_v, r_v, x_v, &out->Ok_0.0, &out->Ok_0.1));
        }
    }
    crate::bytesutil::zero_bytes(&mut alpha.b);
    crate::bytesutil::zero_bytes(&mut beta.b);
    crate::bytesutil::zero_bytes(&mut delta.b);
    crate::bytesutil::zero_bytes(&mut r.b);
    crate::bytesutil::zero_bytes(&mut x.b);
    out
}

/// Decapsulation: recovers the key from a circuit carrying the full
/// assignment and a ciphertext.
///
/// The instance must match the ciphertext's public inputs value for value
/// (else `PublicInputMismatch`), every wire must be assigned (else
/// `AssignmentMissing`), and the assignment must satisfy every constraint —
/// an unsatisfied system is always refused with `InvalidWitness`, never
/// answered with a key.
pub fn decap(cs: &ConstraintSystem, ct: &Ciphertext) -> (res: Result<Key, Error>)
    requires
        cs.wf(),
        forall|i: int|
            0 <= i < ct.public_inputs@.len() ==> (#[trigger] ct.public_inputs@[i]).wf(),
    ensures
        !instance_assigned(cs) ==> res == Err::<Key, Error>(Error::AssignmentMissing),
        instance_assigned(cs) && !instance_matches(cs, ct) ==> res == Err::<Key, Error>(
            Error::PublicInputMismatch,
        ),
        instance_matches(cs, ct) && !cs.all_assigned() ==> res == Err::<Key, Error>(
            Error::AssignmentMissing,
        ),
        instance_matches(cs, ct) && cs.all_assigned() && !cs.satisfied() ==> res == Err::<
            Key,
            Error,
        >(Error::InvalidWitness),
        res is Ok ==> instance_matches(cs, ct) && cs.all_assigned() && cs.satisfied()
            && ct.encap_key.phi_delta_query_g1@.len() == cs.m() && decap_points_ok(cs, ct),
        res matches Ok(k) ==> k.0@ == decap_key_bytes(cs, ct),
        instance_matches(cs, ct) && cs.all_assigned() && cs.satisfied()
            && ct.encap_key.phi_delta_query_g1@.len() == cs.m() && decap_points_ok(cs, ct)
            ==> res is Ok,
{
    // Step 1: the instance assignment must equal the ciphertext's public
    // inputs.
    let inst_vals = match cs.instance_values() {
        Ok(v) => v,
        Err(_e) => {
            proof {
                let w = choose|w: int|
                    0 <= w < cs.instance@.len() && !((#[trigger] cs.instance@[w]) is Some);
                assert(!instance_assigned(cs));
            }
            return Err(Error::AssignmentMissing);
        },
    };
    proof {
        assert(instance_assigned(cs)) by {
            if !instance_assigned(cs) {
                let w = choose|w: int|
                    0 <= w < cs.instance@.len() && !((#[trigger] cs.instance@[w]) is Some);
                assert(exists|i: int|
                    0 <= i < cs.instance@.len() && !((#[trigger] cs.instance@[i]) is Some));
            }
        }
    }
    if ct.public_inputs.len() != inst_vals.len() - 1 {
        return Err(Error::PublicInputMismatch);
    }
    let n_pub = ct.public_inputs.len();
    let mut i: usize = 0;
    while i < n_pub
        invariant
            cs.wf(),
            instance_assigned(cs),
            forall|t: int|
                0 <= t < ct.public_inputs@.len() ==> (#[trigger] ct.public_inputs@[t]).wf(),
            n_pub == ct.public_inputs@.len(),
            inst_vals@.len() == cs.n_inst(),
            n_pub == cs.n_inst() - 1,
            forall|t: int|
                0 <= t < inst_vals@.len() ==> (#[trigger] inst_vals@[t]).wf()
                    && inst_vals@[t].val() == cs.z()[t],
            i <= n_pub,
            forall|t: int|
                0 <= t < i as int ==> (#[trigger] ct.public_inputs@[t]).val() == cs.z()[t + 1],
        decreases n_pub - i,
    {
        if !fe_eq(&ct.public_inputs[i], &inst_vals[i + 1]) {
            proof {
                assert(!instance_matches(cs, ct));
            }
            return Err(Error::PublicInputMismatch);
        }
        i = i + 1;
    }
    proof {
        assert(instance_matches(cs, ct));
    }

    // Step 2: the full assignment must satisfy every constraint.
    let sat = match cs.is_satisfied() {
        Ok(b) => b,
        Err(_e) => {
            return Err(Error::AssignmentMissing);
        },
    };
    if !sat {
        return Err(Error::InvalidWitness);
    }

    // Step 3: the accumulator over the whole φ query with the full
    // assignment.
    let m = cs.instance.len() + cs.witness.len();
    if ct.encap_key.phi_delta_query_g1.len() != m {
        return Err(Error::SerializationError);
    }
    let z_vals = match full_values(cs) {
        Ok(v) => v,
        Err(_e) => {
            proof {
                assert(false);
            }
            unreached()
        },
    };
    let mut phi_all: Vec<Vec<u8>> = Vec::new();
    let mut j: usize = 0;
    while j < m
        invariant
            m == ct.encap_key.phi_delta_query_g1@.len(),
            j <= m,
            phi_all@.len() == j as nat,
            forall|t: int|
                0 <= t < j as int ==> (#[trigger] phi_all@[t])@
                    == ct.encap_key.phi_delta_query_g1@[t]@,
        decreases m - j,
    {
        phi_all.push(crate::bytesutil::take_bytes(&ct.encap_key.phi_delta_query_g1[j], 0,
            ct.encap_key.phi_delta_query_g1[j].len()));
        j = j + 1;
    }
    let pi_psi = match g1_msm(&phi_all, &z_vals) {
        Ok(v) => v,
        Err(_e) => {
            proof {
                let w = choose|t: int|
                    0 <= t < phi_all@.len() && !g1_ok((#[trigger] phi_all@[t])@);
                assert(!g1_ok(ct.encap_key.phi_delta_query_g1@[w]@));
                assert(!decap_points_ok(cs, ct));
            }
            return Err(Error::SerializationError);
        },
    };

    // Step 4: the pairing and the key bytes.
    let one = crate::field::fe_one();
    let g2_gen = g2_mul_gen(&one);
    let s1 = match pairing(&ct.encap_key.alpha_g1, &ct.encap_key.beta_g2) {
        Ok(v) => v,
        Err(_e) => {
            return Err(Error::SerializationError);
        },
    };
    let s2 = match pairing(&pi_psi, &g2_gen) {
        Ok(v) => v,
        Err(_e) => {
            proof {
                assert(false);
            }
            unreached()
        },
    };
    let s = match gt_add(&s1, &s2) {
        Ok(v) => v,
        Err(_e) => {
            proof {
                assert(false);
            }
            unreached()
        },
    };
    proof {
        assert(Seq::new(cs.m(), |t: int| phi_all@[t]@) =~= Seq::new(
            cs.m(),
            |t: int| ct.encap_key.phi_delta_query_g1@[t]@,
        ));
        assert(Seq::new(cs.m(), |t: int| z_vals@[t].val()) =~= Seq::new(
            cs.m(),
            |t: int| cs.z()[t],
        ));
        assert forall|t: int| 0 <= t < ct.encap_key.phi_delta_query_g1@.len() implies g1_ok(
            (#[trigger] ct.encap_key.phi_delta_query_g1@[t])@,
        ) by {
            assert(g1_ok(phi_all@[t]@));
        }
        assert(decap_points_ok(cs, ct));
    }
    let digest = sha256(&s);
    proof {
        assert(digest@.subrange(0, 32) =~= digest@);
    }
    Ok(Key::new(bytes32(&digest)))
}

/// The full assignment as canonical elements, in global column order; fails
/// with `AssignmentMissing` exactly when a wire has no value.
fn full_values(cs: &ConstraintSystem) -> (r: Result<Vec<Fe>, Error>)
    requires
        cs.wf(),
    ensures
        r matches Ok(vals) ==> {
            &&& vals@.len() == cs.m()
            &&& forall|i: int|
                0 <= i < vals@.len() ==> (#[trigger] vals@[i]).wf() && vals@[i].val()
                    == cs.z()[i]
        },
        r is Err <==> !cs.all_assigned(),
        r is Err ==> r == Err::<Vec<Fe>, Error>(Error::AssignmentMissing),
{
    let n1 = cs.instance.len();
    let n2 = cs.witness.len();
    let mut out: Vec<Fe> = Vec::new();
    let mut i: usize = 0;
    while i < n1
        invariant
            cs.wf(),
            n1 == cs.instance@.len(),
            i <= n1,
            out@.len() == i as nat,
            forall|t: int| 0 <= t < i as int ==> (#[trigger] cs.instance@[t]) is Some,
            forall|t: int|
                0 <= t < i as int ==> (#[trigger] out@[t]).wf() && out@[t].val() == cs.z()[t],
        decreases n1 - i,
    {
        match &cs.instance[i] {
            Some(fe) => {
                out.push(fe.dup());
            },
            None => {
                return Err(Error::AssignmentMissing);
            },
        }
        i = i + 1;
    }
    let mut k: usize = 0;
    while k < n2
        invariant
            cs.wf(),
            n1 == cs.instance@.len(),
            n2 == cs.witness@.len(),
            k <= n2,
            out@.len() == n1 + k,
            forall|t: int| 0 <= t < n1 as int ==> (#[trigger] cs.instance@[t]) is Some,
            forall|t: int| 0 <= t < k as int ==> (#[trigger] cs.witness@[t]) is Some,
            forall|t: int|
                0 <= t < out@.len() ==> (#[trigger] out@[t]).wf() && out@[t].val() == cs.z()[t],
        decreases n2 - k,
    {
        match &cs.witness[k] {
            Some(fe) => {
                out.push(fe.dup());
            },
            None => {
                return Err(Error::AssignmentMissing);
            },
        }
        k = k + 1;
    }
    Ok(out)
}

/// Whether a ciphertext carries exactly the expected public inputs.
pub fn verify_ciphertext(ct: &Ciphertext, expected_public_inputs: &Vec<Fe>) -> (r: bool)
    requires
        forall|i: int|
            0 <= i < ct.public_inputs@.len() ==> (#[trigger] ct.public_inputs@[i]).wf(),
        forall|i: int|
            0 <= i < expected_public_inputs@.len() ==> (
            #[trigger] expected_public_inputs@[i]).wf(),
    ensures
        r == (ct.public_inputs@.len() == expected_public_inputs@.len() && forall|i: int|
            0 <= i < ct.public_inputs@.len() ==> (#[trigger] ct.public_inputs@[i]).val()
                == expected_public_inputs@[i].val()),
{
    if ct.public_inputs.len() != expected_public_inputs.len() {
        return false;
    }
    let n = ct.public_inputs.len();
    let mut i: usize = 0;
    while i < n
        invariant
            forall|t: int|
                0 <= t < ct.public_inputs@.len() ==> (#[trigger] ct.public_inputs@[t]).wf(),
            forall|t: int|
                0 <= t < expected_public_inputs@.len() ==> (
                #[trigger] expected_public_inputs@[t]).wf(),
            n == ct.public_inputs@.len(),
            n == expected_public_inputs@.len(),
            i <= n,
            forall|t: int|
                0 <= t < i as int ==> (#[trigger] ct.public_inputs@[t]).val()
                    == expected_public_inputs@[t].val(),
        decreases n - i,
    {
        if !fe_eq(&ct.public_inputs[i], &expected_public_inputs[i]) {
            return false;
        }
        i = i + 1;
    }
    true
}

} // verus!
