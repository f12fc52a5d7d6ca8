// Encapsulation and decapsulation over small circuits: key recovery,
// witness soundness, instance binding, determinism under a fixed seed, and
// the ciphertext wire format.

use zkenc::cs::{ConstraintSystem, Var};
use zkenc::errors::Error;
use zkenc::field::{fe_eq, fe_from_u64, fe_one, Fe};
use zkenc::rng::FrRng;
use zkenc::sigma::{parse_ciphertext, serialize_ciphertext};
use zkenc::field::{fe_add, fe_inv, fe_mul, fe_sub, fe_zero};
use zkenc::wkem::{decap, encap, verify_ciphertext};

fn seeded(byte: u8) -> FrRng {
    FrRng::from_seed_bytes(&vec![byte; 32])
}

/// The identity circuit: one instance wire, one constraint `1·z₁ = z₁`.
fn identity_circuit(value: Option<u64>) -> ConstraintSystem {
    let mut cs = ConstraintSystem::new();
    let z1 = cs.new_instance(value.map(fe_from_u64)).unwrap();
    cs.enforce(
        vec![(Var::Instance(0), fe_one())],
        vec![(z1, fe_one())],
        vec![(z1, fe_one())],
    )
    .unwrap();
    cs
}

/// The quadratic circuit: `z₂·z₂ = z₁` with `z₁` public, `z₂` private.
fn quadratic_circuit(instance: Option<u64>, witness: Option<u64>) -> ConstraintSystem {
    let mut cs = ConstraintSystem::new();
    let z1 = cs.new_instance(instance.map(fe_from_u64)).unwrap();
    let z2 = cs.new_witness(witness.map(fe_from_u64)).unwrap();
    cs.enforce(vec![(z2, fe_one())], vec![(z2, fe_one())], vec![(z1, fe_one())]).unwrap();
    cs
}

#[test]
fn identity_circuit_recovers_key() {
    // No private wires: the receiver derives exactly the sender's key.
    let cs = identity_circuit(Some(7));
    let mut rng = seeded(1);
    let (ct, key_e) = encap(&cs, &mut rng).unwrap();
    let key_d = decap(&cs, &ct).unwrap();
    assert_eq!(key_e.as_bytes(), key_d.as_bytes());
    assert_eq!(key_e.as_bytes().len(), 32);
}

#[test]
fn identity_circuit_instance_binding() {
    // Substituting a different public input into σ makes decapsulation
    // fail.
    let cs = identity_circuit(Some(7));
    let mut rng = seeded(2);
    let (mut ct, _key) = encap(&cs, &mut rng).unwrap();
    ct.public_inputs[0] = fe_from_u64(8);
    assert_eq!(decap(&cs, &ct).err(), Some(Error::PublicInputMismatch));
}

#[test]
fn quadratic_circuit_decap_success_and_soundness() {
    // z = (25, 5) satisfies; z = (25, 6) is refused as an invalid witness.
    let cs_pub = quadratic_circuit(Some(25), None);
    let mut rng = seeded(3);
    let (ct, _key) = encap(&cs_pub, &mut rng).unwrap();

    let cs_good = quadratic_circuit(Some(25), Some(5));
    assert!(decap(&cs_good, &ct).is_ok());

    let cs_bad = quadratic_circuit(Some(25), Some(6));
    assert_eq!(decap(&cs_bad, &ct).err(), Some(Error::InvalidWitness));
}

#[test]
fn decap_requires_full_assignment() {
    let cs_pub = quadratic_circuit(Some(25), None);
    let mut rng = seeded(4);
    let (ct, _key) = encap(&cs_pub, &mut rng).unwrap();
    // The witness wire carries no value.
    assert_eq!(decap(&cs_pub, &ct).err(), Some(Error::AssignmentMissing));
}

#[test]
fn decap_checks_query_width() {
    // A σ whose φ query does not cover every wire is refused.
    let cs = identity_circuit(Some(7));
    let mut rng = seeded(5);
    let (mut ct, _key) = encap(&cs, &mut rng).unwrap();
    ct.encap_key.phi_delta_query_g1.pop();
    assert_eq!(decap(&cs, &ct).err(), Some(Error::SerializationError));
}

#[test]
fn encap_is_deterministic_under_a_fixed_seed() {
    // Two encapsulations under the same seed are byte-identical: same σ
    // serialisation, same key.
    let cs = quadratic_circuit(Some(25), None);
    let mut rng1 = seeded(9);
    let mut rng2 = seeded(9);
    let (ct1, key1) = encap(&cs, &mut rng1).unwrap();
    let (ct2, key2) = encap(&cs, &mut rng2).unwrap();
    assert_eq!(key1.as_bytes(), key2.as_bytes());
    assert_eq!(serialize_ciphertext(&ct1), serialize_ciphertext(&ct2));
    // A different seed gives a different σ.
    let mut rng3 = seeded(10);
    let (ct3, _key3) = encap(&cs, &mut rng3).unwrap();
    assert_ne!(serialize_ciphertext(&ct1), serialize_ciphertext(&ct3));
}

#[test]
fn ciphertext_wire_format_round_trip() {
    let cs = quadratic_circuit(Some(25), None);
    let mut rng = seeded(6);
    let (ct, _key) = encap(&cs, &mut rng).unwrap();
    let bytes = serialize_ciphertext(&ct);
    let back = parse_ciphertext(&bytes).unwrap();
    assert_eq!(serialize_ciphertext(&back), bytes);
    assert_eq!(back.encap_key.alpha_g1, ct.encap_key.alpha_g1);
    assert_eq!(back.encap_key.h_query_g1.len(), ct.encap_key.h_query_g1.len());
    assert_eq!(back.public_inputs.len(), 1);
    assert!(fe_eq(&back.public_inputs[0], &fe_from_u64(25)));
    // Decapsulation works on the reparsed ciphertext.
    let cs_good = quadratic_circuit(Some(25), Some(5));
    assert!(decap(&cs_good, &back).is_ok());
    // A truncated buffer is refused.
    let cut = bytes[..bytes.len() - 1].to_vec();
    assert_eq!(parse_ciphertext(&cut).err(), Some(Error::TruncatedSection));
}

#[test]
fn verify_ciphertext_checks_the_instance() {
    let cs = identity_circuit(Some(7));
    let mut rng = seeded(7);
    let (ct, _key) = encap(&cs, &mut rng).unwrap();
    assert!(verify_ciphertext(&ct, &vec![fe_from_u64(7)]));
    assert!(!verify_ciphertext(&ct, &vec![fe_from_u64(8)]));
    assert!(!verify_ciphertext(&ct, &vec![]));
}

#[test]
fn qap_evaluations_match_the_row() {
    // The domain polynomial identity Σᵢ zᵢ·uᵢ(x) = Σⱼ Lⱼ(x)·⟨Aⱼ,z⟩ on a
    // one-constraint circuit with concrete values.
    let mut cs = ConstraintSystem::new();
    let z1 = cs.new_instance(Some(fe_from_u64(7))).unwrap();
    cs.enforce(
        vec![(Var::Instance(0), fe_from_u64(3)), (z1, fe_from_u64(5))],
        vec![(z1, fe_one())],
        vec![(z1, fe_one())],
    )
    .unwrap();
    // The size-two domain is {1, −1}, so L₀(x) = (x+1)/2 and L₁(x) =
    // (x−1)/(−2); at x = 5 the basis is (3, p−2).
    let x = fe_from_u64(5);
    let (u, v, _w, size, _lg) = zkenc::qap::evaluate_qap_at(&cs, &x).unwrap();
    assert_eq!(size, 2);
    // u₀ = 3·L₀(5) = 9, u₁ = 5·L₀(5) = 15, v₁ = L₀(5) = 3.
    assert!(fe_eq(&u[0], &fe_from_u64(9)));
    assert!(fe_eq(&u[1], &fe_from_u64(15)));
    assert!(fe_eq(&v[0], &fe_zero()));
    assert!(fe_eq(&v[1], &fe_from_u64(3)));
    // The vanishing polynomial at 5 over this domain: 5² − 1 = 24.
    let t = zkenc::qap::vanishing_at(&x, 1);
    assert!(fe_eq(&t, &fe_from_u64(24)));
    // Σᵢ zᵢ·uᵢ(x) over z = (1, 7).
    let z: Vec<Fe> = vec![fe_one(), fe_from_u64(7)];
    let mut lhs = fe_zero();
    for i in 0..u.len() {
        lhs = fe_add(&lhs, &fe_mul(&z[i], &u[i]));
    }
    // Row 0 contributes L₀(x)·(3·1 + 5·7) = L₀(x)·38, so the columnwise
    // evaluations satisfy 5·u₀ = 3·u₁ (both 15·L₀) and 3·Σzᵢuᵢ = 38·u₀.
    let five_u0 = fe_mul(&fe_from_u64(5), &u[0]);
    let three_u1 = fe_mul(&fe_from_u64(3), &u[1]);
    assert!(fe_eq(&five_u0, &three_u1));
    let three_lhs = fe_mul(&fe_from_u64(3), &lhs);
    let thirtyeight_u0 = fe_mul(&fe_from_u64(38), &u[0]);
    assert!(fe_eq(&three_lhs, &thirtyeight_u0));
}

#[test]
fn field_arithmetic_exact_values() {
    // 2 + 3 = 5, 6 · 7 = 42, 5 − 7 = p − 2, and the inverse multiplies
    // back to one.
    assert!(fe_eq(&fe_add(&fe_from_u64(2), &fe_from_u64(3)), &fe_from_u64(5)));
    assert!(fe_eq(&fe_mul(&fe_from_u64(6), &fe_from_u64(7)), &fe_from_u64(42)));
    let minus_two = fe_sub(&fe_zero(), &fe_from_u64(2));
    assert!(fe_eq(&fe_sub(&fe_from_u64(5), &fe_from_u64(7)), &minus_two));
    let seven = fe_from_u64(7);
    let inv = fe_inv(&seven).unwrap();
    assert!(fe_eq(&fe_mul(&seven, &inv), &fe_one()));
    assert!(fe_inv(&fe_zero()).is_none());
}

#[test]
fn constraint_system_reports_satisfaction() {
    let cs = quadratic_circuit(Some(25), Some(5));
    assert_eq!(cs.is_satisfied().ok(), Some(true));
    let cs_bad = quadratic_circuit(Some(25), Some(6));
    assert_eq!(cs_bad.is_satisfied().ok(), Some(false));
    let cs_missing = quadratic_circuit(Some(25), None);
    assert_eq!(cs_missing.is_satisfied().err(), Some(Error::AssignmentMissing));
}

#[test]
fn enforce_rejects_unallocated_wires() {
    let mut cs = ConstraintSystem::new();
    let r = cs.enforce(vec![(Var::Instance(3), fe_one())], vec![], vec![]);
    assert_eq!(r.err(), Some(Error::SynthesisError));
}
