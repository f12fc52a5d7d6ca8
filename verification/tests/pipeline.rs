// The whole path: parse an r1cs container, build the circuit, encapsulate,
// frame the payload, then parse everything back on the receiving side and
// recover the plaintext.

use zkenc::circuit::CircomCircuit;
use zkenc::errors::Error;
use zkenc::frame::{decrypt_frame, encrypt_frame};
use zkenc::r1cs::{emit_r1cs, parse_r1cs, Constraint, LinearCombination, R1csFile};
use zkenc::rng::FrRng;
use zkenc::sigma::{parse_ciphertext, serialize_ciphertext};
use zkenc::field::fe_from_u64;
use zkenc::witness::{emit_wtns, parse_wtns, WitnessFile};
use zkenc::wkem::{decap, encap};

fn coeff(v: u8) -> Vec<u8> {
    let mut b = vec![0u8; 32];
    b[0] = v;
    b
}

/// The container of the quadratic circuit `z₂·z₂ = z₁`.
fn quadratic_r1cs() -> R1csFile {
    R1csFile {
        field_size: 32,
        prime: coeff(7),
        n_wires: 3,
        n_pub_out: 0,
        n_pub_in: 1,
        n_prv_in: 1,
        n_labels: 3,
        n_constraints: 1,
        constraints: vec![Constraint {
            a: LinearCombination { factors: vec![(2, coeff(1))] },
            b: LinearCombination { factors: vec![(2, coeff(1))] },
            c: LinearCombination { factors: vec![(1, coeff(1))] },
        }],
        wire2label: vec![0, 1, 2],
    }
}

/// The container of the identity circuit `1·z₁ = z₁`, whose wires are all
/// public; the receiver then derives exactly the sender's key, which the
/// frame decryption needs.
fn identity_r1cs() -> R1csFile {
    R1csFile {
        field_size: 32,
        prime: coeff(7),
        n_wires: 2,
        n_pub_out: 0,
        n_pub_in: 1,
        n_prv_in: 0,
        n_labels: 2,
        n_constraints: 1,
        constraints: vec![Constraint {
            a: LinearCombination { factors: vec![(0, coeff(1))] },
            b: LinearCombination { factors: vec![(1, coeff(1))] },
            c: LinearCombination { factors: vec![(1, coeff(1))] },
        }],
        wire2label: vec![0, 1],
    }
}

#[test]
fn end_to_end_over_the_wire() {
    // Sender side: parse the container, assign the public input, build the
    // system, encapsulate, and frame an encrypted message around σ.
    let r1cs_bytes = emit_r1cs(&identity_r1cs());
    let parsed = parse_r1cs(&r1cs_bytes).unwrap();
    let mut circuit = CircomCircuit::from_r1cs(parsed).unwrap();
    circuit.set_wire(1, fe_from_u64(25)).unwrap();
    let cs = circuit.generate_constraints().unwrap();
    let mut rng = FrRng::from_seed_bytes(&vec![42u8; 32]);
    let (ct, key) = encap(&cs, &mut rng).unwrap();
    let sigma = serialize_ciphertext(&ct);

    let msg = b"Hello, witness encryption!".to_vec();
    let blob = b"{\"a\":25}".to_vec();
    let key_bytes = key.as_bytes().to_vec();
    let frame = encrypt_frame(&key_bytes, &sigma, &msg, Some(&blob)).unwrap();

    // Receiver side: split the frame, reparse σ, build the circuit from a
    // witness container, decapsulate and decrypt.
    let (sigma_back, blob_back, _aead) = zkenc::frame::parse_frame(&frame).unwrap();
    assert_eq!(sigma_back, sigma);
    assert_eq!(blob_back.unwrap(), blob);
    let ct_back = parse_ciphertext(&sigma_back).unwrap();

    let wtns_bytes = emit_wtns(&WitnessFile {
        prime: coeff(7),
        n_witness: 2,
        assignments: vec![coeff(1), coeff(25)],
    });
    let witness_file = parse_wtns(&wtns_bytes).unwrap();
    assert_eq!(witness_file.n_wires(), 2);
    let values = witness_file.to_field_elements();

    let parsed2 = parse_r1cs(&r1cs_bytes).unwrap();
    let mut circuit2 = CircomCircuit::from_r1cs(parsed2).unwrap();
    circuit2.set_witness(values.into_iter().map(Some).collect()).unwrap();
    let cs2 = circuit2.generate_constraints().unwrap();
    let key2 = decap(&cs2, &ct_back).unwrap();

    let key2_bytes = key2.as_bytes().to_vec();
    let (plain, blob2) = decrypt_frame(&key2_bytes, &frame).unwrap();
    assert_eq!(plain, msg);
    assert_eq!(blob2.unwrap(), blob);
}

#[test]
fn circuit_counts_and_bad_wires() {
    let parsed = parse_r1cs(&emit_r1cs(&quadratic_r1cs())).unwrap();
    let circuit = CircomCircuit::from_r1cs(parsed).unwrap();
    assert_eq!(circuit.n_public_inputs(), 1);
    assert_eq!(circuit.n_constraints(), 1);

    // A factor naming a wire beyond the wire count is a synthesis error.
    let mut bad = quadratic_r1cs();
    bad.constraints[0].a.factors[0].0 = 9;
    let circuit = CircomCircuit::from_r1cs(bad).unwrap();
    assert_eq!(
        circuit.generate_constraints().err(),
        Some(Error::SynthesisError)
    );
}

#[test]
fn set_wire_bounds() {
    let parsed = parse_r1cs(&emit_r1cs(&quadratic_r1cs())).unwrap();
    let mut circuit = CircomCircuit::from_r1cs(parsed).unwrap();
    assert_eq!(circuit.set_wire(0, fe_from_u64(1)).err(), Some(Error::SynthesisError));
    assert_eq!(circuit.set_wire(7, fe_from_u64(1)).err(), Some(Error::SynthesisError));
    assert!(circuit.set_wire(2, fe_from_u64(5)).is_ok());
}
