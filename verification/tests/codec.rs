// Codec round trips: the r1cs container, the wtns container and the
// ciphertext wire format each emit and parse back to the same value, and
// malformed containers are refused with the right error.

use zkenc::errors::Error;
use zkenc::r1cs::{emit_r1cs, parse_r1cs, Constraint, LinearCombination, R1csFile};
use zkenc::witness::{emit_wtns, parse_wtns, WitnessFile};

fn coeff(v: u8) -> Vec<u8> {
    let mut b = vec![0u8; 32];
    b[0] = v;
    b
}

fn sample_r1cs() -> R1csFile {
    // One constraint over three wires: z2 * z2 = z1.
    let a = LinearCombination { factors: vec![(2, coeff(1))] };
    let b = LinearCombination { factors: vec![(2, coeff(1))] };
    let c = LinearCombination { factors: vec![(1, coeff(1))] };
    R1csFile {
        field_size: 32,
        prime: coeff(7),
        n_wires: 3,
        n_pub_out: 0,
        n_pub_in: 1,
        n_prv_in: 1,
        n_labels: 3,
        n_constraints: 1,
        constraints: vec![Constraint { a, b, c }],
        wire2label: vec![0, 1, 2],
    }
}

#[test]
fn r1cs_emit_parse_round_trip() {
    let f = sample_r1cs();
    let bytes = emit_r1cs(&f);
    let g = parse_r1cs(&bytes).unwrap();
    assert_eq!(g.field_size, f.field_size);
    assert_eq!(g.prime, f.prime);
    assert_eq!(g.n_wires, f.n_wires);
    assert_eq!(g.n_pub_out, f.n_pub_out);
    assert_eq!(g.n_pub_in, f.n_pub_in);
    assert_eq!(g.n_prv_in, f.n_prv_in);
    assert_eq!(g.n_labels, f.n_labels);
    assert_eq!(g.n_constraints, f.n_constraints);
    assert_eq!(g.constraints.len(), 1);
    assert_eq!(g.constraints[0].a.factors, f.constraints[0].a.factors);
    assert_eq!(g.constraints[0].b.factors, f.constraints[0].b.factors);
    assert_eq!(g.constraints[0].c.factors, f.constraints[0].c.factors);
    assert_eq!(g.wire2label, f.wire2label);
    // Re-emission is byte-identical.
    let bytes2 = emit_r1cs(&g);
    assert_eq!(bytes, bytes2);
}

#[test]
fn r1cs_bad_magic_and_version() {
    let f = sample_r1cs();
    let mut bytes = emit_r1cs(&f);
    bytes[0] = b'x';
    assert_eq!(parse_r1cs(&bytes).err(), Some(Error::BadMagic));
    let mut bytes = emit_r1cs(&f);
    bytes[4] = 9;
    assert_eq!(parse_r1cs(&bytes).err(), Some(Error::BadVersion));
    assert_eq!(parse_r1cs(&vec![]).err(), Some(Error::BadMagic));
}

#[test]
fn r1cs_truncated_and_duplicate() {
    let f = sample_r1cs();
    let bytes = emit_r1cs(&f);
    let cut = bytes[..bytes.len() - 5].to_vec();
    assert_eq!(parse_r1cs(&cut).err(), Some(Error::TruncatedSection));

    // A container whose only section is the header twice.
    let mut dup = Vec::new();
    dup.extend_from_slice(b"r1cs");
    dup.extend_from_slice(&1u32.to_le_bytes());
    dup.extend_from_slice(&2u32.to_le_bytes());
    for _ in 0..2 {
        dup.extend_from_slice(&1u32.to_le_bytes());
        dup.extend_from_slice(&(33u64).to_le_bytes());
        dup.extend_from_slice(&1u32.to_le_bytes());
        dup.push(7);
        dup.extend_from_slice(&3u32.to_le_bytes());
        dup.extend_from_slice(&0u32.to_le_bytes());
        dup.extend_from_slice(&1u32.to_le_bytes());
        dup.extend_from_slice(&1u32.to_le_bytes());
        dup.extend_from_slice(&3u64.to_le_bytes());
        dup.extend_from_slice(&0u32.to_le_bytes());
    }
    assert_eq!(parse_r1cs(&dup).err(), Some(Error::DuplicateSection));
}

#[test]
fn r1cs_missing_section() {
    // Magic, version, one header section only: the constraints section is
    // absent.
    let mut bytes = Vec::new();
    bytes.extend_from_slice(b"r1cs");
    bytes.extend_from_slice(&1u32.to_le_bytes());
    bytes.extend_from_slice(&1u32.to_le_bytes());
    bytes.extend_from_slice(&1u32.to_le_bytes());
    bytes.extend_from_slice(&(33u64).to_le_bytes());
    bytes.extend_from_slice(&1u32.to_le_bytes());
    bytes.push(7);
    bytes.extend_from_slice(&3u32.to_le_bytes());
    bytes.extend_from_slice(&0u32.to_le_bytes());
    bytes.extend_from_slice(&1u32.to_le_bytes());
    bytes.extend_from_slice(&1u32.to_le_bytes());
    bytes.extend_from_slice(&3u64.to_le_bytes());
    bytes.extend_from_slice(&0u32.to_le_bytes());
    assert_eq!(parse_r1cs(&bytes).err(), Some(Error::SectionMissing));
}

fn sample_wtns() -> WitnessFile {
    WitnessFile {
        prime: coeff(7),
        n_witness: 3,
        assignments: vec![coeff(1), coeff(25), coeff(5)],
    }
}

#[test]
fn wtns_emit_parse_round_trip() {
    let w = sample_wtns();
    let bytes = emit_wtns(&w);
    let g = parse_wtns(&bytes).unwrap();
    assert_eq!(g.prime, w.prime);
    assert_eq!(g.n_witness, 3);
    assert_eq!(g.assignments, w.assignments);
    let bytes2 = emit_wtns(&g);
    assert_eq!(bytes, bytes2);
    // The first value is the constant one.
    let fes = g.to_field_elements();
    assert!(zkenc::field::fe_eq(&fes[0], &zkenc::field::fe_one()));
    assert!(zkenc::field::fe_eq(&fes[1], &zkenc::field::fe_from_u64(25)));
}

#[test]
fn wtns_bad_magic_version_and_size() {
    let w = sample_wtns();
    let mut bytes = emit_wtns(&w);
    bytes[0] = b'x';
    assert_eq!(parse_wtns(&bytes).err(), Some(Error::BadMagic));
    let mut bytes = emit_wtns(&w);
    bytes[4] = 1;
    assert_eq!(parse_wtns(&bytes).err(), Some(Error::BadVersion));
    // Declare four witnesses but carry three: the data section length no
    // longer matches.
    let mut wrong = sample_wtns();
    wrong.n_witness = 4;
    // Emission writes the declared count; the data stays three cells.
    let mut bytes = Vec::new();
    bytes.extend_from_slice(b"wtns");
    bytes.extend_from_slice(&2u32.to_le_bytes());
    bytes.extend_from_slice(&2u32.to_le_bytes());
    bytes.extend_from_slice(&1u32.to_le_bytes());
    bytes.extend_from_slice(&40u64.to_le_bytes());
    bytes.extend_from_slice(&32u32.to_le_bytes());
    bytes.extend_from_slice(&coeff(7));
    bytes.extend_from_slice(&4u32.to_le_bytes());
    bytes.extend_from_slice(&2u32.to_le_bytes());
    bytes.extend_from_slice(&(96u64).to_le_bytes());
    bytes.extend_from_slice(&coeff(1));
    bytes.extend_from_slice(&coeff(25));
    bytes.extend_from_slice(&coeff(5));
    assert_eq!(parse_wtns(&bytes).err(), Some(Error::SizeMismatch));
}

#[test]
fn le_readers() {
    let data = vec![1u8, 0, 0, 0, 2, 0, 0, 0, 0, 0, 0, 0];
    assert_eq!(zkenc::bytesutil::read_u32_le(&data, 0), 1);
    assert_eq!(zkenc::bytesutil::read_u64_le(&data, 4), 2);
}

#[test]
fn serializable_carries_the_container() {
    let f = sample_r1cs();
    let s = f.to_serializable();
    assert_eq!(s.field_size, f.field_size);
    assert_eq!(s.prime_bytes, f.prime);
    assert_eq!(s.n_wires, f.n_wires);
    assert_eq!(s.n_constraints, f.n_constraints);
    assert_eq!(s.constraints.len(), 1);
    assert_eq!(s.constraints[0].a.factors.len(), 1);
    assert_eq!(s.constraints[0].a.factors[0].wire_id, 2);
    assert_eq!(s.constraints[0].a.factors[0].coefficient_bytes, coeff(1));
    assert!(s.wire_labels.is_none());
}
