//! Plain exchange structures for circuits and witnesses.
//!
//! These mirror the parsed containers field for field, so that callers can
//! hand circuits and witnesses to other tools.  The serialisation itself
//! (JSON or a compact binary form) is the caller's concern; these types
//! only carry the data.

use crate::r1cs::R1csFile;
use vstd::prelude::*;

verus! {

/// One factor: a wire id and the coefficient's little-endian bytes.
pub struct SerializableFactor {
    pub wire_id: u32,
    pub coefficient_bytes: Vec<u8>,
}

/// A linear combination.
pub struct SerializableLC {
    pub factors: Vec<SerializableFactor>,
}

/// One constraint `a · b = c`.
pub struct SerializableConstraint {
    pub a: SerializableLC,
    pub b: SerializableLC,
    pub c: SerializableLC,
}

/// A full circuit in exchange form.
pub struct SerializableCircuit {
    pub field_size: u32,
    pub prime_bytes: Vec<u8>,
    pub n_wires: u32,
    pub n_pub_out: u32,
    pub n_pub_in: u32,
    pub n_prv_in: u32,
    pub n_constraints: u32,
    pub constraints: Vec<SerializableConstraint>,
    pub wire_labels: Option<Vec<(u32, String)>>,
}

/// A witness in exchange form: wire id to value bytes, in wire order.
pub struct SerializableWitness {
    pub assignments: Vec<(u32, Vec<u8>)>,
}

/// A circuit and witness pair, with a name.
pub struct SerializableTestCase {
    pub circuit: SerializableCircuit,
    pub witness: SerializableWitness,
    pub name: String,
    pub description: Option<String>,
}

/// Copies one parsed linear combination into exchange form.
fn lc_to_serializable(lc: &crate::r1cs::LinearCombination) -> (r: SerializableLC)
    ensures
        r.factors@.len() == lc@.factors.len(),
        forall|t: int|
            0 <= t < r.factors@.len() ==> (#[trigger] r.factors@[t]).wire_id
                == lc@.factors[t].wire && r.factors@[t].coefficient_bytes@
                == lc@.factors[t].coeff,
{
    let n = lc.factors.len();
    let mut factors: Vec<SerializableFactor> = Vec::new();
    let mut t: usize = 0;
    while t < n
        invariant
            n == lc.factors@.len(),
            t <= n,
            factors@.len() == t as nat,
            forall|u: int|
                0 <= u < t as int ==> (#[trigger] factors@[u]).wire_id == lc@.factors[u].wire
                    && factors@[u].coefficient_bytes@ == lc@.factors[u].coeff,
        decreases n - t,
    {
        let wire_id = lc.factors[t].0;
        let coefficient_bytes = crate::bytesutil::take_bytes(
            &lc.factors[t].1,
            0,
            lc.factors[t].1.len(),
        );
        factors.push(SerializableFactor { wire_id, coefficient_bytes });
        t = t + 1;
    }
    SerializableLC { factors }
}

impl R1csFile {
    /// The parsed container in exchange form: the same header fields and,
    /// constraint for constraint and factor for factor, the same wire ids
    /// and coefficient bytes.  Wire labels are not carried over.
    pub fn to_serializable(&self) -> (r: SerializableCircuit)
        ensures
            r.field_size == self.field_size,
            r.prime_bytes@ == self.prime@,
            r.n_wires == self.n_wires,
            r.n_pub_out == self.n_pub_out,
            r.n_pub_in == self.n_pub_in,
            r.n_prv_in == self.n_prv_in,
            r.n_constraints == self.n_constraints,
            r.constraints@.len() == self.constraints@.len(),
            r.wire_labels is None,
            forall|j: int|
                0 <= j < r.constraints@.len() ==> {
                    let rc = #[trigger] r.constraints@[j];
                    let oc = self@.constraints[j];
                    &&& rc.a.factors@.len() == oc.a.factors.len()
                    &&& rc.b.factors@.len() == oc.b.factors.len()
                    &&& rc.c.factors@.len() == oc.c.factors.len()
                    &&& (forall|t: int|
                        0 <= t < rc.a.factors@.len() ==> (#[trigger] rc.a.factors@[t]).wire_id
                            == oc.a.factors[t].wire && rc.a.factors@[t].coefficient_bytes@
                            == oc.a.factors[t].coeff)
                    &&& (forall|t: int|
                        0 <= t < rc.b.factors@.len() ==> (#[trigger] rc.b.factors@[t]).wire_id
                            == oc.b.factors[t].wire && rc.b.factors@[t].coefficient_bytes@
                            == oc.b.factors[t].coeff)
                    &&& (forall|t: int|
                        0 <= t < rc.c.factors@.len() ==> (#[trigger] rc.c.factors@[t]).wire_id
                            == oc.c.factors[t].wire && rc.c.factors@[t].coefficient_bytes@
                            == oc.c.factors[t].coeff)
                },
    {
        let n = self.constraints.len();
        let mut constraints: Vec<SerializableConstraint> = Vec::new();
        let mut j: usize = 0;
        while j < n
            invariant
                n == self.constraints@.len(),
                j <= n,
                constraints@.len() == j as nat,
                forall|u: int|
                    0 <= u < j as int ==> {
                        let rc = #[trigger] constraints@[u];
                        let oc = self@.constraints[u];
                        &&& rc.a.factors@.len() == oc.a.factors.len()
                        &&& rc.b.factors@.len() == oc.b.factors.len()
                        &&& rc.c.factors@.len() == oc.c.factors.len()
                        &&& (forall|t: int|
                            0 <= t < rc.a.factors@.len() ==> (
                            #[trigger] rc.a.factors@[t]).wire_id == oc.a.factors[t].wire
                                && rc.a.factors@[t].coefficient_bytes@ == oc.a.factors[t].coeff)
                        &&& (forall|t: int|
                            0 <= t < rc.b.factors@.len() ==> (
                            #[trigger] rc.b.factors@[t]).wire_id == oc.b.factors[t].wire
                                && rc.b.factors@[t].coefficient_bytes@ == oc.b.factors[t].coeff)
                        &&& (forall|t: int|
                            0 <= t < rc.c.factors@.len() ==> (
                            #[trigger] rc.c.factors@[t]).wire_id == oc.c.factors[t].wire
                                && rc.c.factors@[t].coefficient_bytes@ == oc.c.factors[t].coeff)
                    },
            decreases n - j,
        {
            let row = &self.constraints[j];
            let a = lc_to_serializable(&row.a);
            let b = lc_to_serializable(&row.b);
            let c = lc_to_serializable(&row.c);
            constraints.push(SerializableConstraint { a, b, c });
            j = j + 1;
        }
        SerializableCircuit {
            field_size: self.field_size,
            prime_bytes: crate::bytesutil::take_bytes(&self.prime, 0, self.prime.len()),
            n_wires: self.n_wires,
            n_pub_out: self.n_pub_out,
            n_pub_in: self.n_pub_in,
            n_prv_in: self.n_prv_in,
            n_constraints: self.n_constraints,
            constraints,
            wire_labels: None,
        }
    }
}

} // verus!
