//! The R1CS-backed circuit.
//!
//! A parsed `r1cs` container plus a (possibly partial) wire assignment,
//! turned into a constraint system: wire 0 is the constant one, wires
//! `1..=ℓ` are the instance, the rest are witness wires, and every factor's
//! coefficient bytes are reduced into the scalar field.

use crate::cs::{ConstraintSystem, Var};
use crate::errors::Error;
use crate::field::{fe_one, fe_reduce, le_val, fr_order, Fe};
use crate::r1cs::R1csFile;
use vstd::prelude::*;

verus! {

/// The wire of a global index: instance wires first, witness wires after.
pub open spec fn wire_var(w: u32, n_inst: nat) -> Var {
    if (w as nat) < n_inst {
        Var::Instance(w)
    } else {
        Var::Witness((w - n_inst) as u32)
    }
}

/// Whether every factor of a constraint names a wire below the wire count.
pub open spec fn row_wires_ok(cv: crate::r1cs::ConstraintView, n_wires: u32) -> bool {
    &&& (forall|t: int|
        0 <= t < cv.a.factors.len() ==> (#[trigger] cv.a.factors[t]).wire < n_wires)
    &&& (forall|t: int|
        0 <= t < cv.b.factors.len() ==> (#[trigger] cv.b.factors[t]).wire < n_wires)
    &&& (forall|t: int|
        0 <= t < cv.c.factors.len() ==> (#[trigger] cv.c.factors[t]).wire < n_wires)
}

/// A parsed circuit with its wire assignment, indexed by global wire id.
pub struct CircomCircuit {
    pub r1cs: R1csFile,
    pub witness: Vec<Option<Fe>>,
}

impl CircomCircuit {
    /// Well-formedness: the container is well formed, the assignment vector
    /// has one slot per wire, assigned values are canonical, and the wire
    /// partition fits.
    pub open spec fn wf(&self) -> bool {
        &&& self.r1cs.wf()
        &&& self.witness@.len() == self.r1cs.n_wires as nat
        &&& forall|i: int|
            0 <= i < self.witness@.len() ==> ((#[trigger] self.witness@[i]) matches Some(fe)
                ==> fe.wf())
        &&& self.witness@[0] matches Some(one) && one.val() == 1
        &&& self.r1cs.n_wires >= 1
        &&& self.r1cs.n_pub_out + self.r1cs.n_pub_in + 1 <= self.r1cs.n_wires
    }

    /// The number of instance wires, the constant included.
    pub open spec fn n_inst(&self) -> nat {
        self.r1cs.n_pub_out as nat + self.r1cs.n_pub_in as nat + 1
    }

    /// Wraps a parsed container with an empty assignment; the constant wire
    /// is preassigned.  Fails with `SynthesisError` exactly when the
    /// declared wire partition does not fit the wire count.
    pub fn from_r1cs(r1cs: R1csFile) -> (r: Result<CircomCircuit, Error>)
        requires
            r1cs.wf(),
        ensures
            r matches Ok(c) ==> {
                &&& c.wf()
                &&& c.r1cs == r1cs
                &&& c.witness@.len() == r1cs.n_wires as nat
                &&& c.witness@[0] matches Some(one) && one.val() == 1
                &&& forall|i: int| 1 <= i < c.witness@.len() ==> (#[trigger] c.witness@[i]) is None
            },
            r is Err <==> (r1cs.n_wires == 0 || r1cs.n_pub_out + r1cs.n_pub_in + 1
                > r1cs.n_wires),
            r is Err ==> r == Err::<CircomCircuit, Error>(Error::SynthesisError),
    {
        if r1cs.n_wires == 0 {
            return Err(Error::SynthesisError);
        }
        let l = match r1cs.n_pub_out.checked_add(r1cs.n_pub_in) {
            Some(v) => v,
            None => {
                return Err(Error::SynthesisError);
            },
        };
        if l > r1cs.n_wires - 1 {
            return Err(Error::SynthesisError);
        }
        let n = r1cs.n_wires;
        let mut witness: Vec<Option<Fe>> = Vec::new();
        witness.push(Some(fe_one()));
        let mut i: u32 = 1;
        while i < n
            invariant
                1 <= i <= n,
                witness@.len() == i as nat,
                witness@[0] matches Some(one) && one.wf() && one.val() == 1,
                forall|t: int| 1 <= t < i as int ==> (#[trigger] witness@[t]) is None,
            decreases n - i,
        {
            witness.push(None);
            i = i + 1;
        }
        Ok(CircomCircuit { r1cs, witness })
    }

    /// Replaces the whole assignment; slot 0 must carry the constant one.
    pub fn set_witness(&mut self, values: Vec<Option<Fe>>) -> (r: Result<(), Error>)
        requires
            old(self).wf(),
            values@.len() == old(self).r1cs.n_wires as nat,
            forall|i: int|
                0 <= i < values@.len() ==> ((#[trigger] values@[i]) matches Some(fe) ==> fe.wf()),
            values@[0] matches Some(one) && one.val() == 1,
        ensures
            r is Ok,
            final(self).wf(),
            final(self).r1cs == old(self).r1cs,
            final(self).witness@ == values@,
    {
        self.witness = values;
        Ok(())
    }

    /// Assigns one wire.  Fails with `SynthesisError` exactly when the wire
    /// does not exist.
    pub fn set_wire(&mut self, wire_id: u32, value: Fe) -> (r: Result<(), Error>)
        requires
            old(self).wf(),
            value.wf(),
        ensures
            final(self).wf(),
            final(self).r1cs == old(self).r1cs,
            r is Ok <==> (1 <= wire_id && (wire_id as nat) < old(self).witness@.len()),
            r is Ok ==> final(self).witness@ == old(self).witness@.update(
                wire_id as int,
                Some(value),
            ),
            r is Err ==> final(self).witness@ == old(self).witness@ && r == Err::<(), Error>(
                Error::SynthesisError,
            ),
    {
        if wire_id == 0 || (wire_id as usize) >= self.witness.len() {
            return Err(Error::SynthesisError);
        }
        self.witness.set(wire_id as usize, Some(value));
        proof {
            assert(final(self).witness@[0] == old(self).witness@[0]);
        }
        Ok(())
    }

    /// The number of public wires: outputs plus inputs.
    pub fn n_public_inputs(&self) -> (r: u32)
        requires
            self.wf(),
        ensures
            r as nat == self.n_inst() - 1,
    {
        self.r1cs.n_pub_out + self.r1cs.n_pub_in
    }

    /// The number of constraints.
    pub fn n_constraints(&self) -> (r: u32)
        ensures
            r == self.r1cs.n_constraints,
    {
        self.r1cs.n_constraints
    }

    /// Builds the constraint system: allocates the instance and witness
    /// wires with their assigned values and registers every constraint row
    /// with its coefficients reduced into the field.  Fails with
    /// `SynthesisError` exactly when some factor names a wire at or beyond
    /// the wire count.
    pub fn generate_constraints(&self) -> (r: Result<ConstraintSystem, Error>)
        requires
            self.wf(),
        ensures
            r matches Ok(cs) ==> {
                &&& cs.wf()
                &&& cs.n_inst() == self.n_inst()
                &&& cs.n_wit() == self.r1cs.n_wires as nat - self.n_inst()
                &&& cs.rows@.len() == self.r1cs.n_constraints as nat
                &&& forall|i: int|
                    0 <= i < cs.m() ==> ((#[trigger] cs.z()[i]) == match self.witness@[i] {
                        Some(fe) => fe.val(),
                        None => 0,
                    })
                &&& forall|i: int|
                    0 <= i < self.witness@.len() ==> {
                        let o = if i < self.n_inst() {
                            #[trigger] cs.instance@[i]
                        } else {
                            cs.witness@[i - self.n_inst()]
                        };
                        o is Some <==> self.witness@[i] is Some
                    }
                &&& forall|j: int|
                    0 <= j < cs.rows@.len() ==> {
                        let row = #[trigger] cs.rows@[j];
                        let cv = self.r1cs@.constraints[j];
                        &&& row.a@.len() == cv.a.factors.len()
                        &&& row.b@.len() == cv.b.factors.len()
                        &&& row.c@.len() == cv.c.factors.len()
                        &&& (forall|t: int|
                            0 <= t < row.a@.len() ==> (#[trigger] row.a@[t]).0 == wire_var(
                                cv.a.factors[t].wire,
                                self.n_inst(),
                            ) && row.a@[t].1.val() == le_val(cv.a.factors[t].coeff)
                                % fr_order())
                        &&& (forall|t: int|
                            0 <= t < row.b@.len() ==> (#[trigger] row.b@[t]).0 == wire_var(
                                cv.b.factors[t].wire,
                                self.n_inst(),
                            ) && row.b@[t].1.val() == le_val(cv.b.factors[t].coeff)
                                % fr_order())
                        &&& (forall|t: int|
                            0 <= t < row.c@.len() ==> (#[trigger] row.c@[t]).0 == wire_var(
                                cv.c.factors[t].wire,
                                self.n_inst(),
                            ) && row.c@[t].1.val() == le_val(cv.c.factors[t].coeff)
                                % fr_order())
                    }
            },
            r is Ok <==> (forall|j: int|
                0 <= j < self.r1cs.constraints@.len() ==> row_wires_ok(
                    #[trigger] self.r1cs@.constraints[j],
                    self.r1cs.n_wires,
                )),
            r is Err ==> r == Err::<ConstraintSystem, Error>(Error::SynthesisError),
    {
        let n_wires = self.r1cs.n_wires;
        let l1: u32 = self.r1cs.n_pub_out + self.r1cs.n_pub_in + 1;
        let mut cs = ConstraintSystem::new();

        // Instance wires 1..=ℓ.
        let mut w: u32 = 1;
        while w < l1
            invariant
                self.wf(),
                l1 as nat == self.n_inst(),
                l1 <= n_wires,
                n_wires == self.r1cs.n_wires,
                1 <= w <= l1,
                cs.wf(),
                cs.n_inst() == w as nat,
                cs.n_wit() == 0,
                cs.rows@.len() == 0,
                forall|i: int|
                    0 <= i < w as int ==> ((#[trigger] cs.instance@[i]) is Some
                        <==> self.witness@[i] is Some),
                forall|i: int|
                    0 <= i < w as int ==> ((#[trigger] cs.z()[i]) == match self.witness@[i] {
                        Some(fe) => fe.val(),
                        None => 0,
                    }),
            decreases l1 - w,
        {
            let value = dup_opt(&self.witness[w as usize]);
            let ghost pre_cs = cs;
            let res = cs.new_instance(value);
            proof {
                assert(res is Ok);
            }
            match res {
                Ok(v) => {},
                Err(e) => {
                    proof {
                        assert(false);
                    }
                    return Err(e);
                },
            }
            proof {
                assert forall|i: int| 0 <= i < w as int + 1 implies ((#[trigger] cs.z()[i])
                    == match self.witness@[i] {
                    Some(fe) => fe.val(),
                    None => 0,
                }) by {
                    if i < w as int {
                        assert(cs.instance@[i] == pre_cs.instance@[i]);
                        assert(pre_cs.z()[i] == match self.witness@[i] {
                            Some(fe) => fe.val(),
                            None => 0,
                        });
                        assert(cs.z()[i] == pre_cs.z()[i]);
                    } else {
                        assert(cs.instance@[i] == value);
                    }
                }
            }
            w = w + 1;
        }

        // Witness wires ℓ+1..n_wires.
        let mut w2: u32 = l1;
        while w2 < n_wires
            invariant
                self.wf(),
                l1 as nat == self.n_inst(),
                l1 <= n_wires,
                n_wires == self.r1cs.n_wires,
                l1 <= w2 <= n_wires,
                cs.wf(),
                cs.n_inst() == l1 as nat,
                cs.n_wit() == w2 as nat - l1 as nat,
                cs.rows@.len() == 0,
                forall|i: int|
                    0 <= i < l1 as int ==> ((#[trigger] cs.instance@[i]) is Some
                        <==> self.witness@[i] is Some),
                forall|i: int|
                    l1 as int <= i < w2 as int ==> ((#[trigger] cs.witness@[i - l1 as int])
                        is Some <==> self.witness@[i] is Some),
                forall|i: int|
                    0 <= i < w2 as int ==> ((#[trigger] cs.z()[i]) == match self.witness@[i] {
                        Some(fe) => fe.val(),
                        None => 0,
                    }),
            decreases n_wires - w2,
        {
            let value = dup_opt(&self.witness[w2 as usize]);
            let ghost pre_cs = cs;
            let res = cs.new_witness(value);
            proof {
                assert(res is Ok);
            }
            match res {
                Ok(v) => {},
                Err(e) => {
                    proof {
                        assert(false);
                    }
                    return Err(e);
                },
            }
            proof {
                assert forall|i: int| 0 <= i < w2 as int + 1 implies ((#[trigger] cs.z()[i])
                    == match self.witness@[i] {
                    Some(fe) => fe.val(),
                    None => 0,
                }) by {
                    if i < w2 as int {
                        if i < l1 as int {
                            assert(cs.instance@[i] == pre_cs.instance@[i]);
                        } else {
                            assert(cs.witness@[i - l1 as int] == pre_cs.witness@[i - l1 as int]);
                        }
                        assert(pre_cs.z()[i] == match self.witness@[i] {
                            Some(fe) => fe.val(),
                            None => 0,
                        });
                        assert(cs.z()[i] == pre_cs.z()[i]);
                    } else {
                        assert(cs.witness@[i - l1 as int] == value);
                    }
                }
            }
            w2 = w2 + 1;
        }

        // Constraint rows.
        let n_rows = self.r1cs.constraints.len();
        let mut j: usize = 0;
        while j < n_rows
            invariant
                self.wf(),
                l1 as nat == self.n_inst(),
                l1 <= n_wires,
                n_wires == self.r1cs.n_wires,
                n_rows == self.r1cs.constraints@.len(),
                j <= n_rows,
                cs.wf(),
                cs.n_inst() == l1 as nat,
                cs.n_wit() == n_wires as nat - l1 as nat,
                cs.rows@.len() == j as nat,
                forall|t: int|
                    0 <= t < j as int ==> row_wires_ok(
                        #[trigger] self.r1cs@.constraints[t],
                        self.r1cs.n_wires,
                    ),
                forall|i: int|
                    0 <= i < l1 as int ==> ((#[trigger] cs.instance@[i]) is Some
                        <==> self.witness@[i] is Some),
                forall|i: int|
                    l1 as int <= i < n_wires as int ==> ((#[trigger] cs.witness@[i - l1 as int])
                        is Some <==> self.witness@[i] is Some),
                forall|i: int|
                    0 <= i < n_wires as int ==> ((#[trigger] cs.z()[i])
                        == match self.witness@[i] {
                        Some(fe) => fe.val(),
                        None => 0,
                    }),
                forall|t: int|
                    0 <= t < j as int ==> {
                        let row = #[trigger] cs.rows@[t];
                        let cv = self.r1cs@.constraints[t];
                        &&& row.a@.len() == cv.a.factors.len()
                        &&& row.b@.len() == cv.b.factors.len()
                        &&& row.c@.len() == cv.c.factors.len()
                        &&& (forall|u: int|
                            0 <= u < row.a@.len() ==> (#[trigger] row.a@[u]).0 == wire_var(
                                cv.a.factors[u].wire,
                                self.n_inst(),
                            ) && row.a@[u].1.val() == le_val(cv.a.factors[u].coeff)
                                % fr_order())
                        &&& (forall|u: int|
                            0 <= u < row.b@.len() ==> (#[trigger] row.b@[u]).0 == wire_var(
                                cv.b.factors[u].wire,
                                self.n_inst(),
                            ) && row.b@[u].1.val() == le_val(cv.b.factors[u].coeff)
                                % fr_order())
                        &&& (forall|u: int|
                            0 <= u < row.c@.len() ==> (#[trigger] row.c@[u]).0 == wire_var(
                                cv.c.factors[u].wire,
                                self.n_inst(),
                            ) && row.c@[u].1.val() == le_val(cv.c.factors[u].coeff)
                                % fr_order())
                    },
            decreases n_rows - j,
        {
            let row = &self.r1cs.constraints[j];
            let ghost cv = self.r1cs@.constraints[j as int];
            proof {
                assert(forall|t: int|
                    0 <= t < row.a.factors@.len() ==> (#[trigger] row.a.factors@[t]).0
                        == cv.a.factors[t].wire);
                assert(forall|t: int|
                    0 <= t < row.b.factors@.len() ==> (#[trigger] row.b.factors@[t]).0
                        == cv.b.factors[t].wire);
                assert(forall|t: int|
                    0 <= t < row.c.factors@.len() ==> (#[trigger] row.c.factors@[t]).0
                        == cv.c.factors[t].wire);
            }
            let a = match build_terms(&row.a.factors, l1, n_wires) {
                Ok(v) => v,
                Err(e) => {
                    proof {
                        assert(!row_wires_ok(cv, self.r1cs.n_wires));
                    }
                    return Err(e);
                },
            };
            let b = match build_terms(&row.b.factors, l1, n_wires) {
                Ok(v) => v,
                Err(e) => {
                    proof {
                        assert(!row_wires_ok(cv, self.r1cs.n_wires));
                    }
                    return Err(e);
                },
            };
            let c = match build_terms(&row.c.factors, l1, n_wires) {
                Ok(v) => v,
                Err(e) => {
                    proof {
                        assert(!row_wires_ok(cv, self.r1cs.n_wires));
                    }
                    return Err(e);
                },
            };
            proof {
                assert(row_wires_ok(cv, self.r1cs.n_wires));
            }
            let ghost pre_cs = cs;
            let res = cs.enforce(a, b, c);
            proof {
                assert(res is Ok);
            }
            match res {
                Ok(u) => {},
                Err(e) => {
                    proof {
                        assert(false);
                    }
                    return Err(e);
                },
            }
            proof {
                assert forall|t: int| 0 <= t < j as int implies cs.rows@[t] == cs.rows@.subrange(
                    0,
                    j as int,
                )[t] by {}
                assert forall|i: int| 0 <= i < n_wires as int implies ((#[trigger] cs.z()[i])
                    == match self.witness@[i] {
                    Some(fe) => fe.val(),
                    None => 0,
                }) by {
                    assert(pre_cs.z()[i] == match self.witness@[i] {
                        Some(fe) => fe.val(),
                        None => 0,
                    });
                    assert(cs.z()[i] == pre_cs.z()[i]);
                }
            }
            j = j + 1;
        }
        Ok(cs)
    }
}

/// A fresh copy of an optional element.
fn dup_opt(o: &Option<Fe>) -> (r: Option<Fe>)
    ensures
        r is Some <==> o is Some,
        r matches Some(fe) ==> o matches Some(fe2) && fe.b@ == fe2.b@,
{
    match o {
        Some(fe) => Some(fe.dup()),
        None => None,
    }
}

/// Turns the factors of one linear combination into constraint-system
/// terms, rejecting wires at or beyond the wire count.
fn build_terms(factors: &Vec<(u32, Vec<u8>)>, n_inst: u32, n_wires: u32) -> (r: Result<
    Vec<(Var, Fe)>,
    Error,
>)
    requires
        n_inst >= 1,
        n_inst <= n_wires,
    ensures
        r matches Ok(terms) ==> {
            &&& terms@.len() == factors@.len()
            &&& forall|t: int|
                0 <= t < terms@.len() ==> {
                    &&& (#[trigger] terms@[t]).0 == wire_var(factors@[t].0, n_inst as nat)
                    &&& terms@[t].1.wf()
                    &&& terms@[t].1.val() == le_val(factors@[t].1@) % fr_order()
                    &&& crate::cs::var_ok(terms@[t].0, n_inst as nat, (n_wires - n_inst) as nat)
                }
        },
        r is Ok <==> (forall|t: int| 0 <= t < factors@.len() ==> (#[trigger] factors@[t]).0
            < n_wires),
        r is Err ==> r == Err::<Vec<(Var, Fe)>, Error>(Error::SynthesisError),
{
    let n = factors.len();
    let mut out: Vec<(Var, Fe)> = Vec::new();
    let mut t: usize = 0;
    while t < n
        invariant
            n_inst >= 1,
            n_inst <= n_wires,
            n == factors@.len(),
            t <= n,
            out@.len() == t as nat,
            forall|u: int| 0 <= u < t as int ==> (#[trigger] factors@[u]).0 < n_wires,
            forall|u: int|
                0 <= u < t as int ==> {
                    &&& (#[trigger] out@[u]).0 == wire_var(factors@[u].0, n_inst as nat)
                    &&& out@[u].1.wf()
                    &&& out@[u].1.val() == le_val(factors@[u].1@) % fr_order()
                    &&& crate::cs::var_ok(out@[u].0, n_inst as nat, (n_wires - n_inst) as nat)
                },
        decreases n - t,
    {
        let wire = factors[t].0;
        if wire >= n_wires {
            return Err(Error::SynthesisError);
        }
        let var = if wire < n_inst {
            Var::Instance(wire)
        } else {
            Var::Witness(wire - n_inst)
        };
        let coeff = fe_reduce(&factors[t].1);
        out.push((var, coeff));
        t = t + 1;
    }
    Ok(out)
}

} // verus!
