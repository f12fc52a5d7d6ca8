//! The constraint-system builder.
//!
//! Wires are the constant one (instance index 0), instance wires and witness
//! wires; a linear combination is an explicit sparse vector of (wire,
//! coefficient) pairs, and a constraint is three such combinations `a`, `b`,
//! `c` read as `⟨a,z⟩·⟨b,z⟩ = ⟨c,z⟩`.  Assignments are optional so that the
//! sender can build a circuit from its public inputs alone.
//!
//! Satisfaction is defined over the integer values of the assignment, modulo
//! the field order.

use crate::errors::Error;
use crate::field::{fe_add, fe_eq, fe_mul, fe_one, fe_zero, fr_order, Fe};
use vstd::prelude::*;

verus! {

/// A wire: the constant one is `Instance(0)`.
#[derive(Clone, Copy, Debug, PartialEq, Eq, Structural)]
pub enum Var {
    /// An instance (public) wire; index 0 is the constant one.
    Instance(u32),
    /// A witness (private) wire.
    Witness(u32),
}

/// One constraint row: three sparse linear combinations.
pub struct CsRow {
    pub a: Vec<(Var, Fe)>,
    pub b: Vec<(Var, Fe)>,
    pub c: Vec<(Var, Fe)>,
}

/// The constraint system: assignments for both wire families and the rows.
pub struct ConstraintSystem {
    pub instance: Vec<Option<Fe>>,
    pub witness: Vec<Option<Fe>>,
    pub rows: Vec<CsRow>,
}

/// The global column of a wire: instance wires first, then witness wires.
pub open spec fn var_col(v: Var, n_inst: nat) -> int {
    match v {
        Var::Instance(i) => i as int,
        Var::Witness(j) => n_inst + j as int,
    }
}

/// Whether a wire has been allocated.
pub open spec fn var_ok(v: Var, n_inst: nat, n_wit: nat) -> bool {
    match v {
        Var::Instance(i) => (i as nat) < n_inst,
        Var::Witness(j) => (j as nat) < n_wit,
    }
}

/// The value of one term of a linear combination, modulo the field order.
pub open spec fn term_val(t: (Var, Fe), z: Seq<nat>, n_inst: nat) -> nat {
    (t.1.val() * z[var_col(t.0, n_inst)]) % fr_order()
}

/// The value of a linear combination over the assignment `z`, modulo the
/// field order, accumulated term by term.
pub open spec fn lc_val(terms: Seq<(Var, Fe)>, z: Seq<nat>, n_inst: nat) -> nat
    decreases terms.len(),
{
    if terms.len() == 0 {
        0
    } else {
        (lc_val(terms.drop_last(), z, n_inst) + term_val(terms.last(), z, n_inst)) % fr_order()
    }
}

/// A well-formed linear combination: allocated wires, canonical coefficients.
pub open spec fn lc_ok(terms: Seq<(Var, Fe)>, n_inst: nat, n_wit: nat) -> bool {
    forall|i: int|
        0 <= i < terms.len() ==> var_ok((#[trigger] terms[i]).0, n_inst, n_wit)
            && terms[i].1.wf()
}

/// One row holds under `z` when the product of its first two combinations
/// equals the third.
pub open spec fn row_holds(row: &CsRow, z: Seq<nat>, n_inst: nat) -> bool {
    (lc_val(row.a@, z, n_inst) * lc_val(row.b@, z, n_inst)) % fr_order() == lc_val(
        row.c@,
        z,
        n_inst,
    )
}

impl ConstraintSystem {
    /// The number of instance wires, the constant included.
    pub open spec fn n_inst(&self) -> nat {
        self.instance@.len()
    }

    /// The number of witness wires.
    pub open spec fn n_wit(&self) -> nat {
        self.witness@.len()
    }

    /// The total number of wires.
    pub open spec fn m(&self) -> nat {
        self.n_inst() + self.n_wit()
    }

    /// The value standing at global column `i`; unassigned wires read zero.
    pub open spec fn col_val(&self, i: int) -> nat {
        if i < self.n_inst() {
            match self.instance@[i] {
                Some(fe) => fe.val(),
                None => 0,
            }
        } else {
            match self.witness@[i - self.n_inst()] {
                Some(fe) => fe.val(),
                None => 0,
            }
        }
    }

    /// The full assignment as integer values.
    pub open spec fn z(&self) -> Seq<nat> {
        Seq::new(self.m(), |i: int| self.col_val(i))
    }

    /// Whether every wire has a value.
    pub open spec fn all_assigned(&self) -> bool {
        &&& forall|i: int| 0 <= i < self.instance@.len() ==> (#[trigger] self.instance@[i]) is Some
        &&& forall|i: int| 0 <= i < self.witness@.len() ==> (#[trigger] self.witness@[i]) is Some
    }

    /// Well-formedness: the constant one at column 0, canonical assigned
    /// values, rows over allocated wires, counts that fit their words.
    pub open spec fn wf(&self) -> bool {
        &&& self.instance@.len() >= 1
        &&& self.instance@.len() <= 0xffffffffnat
        &&& self.witness@.len() <= 0xffffffffnat
        &&& self.m() <= 0xffffffffnat
        &&& self.instance@[0] matches Some(one) && one.wf() && one.val() == 1
        &&& forall|i: int|
            0 <= i < self.instance@.len() ==> ((#[trigger] self.instance@[i]) matches Some(fe)
                ==> fe.wf())
        &&& forall|i: int|
            0 <= i < self.witness@.len() ==> ((#[trigger] self.witness@[i]) matches Some(fe)
                ==> fe.wf())
        &&& forall|j: int|
            0 <= j < self.rows@.len() ==> {
                &&& lc_ok((#[trigger] self.rows@[j]).a@, self.n_inst(), self.n_wit())
                &&& lc_ok(self.rows@[j].b@, self.n_inst(), self.n_wit())
                &&& lc_ok(self.rows@[j].c@, self.n_inst(), self.n_wit())
            }
    }

    /// Whether the full assignment satisfies every row.
    pub open spec fn satisfied(&self) -> bool {
        forall|j: int| 0 <= j < self.rows@.len() ==> row_holds(&(#[trigger] self.rows@[j]), self.z(), self.n_inst())
    }

    /// An empty system with the constant wire preallocated.
    pub fn new() -> (r: ConstraintSystem)
        ensures
            r.wf(),
            r.n_inst() == 1,
            r.n_wit() == 0,
            r.rows@.len() == 0,
            r.all_assigned(),
    {
        let one = fe_one();
        let mut instance: Vec<Option<Fe>> = Vec::new();
        instance.push(Some(one));
        ConstraintSystem { instance, witness: Vec::new(), rows: Vec::new() }
    }

    /// Appends a public wire, optionally assigned, and returns it.
    pub fn new_instance(&mut self, value: Option<Fe>) -> (r: Result<Var, Error>)
        requires
            old(self).wf(),
            value matches Some(fe) ==> fe.wf(),
        ensures
            old(self).n_inst() < 0xffffffffnat && old(self).m() < 0xffffffffnat ==> (r matches
                Ok(v) && v == Var::Instance(old(self).n_inst() as u32)),
            r matches Ok(v) ==> {
                &&& final(self).wf()
                &&& final(self).instance@ == old(self).instance@.push(value)
                &&& final(self).witness@ == old(self).witness@
                &&& final(self).rows@ == old(self).rows@
            },
            r is Err ==> *final(self) == *old(self) && r == Err::<Var, Error>(
                Error::SynthesisError,
            ),
    {
        if self.instance.len() >= 0xffffffffusize || self.instance.len() + self.witness.len()
            >= 0xffffffffusize {
            return Err(Error::SynthesisError);
        }
        let idx = self.instance.len() as u32;
        self.instance.push(value);
        proof {
            assert(final(self).instance@[0] == old(self).instance@[0]);
            assert forall|j: int| 0 <= j < final(self).rows@.len() implies {
                &&& lc_ok((#[trigger] final(self).rows@[j]).a@, final(self).n_inst(), final(self).n_wit())
                &&& lc_ok(final(self).rows@[j].b@, final(self).n_inst(), final(self).n_wit())
                &&& lc_ok(final(self).rows@[j].c@, final(self).n_inst(), final(self).n_wit())
            } by {
                assert(lc_ok(old(self).rows@[j].a@, old(self).n_inst(), old(self).n_wit()));
                assert(lc_ok(old(self).rows@[j].b@, old(self).n_inst(), old(self).n_wit()));
                assert(lc_ok(old(self).rows@[j].c@, old(self).n_inst(), old(self).n_wit()));
                lemma_lc_ok_grow(final(self).rows@[j].a@, old(self).n_inst(), old(self).n_wit(),
                    final(self).n_inst(), final(self).n_wit());
                lemma_lc_ok_grow(final(self).rows@[j].b@, old(self).n_inst(), old(self).n_wit(),
                    final(self).n_inst(), final(self).n_wit());
                lemma_lc_ok_grow(final(self).rows@[j].c@, old(self).n_inst(), old(self).n_wit(),
                    final(self).n_inst(), final(self).n_wit());
            }
        }
        Ok(Var::Instance(idx))
    }

    /// Appends a private wire, optionally assigned, and returns it.
    pub fn new_witness(&mut self, value: Option<Fe>) -> (r: Result<Var, Error>)
        requires
            old(self).wf(),
            value matches Some(fe) ==> fe.wf(),
        ensures
            old(self).n_wit() < 0xffffffffnat && old(self).m() < 0xffffffffnat ==> (r matches
                Ok(v) && v == Var::Witness(old(self).n_wit() as u32)),
            r matches Ok(v) ==> {
                &&& final(self).wf()
                &&& final(self).witness@ == old(self).witness@.push(value)
                &&& final(self).instance@ == old(self).instance@
                &&& final(self).rows@ == old(self).rows@
            },
            r is Err ==> *final(self) == *old(self) && r == Err::<Var, Error>(
                Error::SynthesisError,
            ),
    {
        if self.witness.len() >= 0xffffffffusize || self.instance.len() + self.witness.len()
            >= 0xffffffffusize {
            return Err(Error::SynthesisError);
        }
        let idx = self.witness.len() as u32;
        self.witness.push(value);
        proof {
            assert(final(self).instance@[0] == old(self).instance@[0]);
            assert forall|j: int| 0 <= j < final(self).rows@.len() implies {
                &&& lc_ok((#[trigger] final(self).rows@[j]).a@, final(self).n_inst(), final(self).n_wit())
                &&& lc_ok(final(self).rows@[j].b@, final(self).n_inst(), final(self).n_wit())
                &&& lc_ok(final(self).rows@[j].c@, final(self).n_inst(), final(self).n_wit())
            } by {
                assert(lc_ok(old(self).rows@[j].a@, old(self).n_inst(), old(self).n_wit()));
                assert(lc_ok(old(self).rows@[j].b@, old(self).n_inst(), old(self).n_wit()));
                assert(lc_ok(old(self).rows@[j].c@, old(self).n_inst(), old(self).n_wit()));
                lemma_lc_ok_grow(final(self).rows@[j].a@, old(self).n_inst(), old(self).n_wit(),
                    final(self).n_inst(), final(self).n_wit());
                lemma_lc_ok_grow(final(self).rows@[j].b@, old(self).n_inst(), old(self).n_wit(),
                    final(self).n_inst(), final(self).n_wit());
                lemma_lc_ok_grow(final(self).rows@[j].c@, old(self).n_inst(), old(self).n_wit(),
                    final(self).n_inst(), final(self).n_wit());
            }
        }
        Ok(Var::Witness(idx))
    }

    /// Appends a constraint given its three linear combinations.  The row is
    /// rejected exactly when a wire is unallocated or a coefficient is not
    /// canonical.
    pub fn enforce(&mut self, a: Vec<(Var, Fe)>, b: Vec<(Var, Fe)>, c: Vec<(Var, Fe)>) -> (r:
        Result<(), Error>)
        requires
            old(self).wf(),
        ensures
            final(self).instance@ == old(self).instance@,
            final(self).witness@ == old(self).witness@,
            final(self).wf(),
            r is Ok <==> (lc_ok(a@, old(self).n_inst(), old(self).n_wit()) && lc_ok(
                b@,
                old(self).n_inst(),
                old(self).n_wit(),
            ) && lc_ok(c@, old(self).n_inst(), old(self).n_wit())),
            r matches Ok(u) ==> final(self).rows@.len() == old(self).rows@.len() + 1 && final(self).rows@.last().a@ == a@ && final(self).rows@.last().b@ == b@ && final(self).rows@.last().c@ == c@ && final(self).rows@.subrange(
                0,
                old(self).rows@.len() as int,
            ) == old(self).rows@,
            r is Err ==> final(self).rows@ == old(self).rows@ && r == Err::<(), Error>(
                Error::SynthesisError,
            ),
    {
        let ok_a = check_lc(&a, self.instance.len(), self.witness.len());
        let ok_b = check_lc(&b, self.instance.len(), self.witness.len());
        let ok_c = check_lc(&c, self.instance.len(), self.witness.len());
        if !(ok_a && ok_b && ok_c) {
            return Err(Error::SynthesisError);
        }
        self.rows.push(CsRow { a, b, c });
        proof {
            assert(final(self).rows@.subrange(0, old(self).rows@.len() as int) =~= old(
                self,
            ).rows@);
            assert forall|j: int| 0 <= j < final(self).rows@.len() implies {
                &&& lc_ok((#[trigger] final(self).rows@[j]).a@, final(self).n_inst(), final(self).n_wit())
                &&& lc_ok(final(self).rows@[j].b@, final(self).n_inst(), final(self).n_wit())
                &&& lc_ok(final(self).rows@[j].c@, final(self).n_inst(), final(self).n_wit())
            } by {
                if j < old(self).rows@.len() {
                    assert(final(self).rows@[j] == old(self).rows@[j]);
                    assert(lc_ok(old(self).rows@[j].a@, old(self).n_inst(), old(self).n_wit()));
                    assert(lc_ok(old(self).rows@[j].b@, old(self).n_inst(), old(self).n_wit()));
                    assert(lc_ok(old(self).rows@[j].c@, old(self).n_inst(), old(self).n_wit()));
                }
            }
        }
        Ok(())
    }

    /// Evaluates a linear combination over the current assignment.
    fn eval_lc(&self, terms: &Vec<(Var, Fe)>) -> (r: Fe)
        requires
            self.wf(),
            self.all_assigned(),
            lc_ok(terms@, self.n_inst(), self.n_wit()),
        ensures
            r.wf(),
            r.val() == lc_val(terms@, self.z(), self.n_inst()),
    {
        let n = terms.len();
        let mut acc = fe_zero();
        let mut i: usize = 0;
        while i < n
            invariant
                self.wf(),
                self.all_assigned(),
                lc_ok(terms@, self.n_inst(), self.n_wit()),
                n == terms@.len(),
                i <= n,
                acc.wf(),
                acc.val() == lc_val(terms@.subrange(0, i as int), self.z(), self.n_inst()),
            decreases n - i,
        {
            proof {
                assert(var_ok(terms@[i as int].0, self.n_inst(), self.n_wit()));
            }
            let (v, coeff) = &terms[i];
            let wire_val: &Fe = match v {
                Var::Instance(k) => {
                    match &self.instance[*k as usize] {
                        Some(fe) => fe,
                        None => {
                            proof {
                                assert(self.instance@[*k as int] is Some);
                            }
                            unreached()
                        },
                    }
                },
                Var::Witness(k) => {
                    match &self.witness[*k as usize] {
                        Some(fe) => fe,
                        None => {
                            proof {
                                assert(self.witness@[*k as int] is Some);
                            }
                            unreached()
                        },
                    }
                },
            };
            let term = fe_mul(coeff, wire_val);
            proof {
                assert(self.z()[var_col(terms@[i as int].0, self.n_inst())] == wire_val.val());
                assert(term.val() == term_val(terms@[i as int], self.z(), self.n_inst()));
            }
            let acc2 = fe_add(&acc, &term);
            proof {
                let cur = terms@.subrange(0, i as int + 1);
                assert(cur.drop_last() =~= terms@.subrange(0, i as int));
                assert(cur.last() == terms@[i as int]);
                assert(acc2.val() == lc_val(cur, self.z(), self.n_inst()));
            }
            acc = acc2;
            i = i + 1;
        }
        proof {
            assert(terms@.subrange(0, n as int) =~= terms@);
        }
        acc
    }

    /// Whether every constraint holds under the full assignment; fails with
    /// `AssignmentMissing` exactly when some wire has no value.
    pub fn is_satisfied(&self) -> (r: Result<bool, Error>)
        requires
            self.wf(),
        ensures
            r matches Ok(b) ==> self.all_assigned() && b == self.satisfied(),
            r is Err <==> !self.all_assigned(),
            r is Err ==> r == Err::<bool, Error>(Error::AssignmentMissing),
    {
        if !self.check_assigned() {
            return Err(Error::AssignmentMissing);
        }
        let n = self.rows.len();
        let mut j: usize = 0;
        while j < n
            invariant
                self.wf(),
                self.all_assigned(),
                n == self.rows@.len(),
                j <= n,
                forall|t: int|
                    0 <= t < j as int ==> row_holds(&(#[trigger] self.rows@[t]), self.z(), self.n_inst()),
            decreases n - j,
        {
            proof {
                assert(lc_ok(self.rows@[j as int].a@, self.n_inst(), self.n_wit()));
                assert(lc_ok(self.rows@[j as int].b@, self.n_inst(), self.n_wit()));
                assert(lc_ok(self.rows@[j as int].c@, self.n_inst(), self.n_wit()));
            }
            let row = &self.rows[j];
            let av = self.eval_lc(&row.a);
            let bv = self.eval_lc(&row.b);
            let cv = self.eval_lc(&row.c);
            let ab = fe_mul(&av, &bv);
            if !fe_eq(&ab, &cv) {
                proof {
                    assert(!row_holds(&self.rows@[j as int], self.z(), self.n_inst()));
                }
                return Ok(false);
            }
            j = j + 1;
        }
        Ok(true)
    }

    /// Whether every wire carries a value.
    fn check_assigned(&self) -> (r: bool)
        ensures
            r == self.all_assigned(),
    {
        let n1 = self.instance.len();
        let mut i: usize = 0;
        while i < n1
            invariant
                n1 == self.instance@.len(),
                i <= n1,
                forall|t: int| 0 <= t < i as int ==> (#[trigger] self.instance@[t]) is Some,
            decreases n1 - i,
        {
            if self.instance[i].is_none() {
                return false;
            }
            i = i + 1;
        }
        let n2 = self.witness.len();
        let mut k: usize = 0;
        while k < n2
            invariant
                n2 == self.witness@.len(),
                k <= n2,
                forall|t: int| 0 <= t < k as int ==> (#[trigger] self.witness@[t]) is Some,
            decreases n2 - k,
        {
            if self.witness[k].is_none() {
                return false;
            }
            k = k + 1;
        }
        true
    }

    /// The instance assignment, the constant one included; fails with
    /// `AssignmentMissing` exactly when an instance wire has no value.
    pub fn instance_values(&self) -> (r: Result<Vec<Fe>, Error>)
        requires
            self.wf(),
        ensures
            r matches Ok(vals) ==> {
                &&& vals@.len() == self.n_inst()
                &&& forall|i: int|
                    0 <= i < vals@.len() ==> (#[trigger] vals@[i]).wf() && vals@[i].val()
                        == self.z()[i]
            },
            r is Err <==> exists|i: int|
                0 <= i < self.instance@.len() && !((#[trigger] self.instance@[i]) is Some),
            r is Err ==> r == Err::<Vec<Fe>, Error>(Error::AssignmentMissing),
    {
        let n = self.instance.len();
        let mut out: Vec<Fe> = Vec::new();
        let mut i: usize = 0;
        while i < n
            invariant
                self.wf(),
                n == self.instance@.len(),
                i <= n,
                out@.len() == i as nat,
                forall|t: int| 0 <= t < i as int ==> (#[trigger] self.instance@[t]) is Some,
                forall|t: int|
                    0 <= t < i as int ==> (#[trigger] out@[t]).wf() && out@[t].val()
                        == self.z()[t],
            decreases n - i,
        {
            match &self.instance[i] {
                Some(fe) => {
                    out.push(fe.dup());
                },
                None => {
                    return Err(Error::AssignmentMissing);
                },
            }
            i = i + 1;
        }
        Ok(out)
    }
}

/// A linear combination stays well formed when the system grows.
proof fn lemma_lc_ok_grow(terms: Seq<(Var, Fe)>, n_inst: nat, n_wit: nat, n2: nat, w2: nat)
    requires
        lc_ok(terms, n_inst, n_wit),
        n2 >= n_inst,
        w2 >= n_wit,
    ensures
        lc_ok(terms, n2, w2),
{
    assert forall|i: int| 0 <= i < terms.len() implies var_ok(
        (#[trigger] terms[i]).0,
        n2,
        w2,
    ) && terms[i].1.wf() by {
        assert(var_ok(terms[i].0, n_inst, n_wit));
    }
}

/// Whether every term of a linear combination names an allocated wire and
/// carries a canonical coefficient.
fn check_lc(terms: &Vec<(Var, Fe)>, n_inst: usize, n_wit: usize) -> (r: bool)
    ensures
        r == lc_ok(terms@, n_inst as nat, n_wit as nat),
{
    let n = terms.len();
    let mut i: usize = 0;
    while i < n
        invariant
            n == terms@.len(),
            i <= n,
            forall|t: int|
                0 <= t < i as int ==> var_ok((#[trigger] terms@[t]).0, n_inst as nat, n_wit as nat)
                    && terms@[t].1.wf(),
        decreases n - i,
    {
        let ok_var = match &terms[i].0 {
            Var::Instance(k) => (*k as usize) < n_inst,
            Var::Witness(k) => (*k as usize) < n_wit,
        };
        let wf_coeff = terms[i].1.b.len() == 32 && check_reduced(&terms[i].1);
        if !(ok_var && wf_coeff) {
            return false;
        }
        i = i + 1;
    }
    true
}

/// Whether a 32-byte little-endian value lies below the field order.
fn check_reduced(fe: &Fe) -> (r: bool)
    requires
        fe.b@.len() == 32,
    ensures
        r == fe.wf(),
{
    let reduced = crate::field::fe_reduce(&fe.b);
    let mut i: usize = 0;
    let mut eq = true;
    while i < 32
        invariant
            fe.b@.len() == 32,
            reduced.b@.len() == 32,
            i <= 32,
            eq == (fe.b@.subrange(0, i as int) =~= reduced.b@.subrange(0, i as int)),
        decreases 32 - i,
    {
        if fe.b[i] != reduced.b[i] {
            proof {
                assert(fe.b@.subrange(0, i as int + 1)[i as int] != reduced.b@.subrange(
                    0,
                    i as int + 1,
                )[i as int]);
            }
            eq = false;
        } else {
            proof {
                if eq {
                    assert(fe.b@.subrange(0, i as int + 1) =~= reduced.b@.subrange(
                        0,
                        i as int + 1,
                    ));
                } else {
                    let w = choose|w: int|
                        0 <= w < i && fe.b@.subrange(0, i as int)[w] != reduced.b@.subrange(
                            0,
                            i as int,
                        )[w];
                    assert(fe.b@.subrange(0, i as int + 1)[w] != reduced.b@.subrange(
                        0,
                        i as int + 1,
                    )[w]);
                }
            }
        }
        i = i + 1;
    }
    proof {
        assert(fe.b@.subrange(0, 32) =~= fe.b@);
        assert(reduced.b@.subrange(0, 32) =~= reduced.b@);
        if eq {
            assert(fe.b@ =~= reduced.b@);
            vstd::arithmetic::div_mod::lemma_mod_bound(
                crate::field::le_val(fe.b@) as int,
                fr_order() as int,
            );
        } else {
            if fe.wf() {
                vstd::arithmetic::div_mod::lemma_small_mod(
                    crate::field::le_val(fe.b@),
                    fr_order(),
                );
                crate::field::lemma_le_val_injective(fe.b@, reduced.b@);
            }
        }
    }
    eq
}

} // verus!
