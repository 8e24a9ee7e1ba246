use crate::error::ArithError;
use crate::field::FieldElement;
use vstd::arithmetic::div_mod::lemma_add_mod_noop_right;
use vstd::prelude::*;

verus! {

/// A handle to a witness slot. Slot 0 holds the constant one.
#[derive(Debug, Clone, Copy, PartialEq, Eq, Structural)]
pub struct Variable(pub usize);

/// A sum of `coefficient * variable` terms, at most one term per variable.
#[derive(Debug, Clone)]
pub struct LinearCombination {
    pub terms: Vec<(Variable, FieldElement)>,
}

/// A rank-1 constraint `a * b == c` on three linear combinations.
#[derive(Debug, Clone)]
pub struct Constraint {
    pub a: LinearCombination,
    pub b: LinearCombination,
    pub c: LinearCombination,
}

/// Variables allocated so far, the constraints emitted, and the values
/// assigned to the variables (`None` while unassigned).
pub struct ConstraintSystem {
    pub next_var_index: usize,
    pub constraints: Vec<Constraint>,
    pub assignments: Vec<Option<FieldElement>>,
}

/// The coefficient that `terms` give variable `v`, summed modulo `p`.
pub open spec fn lc_coeff(terms: Seq<(Variable, FieldElement)>, v: int, p: int) -> int
    decreases terms.len(),
{
    if terms.len() == 0 {
        0
    } else {
        (lc_coeff(terms.drop_last(), v, p) + (if terms.last().0.0 == v {
            terms.last().1.value as int
        } else {
            0
        })) % p
    }
}

/// The value of `terms` under the witness `w`, modulo `p`.
pub open spec fn lc_value(terms: Seq<(Variable, FieldElement)>, w: Seq<FieldElement>, p: int) -> int
    decreases terms.len(),
{
    if terms.len() == 0 {
        0
    } else {
        (lc_value(terms.drop_last(), w, p) + terms.last().1.value * w[terms.last().0.0 as int].value)
            % p
    }
}

/// Every term of `terms` names a slot of `w`, and all values involved are
/// residues of the modulus of `w[0]`.
pub open spec fn lc_evaluable(terms: Seq<(Variable, FieldElement)>, w: Seq<FieldElement>) -> bool {
    &&& w.len() > 0
    &&& w[0].wf()
    &&& forall|k: int|
        0 <= k < terms.len() ==> {
            let t = #[trigger] terms[k];
            &&& t.0.0 < w.len()
            &&& t.1.wf()
            &&& t.1.p == w[0].p
            &&& w[t.0.0 as int].wf()
            &&& w[t.0.0 as int].p == w[0].p
        }
}

/// Constraint `c` holds under the witness `w`.
pub open spec fn constraint_holds(c: Constraint, w: Seq<FieldElement>) -> bool {
    &&& lc_evaluable(c.a.terms@, w)
    &&& lc_evaluable(c.b.terms@, w)
    &&& lc_evaluable(c.c.terms@, w)
    &&& (lc_value(c.a.terms@, w, w[0].p as int) * lc_value(c.b.terms@, w, w[0].p as int)) % (
    w[0].p as int) == lc_value(c.c.terms@, w, w[0].p as int)
}

/// No variable has two terms.
pub open spec fn distinct_vars(terms: Seq<(Variable, FieldElement)>) -> bool {
    forall|i: int, j: int| 0 <= i < j < terms.len() ==> #[trigger] terms[i].0 != #[trigger] terms[j].0
}

/// The linear combination `1 * v` over the modulus `p`.
pub open spec fn unit_term(v: usize, p: u64) -> Seq<(Variable, FieldElement)> {
    seq![(Variable(v), FieldElement { value: (1int % (p as int)) as u64, p })]
}

impl LinearCombination {
    /// The empty combination.
    pub fn new() -> (r: LinearCombination)
        ensures
            r.terms@.len() == 0,
    {
        LinearCombination { terms: Vec::new() }
    }

    /// Adds `coeff * var`, folding it into an existing term for `var`.
    pub fn add_term(&mut self, var: Variable, coeff: FieldElement)
        requires
            coeff.wf(),
            distinct_vars(old(self).terms@),
            forall|k: int|
                0 <= k < old(self).terms.len() ==> (#[trigger] old(self).terms@[k]).1.p == coeff.p
                    && old(self).terms@[k].1.wf(),
        ensures
            forall|k: int|
                0 <= k < final(self).terms.len() ==> (#[trigger] final(self).terms@[k]).1.p
                    == coeff.p && final(self).terms@[k].1.wf(),
            distinct_vars(final(self).terms@),
            (exists|k: int|
                0 <= k < old(self).terms.len() && #[trigger] old(self).terms@[k].0 == var) ==> {
                let k = choose|k: int|
                    0 <= k < old(self).terms.len() && #[trigger] old(self).terms@[k].0 == var;
                final(self).terms@ == old(self).terms@.update(
                    k,
                    (
                        var,
                        FieldElement {
                            value: ((old(self).terms@[k].1.value + coeff.value) % (
                            coeff.p as int)) as u64,
                            p: coeff.p,
                        },
                    ),
                )
            },
            (forall|k: int|
                0 <= k < old(self).terms.len() ==> #[trigger] old(self).terms@[k].0 != var)
                ==> final(self).terms@ == old(self).terms@.push((var, coeff)),
    {
        let n = self.terms.len();
        let mut i: usize = 0;
        while i < n
            invariant
                i <= n,
                n == self.terms.len(),
                self.terms@ == old(self).terms@,
                distinct_vars(old(self).terms@),
                coeff.wf(),
                forall|k: int|
                    0 <= k < old(self).terms.len() ==> (#[trigger] old(self).terms@[k]).1.p
                        == coeff.p && old(self).terms@[k].1.wf(),
                forall|k: int| 0 <= k < i ==> #[trigger] self.terms@[k].0 != var,
            decreases n - i,
        {
            if self.terms[i].0 == var {
                let merged = self.terms[i].1.add(&coeff).unwrap();
                let ghost before = self.terms@;
                self.terms.set(i, (var, merged));
                proof {
                    let k = choose|k: int| 0 <= k < before.len() && #[trigger] before[k].0 == var;
                    if k != i {
                        if k < i {
                            assert(before[k].0 != before[i as int].0);
                        } else {
                            assert(before[i as int].0 != before[k].0);
                        }
                    }
                    assert(k == i);
                    assert forall|a: int, b: int| 0 <= a < b < self.terms@.len() implies #[trigger] self.terms@[a].0
                        != #[trigger] self.terms@[b].0 by {
                        assert(before[a].0 != before[b].0);
                    }
                }
                return;
            }
            i = i + 1;
        }
        let ghost before = self.terms@;
        self.terms.push((var, coeff));
        proof {
            assert forall|a: int, b: int| 0 <= a < b < self.terms@.len() implies #[trigger] self.terms@[a].0
                != #[trigger] self.terms@[b].0 by {
                if b < before.len() {
                    assert(before[a].0 != before[b].0);
                } else {
                    assert(before[a].0 != var);
                }
            }
        }
    }
}

impl ConstraintSystem {
    /// The counter matches the slots, and every assigned value is a residue.
    pub open spec fn wf(self) -> bool {
        &&& self.next_var_index == self.assignments.len()
        &&& forall|i: int|
            0 <= i < self.assignments.len() && (#[trigger] self.assignments@[i]) is Some
                ==> self.assignments@[i]->Some_0.wf()
    }

    /// The modulus of the constant-one slot.
    pub open spec fn one_modulus(self) -> u64 {
        self.assignments@[0]->Some_0.p
    }

    /// The slot `v` exists and holds a value.
    pub open spec fn assigned(self, v: usize) -> bool {
        v < self.assignments.len() && self.assignments@[v as int] is Some
    }

    /// The value in slot `v`.
    pub open spec fn value_of(self, v: usize) -> FieldElement {
        self.assignments@[v as int]->Some_0
    }

    /// Why a gate reading slots `a` and `b` (and a constant of modulus
    /// `extra`) cannot be built, if it cannot.
    pub open spec fn gate_error(self, a: usize, b: usize, extra: Option<u64>) -> Option<ArithError> {
        if a >= self.assignments.len() || b >= self.assignments.len() {
            Some(ArithError::UnknownVariable)
        } else if !self.assigned(0) || !self.assigned(a) || !self.assigned(b) {
            Some(ArithError::UnassignedVariable)
        } else if self.value_of(a).p != self.one_modulus() || self.value_of(b).p
            != self.one_modulus() || (extra is Some && extra->Some_0 != self.one_modulus()) {
            Some(ArithError::FieldMismatch)
        } else {
            None
        }
    }

    /// The system is left as it was.
    pub open spec fn unchanged(self, other: ConstraintSystem) -> bool {
        &&& self.assignments@ == other.assignments@
        &&& self.constraints@ == other.constraints@
        &&& self.next_var_index == other.next_var_index
    }

    /// The system is `old` with one more slot holding `value` and one more
    /// constraint whose three combinations are `a`, `b` and `c`.
    pub open spec fn gate_added(
        self,
        old: ConstraintSystem,
        value: FieldElement,
        a: Seq<(Variable, FieldElement)>,
        b: Seq<(Variable, FieldElement)>,
        c: Seq<(Variable, FieldElement)>,
    ) -> bool {
        &&& self.wf()
        &&& self.assignments@ == old.assignments@.push(Some(value))
        &&& self.constraints@.len() == old.constraints@.len() + 1
        &&& self.constraints@.drop_last() == old.constraints@
        &&& self.constraints@.last().a.terms@ == a
        &&& self.constraints@.last().b.terms@ == b
        &&& self.constraints@.last().c.terms@ == c
    }

    /// An empty system: no variables, no constraints.
    pub fn new() -> (r: ConstraintSystem)
        ensures
            r.wf(),
            r.next_var_index == 0,
            r.constraints@.len() == 0,
            r.assignments@.len() == 0,
    {
        ConstraintSystem { next_var_index: 0, constraints: Vec::new(), assignments: Vec::new() }
    }

    /// Stores `value` in slot `var`; fails if the slot was never allocated.
    pub fn assign(&mut self, var: Variable, value: FieldElement) -> (r: Result<(), ArithError>)
        requires
            old(self).wf(),
            value.wf(),
        ensures
            final(self).wf(),
            final(self).constraints@ == old(self).constraints@,
            final(self).next_var_index == old(self).next_var_index,
            var.0 >= old(self).assignments.len() ==> r == Err::<(), ArithError>(
                ArithError::UnknownVariable,
            ) && final(self).assignments@ == old(self).assignments@,
            var.0 < old(self).assignments.len() ==> r is Ok && final(self).assignments@ == old(
                self,
            ).assignments@.update(var.0 as int, Some(value)),
    {
        if var.0 < self.assignments.len() {
            self.assignments.set(var.0, Some(value));
            Ok(())
        } else {
            Err(ArithError::UnknownVariable)
        }
    }

    /// Allocates slot 0 if there is none, and stores `one` in it.
    pub fn init_one(&mut self, one: FieldElement)
        requires
            old(self).wf(),
            one.wf(),
        ensures
            final(self).wf(),
            final(self).constraints@ == old(self).constraints@,
            old(self).assignments.len() == 0 ==> final(self).assignments@ == seq![Some(one)],
            old(self).assignments.len() > 0 ==> final(self).assignments@ == old(
                self,
            ).assignments@.update(0, Some(one)),
    {
        if self.assignments.len() == 0 {
            self.alloc_variable();
        }
        let r = self.assign(Variable(0), one);
        proof {
            if old(self).assignments.len() == 0 {
                assert(self.assignments@ =~= seq![Some(one)]);
            }
        }
    }

    /// The dense witness; fails if any slot is unassigned.
    pub fn generate_witness(&self) -> (r: Result<Vec<FieldElement>, ArithError>)
        requires
            self.wf(),
        ensures
            (forall|i: int| 0 <= i < self.assignments.len() ==> #[trigger] self.assignments@[i] is Some)
                ==> r is Ok,
            r is Err ==> r == Err::<Vec<FieldElement>, ArithError>(ArithError::UnassignedVariable),
            r matches Ok(w) ==> w@.len() == self.assignments.len() && forall|i: int|
                0 <= i < w@.len() ==> self.assignments@[i] == Some(#[trigger] w@[i]),
    {
        let mut w: Vec<FieldElement> = Vec::new();
        let mut i: usize = 0;
        while i < self.assignments.len()
            invariant
                i <= self.assignments.len(),
                w@.len() == i,
                forall|k: int| 0 <= k < i ==> self.assignments@[k] == Some(#[trigger] w@[k]),
            decreases self.assignments.len() - i,
        {
            match self.assignments[i] {
                Some(v) => w.push(v),
                None => {
                    return Err(ArithError::UnassignedVariable);
                },
            }
            i = i + 1;
        }
        Ok(w)
    }

    /// Appends a new unassigned slot and returns its handle.
    pub fn alloc_variable(&mut self) -> (r: Variable)
        requires
            old(self).wf(),
            old(self).assignments.len() < usize::MAX,
        ensures
            final(self).wf(),
            r == Variable(old(self).next_var_index),
            final(self).next_var_index == old(self).next_var_index + 1,
            final(self).assignments@ == old(self).assignments@.push(None),
            final(self).constraints@ == old(self).constraints@,
    {
        let var = Variable(self.next_var_index);
        self.next_var_index = self.next_var_index + 1;
        self.assignments.push(None);
        var
    }

    /// Appends the constraint `a * b == c`.
    pub fn enforce(&mut self, a: LinearCombination, b: LinearCombination, c: LinearCombination)
        ensures
            final(self).constraints@ == old(self).constraints@.push(Constraint { a, b, c }),
            final(self).assignments@ == old(self).assignments@,
            final(self).next_var_index == old(self).next_var_index,
    {
        self.constraints.push(Constraint { a, b, c });
    }

    /// The element one, in the modulus of the constant slot.
    fn one(&self) -> (r: FieldElement)
        requires
            self.wf(),
            self.assigned(0),
        ensures
            r.wf(),
            r.p == self.one_modulus(),
            r.value == 1int % (r.p as int),
    {
        let p = match self.assignments[0] {
            Some(v) => v.p,
            None => 1,
        };
        FieldElement::new(1, p)
    }

    /// The value in slot `v`, with the checks a gate makes on it.
    fn read(&self, v: Variable) -> (r: Result<FieldElement, ArithError>)
        requires
            self.wf(),
        ensures
            v.0 >= self.assignments.len() ==> r == Err::<FieldElement, ArithError>(
                ArithError::UnknownVariable,
            ),
            v.0 < self.assignments.len() && !self.assigned(v.0) ==> r == Err::<
                FieldElement,
                ArithError,
            >(ArithError::UnassignedVariable),
            self.assigned(v.0) ==> r == Ok::<FieldElement, ArithError>(self.value_of(v.0)),
    {
        if v.0 >= self.assignments.len() {
            return Err(ArithError::UnknownVariable);
        }
        match self.assignments[v.0] {
            Some(x) => Ok(x),
            None => Err(ArithError::UnassignedVariable),
        }
    }

    /// The values of slots `a` and `b` and the element one, checked as
    /// `gate_error` describes.
    fn gate_inputs(&self, a: Variable, b: Variable, extra: Option<u64>) -> (r: Result<
        (FieldElement, FieldElement, FieldElement),
        ArithError,
    >)
        requires
            self.wf(),
        ensures
            self.gate_error(a.0, b.0, extra) is Some ==> r == Err::<
                (FieldElement, FieldElement, FieldElement),
                ArithError,
            >(self.gate_error(a.0, b.0, extra)->Some_0),
            self.gate_error(a.0, b.0, extra) is None ==> r is Ok && r->Ok_0.0 == self.value_of(a.0)
                && r->Ok_0.1 == self.value_of(b.0) && r->Ok_0.2.wf() && r->Ok_0.2.p
                == self.one_modulus() && r->Ok_0.2.value == 1int % (self.one_modulus() as int),
    {
        let n = self.assignments.len();
        if a.0 >= n || b.0 >= n {
            return Err(ArithError::UnknownVariable);
        }
        let (c0, va, vb) = match (self.assignments[0], self.assignments[a.0], self.assignments[b.0]) {
            (Some(c0), Some(va), Some(vb)) => (c0, va, vb),
            _ => {
                return Err(ArithError::UnassignedVariable);
            },
        };
        let bad_extra = match extra {
            Some(q) => q != c0.p,
            None => false,
        };
        if va.p != c0.p || vb.p != c0.p || bad_extra {
            return Err(ArithError::FieldMismatch);
        }
        Ok((va, vb, self.one()))
    }

    /// Multiplication gate: a new slot `c = a * b` and the constraint
    /// `(1·a) * (1·b) == (1·c)`.
    pub fn mul(&mut self, a: Variable, b: Variable) -> (r: Result<Variable, ArithError>)
        requires
            old(self).wf(),
            old(self).assignments.len() < usize::MAX,
        ensures
            old(self).gate_error(a.0, b.0, None) is Some ==> r == Err::<Variable, ArithError>(
                old(self).gate_error(a.0, b.0, None)->Some_0,
            ) && final(self).unchanged(*old(self)),
            old(self).gate_error(a.0, b.0, None) is None ==> {
                let p = old(self).one_modulus();
                let c = old(self).assignments.len();
                &&& r == Ok::<Variable, ArithError>(Variable(c))
                &&& final(self).gate_added(
                    *old(self),
                    FieldElement {
                        value: ((old(self).value_of(a.0).value * old(self).value_of(b.0).value) % (
                        p as int)) as u64,
                        p,
                    },
                    unit_term(a.0, p),
                    unit_term(b.0, p),
                    unit_term(c, p),
                )
            },
    {
        let (va, vb, one) = self.gate_inputs(a, b, None)?;
        let c = self.alloc_variable();
        let vc = va.mul(&vb).unwrap();
        let _ = self.assign(c, vc);
        let mut lc_a = LinearCombination::new();
        lc_a.add_term(a, one);
        let mut lc_b = LinearCombination::new();
        lc_b.add_term(b, one);
        let mut lc_c = LinearCombination::new();
        lc_c.add_term(c, one);
        self.enforce(lc_a, lc_b, lc_c);
        proof {
            assert(lc_a.terms@ =~= unit_term(a.0, one.p));
            assert(lc_b.terms@ =~= unit_term(b.0, one.p));
            assert(lc_c.terms@ =~= unit_term(c.0, one.p));
            assert(self.constraints@.drop_last() =~= old(self).constraints@);
            assert(self.assignments@ =~= old(self).assignments@.push(Some(vc)));
        }
        Ok(c)
    }

    /// Addition gate: a new slot `c = a + b` and the constraint
    /// `(1·a + 1·b) * (1·ONE) == (1·c)`, the two terms folded when `a == b`.
    pub fn add(&mut self, a: Variable, b: Variable) -> (r: Result<Variable, ArithError>)
        requires
            old(self).wf(),
            old(self).assignments.len() < usize::MAX,
        ensures
            old(self).gate_error(a.0, b.0, None) is Some ==> r == Err::<Variable, ArithError>(
                old(self).gate_error(a.0, b.0, None)->Some_0,
            ) && final(self).unchanged(*old(self)),
            old(self).gate_error(a.0, b.0, None) is None ==> {
                let p = old(self).one_modulus();
                let one = FieldElement { value: (1int % (p as int)) as u64, p };
                let c = old(self).assignments.len();
                &&& r == Ok::<Variable, ArithError>(Variable(c))
                &&& final(self).gate_added(
                    *old(self),
                    FieldElement {
                        value: ((old(self).value_of(a.0).value + old(self).value_of(b.0).value) % (
                        p as int)) as u64,
                        p,
                    },
                    if a == b {
                        seq![(a, FieldElement { value: ((2 * one.value) % (p as int)) as u64, p })]
                    } else {
                        seq![(a, one), (b, one)]
                    },
                    unit_term(0, p),
                    unit_term(c, p),
                )
            },
    {
        let (va, vb, one) = self.gate_inputs(a, b, None)?;
        let c = self.alloc_variable();
        let vc = va.add(&vb).unwrap();
        let _ = self.assign(c, vc);
        let mut lc_a = LinearCombination::new();
        lc_a.add_term(a, one);
        assert(lc_a.terms@[0].0 == a);
        lc_a.add_term(b, one);
        let mut lc_b = LinearCombination::new();
        lc_b.add_term(Variable(0), one);
        let mut lc_c = LinearCombination::new();
        lc_c.add_term(c, one);
        self.enforce(lc_a, lc_b, lc_c);
        proof {
            assert(lc_b.terms@ =~= unit_term(0, one.p));
            assert(lc_c.terms@ =~= unit_term(c.0, one.p));
            assert(self.constraints@.drop_last() =~= old(self).constraints@);
            assert(self.assignments@ =~= old(self).assignments@.push(Some(vc)));
            if a == b {
                assert(lc_a.terms@ =~= seq![(a, FieldElement { value: ((2 * one.value) % (one.p as int)) as u64, p: one.p })]);
            } else {
                assert(lc_a.terms@ =~= seq![(a, one), (b, one)]);
            }
        }
        Ok(c)
    }

    /// Constant-addition gate: a new slot `c = a + constant` and the
    /// constraint `(1·a + constant·ONE) * (1·ONE) == (1·c)`, the two terms
    /// folded when `a` is the constant slot.
    pub fn add_const(&mut self, a: Variable, constant: FieldElement) -> (r: Result<
        Variable,
        ArithError,
    >)
        requires
            old(self).wf(),
            old(self).assignments.len() < usize::MAX,
            constant.wf(),
        ensures
            old(self).gate_error(a.0, a.0, Some(constant.p)) is Some ==> r == Err::<
                Variable,
                ArithError,
            >(old(self).gate_error(a.0, a.0, Some(constant.p))->Some_0) && final(self).unchanged(
                *old(self),
            ),
            old(self).gate_error(a.0, a.0, Some(constant.p)) is None ==> {
                let p = old(self).one_modulus();
                let one = FieldElement { value: (1int % (p as int)) as u64, p };
                let c = old(self).assignments.len();
                &&& r == Ok::<Variable, ArithError>(Variable(c))
                &&& final(self).gate_added(
                    *old(self),
                    FieldElement {
                        value: ((old(self).value_of(a.0).value + constant.value) % (
                        p as int)) as u64,
                        p,
                    },
                    if a.0 == 0 {
                        seq![
                            (
                                a,
                                FieldElement {
                                    value: ((one.value + constant.value) % (p as int)) as u64,
                                    p,
                                },
                            ),
                        ]
                    } else {
                        seq![(a, one), (Variable(0), constant)]
                    },
                    unit_term(0, p),
                    unit_term(c, p),
                )
            },
    {
        let (va, _unused, one) = self.gate_inputs(a, a, Some(constant.p))?;
        let c = self.alloc_variable();
        let vc = va.add(&constant).unwrap();
        let _ = self.assign(c, vc);
        let mut lc_a = LinearCombination::new();
        lc_a.add_term(a, one);
        assert(lc_a.terms@[0].0 == a);
        lc_a.add_term(Variable(0), constant);
        let mut lc_b = LinearCombination::new();
        lc_b.add_term(Variable(0), one);
        let mut lc_c = LinearCombination::new();
        lc_c.add_term(c, one);
        self.enforce(lc_a, lc_b, lc_c);
        proof {
            assert(lc_b.terms@ =~= unit_term(0, one.p));
            assert(lc_c.terms@ =~= unit_term(c.0, one.p));
            assert(self.constraints@.drop_last() =~= old(self).constraints@);
            assert(self.assignments@ =~= old(self).assignments@.push(Some(vc)));
            if a.0 == 0 {
                assert(lc_a.terms@ =~= seq![(a, FieldElement { value: ((one.value + constant.value) % (one.p as int)) as u64, p: one.p })]);
            } else {
                assert(lc_a.terms@ =~= seq![(a, one), (Variable(0), constant)]);
            }
        }
        Ok(c)
    }
}

/// The value of `lc` under `witness`, or `None` when a term names a missing
/// slot or a value of another modulus than `witness[0]`.
pub fn evaluate_lc(lc: &LinearCombination, witness: &Vec<FieldElement>) -> (r: Option<FieldElement>)
    ensures
        r is Some <==> lc_evaluable(lc.terms@, witness@),
        r matches Some(v) ==> v.wf() && v.p == witness@[0].p && v.value == lc_value(
            lc.terms@,
            witness@,
            witness@[0].p as int,
        ),
{
    if witness.len() == 0 {
        return None;
    }
    let p = witness[0].p;
    if p == 0 || witness[0].value >= p {
        return None;
    }
    let ghost terms = lc.terms@;
    let mut total = FieldElement::new(0, p);
    let mut i: usize = 0;
    proof {
        assert(terms.subrange(0, 0).len() == 0);
    }
    while i < lc.terms.len()
        invariant
            i <= lc.terms.len(),
            terms == lc.terms@,
            witness.len() > 0,
            witness@[0].wf(),
            p == witness@[0].p,
            total.wf(),
            total.p == p,
            total.value == lc_value(terms.subrange(0, i as int), witness@, p as int),
            forall|k: int|
                0 <= k < i ==> {
                    let t = #[trigger] terms[k];
                    &&& t.0.0 < witness.len()
                    &&& t.1.wf()
                    &&& t.1.p == p
                    &&& witness@[t.0.0 as int].wf()
                    &&& witness@[t.0.0 as int].p == p
                },
        decreases lc.terms.len() - i,
    {
        let (var, coeff) = lc.terms[i];
        if var.0 >= witness.len() || coeff.p != p || coeff.value >= p {
            return None;
        }
        let val = witness[var.0];
        if val.p != p || val.value >= p {
            return None;
        }
        let product = coeff.mul(&val).unwrap();
        total = total.add(&product).unwrap();
        proof {
            let sub = terms.subrange(0, i as int + 1);
            assert(sub.drop_last() =~= terms.subrange(0, i as int));
            assert(sub.last() == terms[i as int]);
            lemma_add_mod_noop_right(
                lc_value(terms.subrange(0, i as int), witness@, p as int),
                coeff.value * val.value,
                p as int,
            );
        }
        i = i + 1;
    }
    proof {
        assert(terms.subrange(0, terms.len() as int) =~= terms);
    }
    Some(total)
}

/// Every constraint of `cs` holds under `witness`.
pub fn is_satisfied(cs: &ConstraintSystem, witness: &Vec<FieldElement>) -> (r: bool)
    ensures
        r == forall|k: int|
            0 <= k < cs.constraints.len() ==> constraint_holds(
                #[trigger] cs.constraints@[k],
                witness@,
            ),
{
    let mut i: usize = 0;
    while i < cs.constraints.len()
        invariant
            i <= cs.constraints.len(),
            forall|k: int| 0 <= k < i ==> constraint_holds(#[trigger] cs.constraints@[k], witness@),
        decreases cs.constraints.len() - i,
    {
        let c = &cs.constraints[i];
        let av = evaluate_lc(&c.a, witness);
        let bv = evaluate_lc(&c.b, witness);
        let cv = evaluate_lc(&c.c, witness);
        match (av, bv, cv) {
            (Some(x), Some(y), Some(z)) => {
                let prod = x.mul(&y).unwrap();
                if prod.value != z.value {
                    return false;
                }
            },
            _ => {
                return false;
            },
        }
        i = i + 1;
    }
    true
}

} // verus!
