use crate::error::ArithError;
use crate::field::FieldElement;
use crate::r1cs::{ConstraintSystem, Variable};
use vstd::prelude::*;

verus! {

/// Builds `y = x·x·x + constant` on `cs`: allocates and assigns the input
/// `x`, then two multiplication gates and one constant-addition gate.
/// Returns the output variable `y`.
pub fn build_cubic_circuit(cs: &mut ConstraintSystem, x: FieldElement, constant: FieldElement) -> (r:
    Result<Variable, ArithError>)
    requires
        old(cs).wf(),
        old(cs).assigned(0),
        old(cs).assignments.len() + 4 < usize::MAX,
        x.wf(),
        constant.wf(),
        x.p == old(cs).one_modulus(),
        constant.p == old(cs).one_modulus(),
    ensures
        final(cs).wf(),
        ({
            let n = old(cs).assignments.len();
            let p = x.p as int;
            let x2 = (x.value * x.value) % p;
            let x3 = (x2 * x.value) % p;
            &&& r == Ok::<Variable, ArithError>(Variable((n + 3) as usize))
            &&& final(cs).assignments@ == old(cs).assignments@.push(Some(x)).push(
                Some(FieldElement { value: x2 as u64, p: x.p }),
            ).push(Some(FieldElement { value: x3 as u64, p: x.p })).push(
                Some(FieldElement { value: ((x3 + constant.value) % p) as u64, p: x.p }),
            )
            &&& final(cs).constraints@.len() == old(cs).constraints@.len() + 3
            &&& final(cs).constraints@.subrange(0, old(cs).constraints@.len() as int) == old(
                cs,
            ).constraints@
        }),
{
    let ghost c0 = cs.constraints@;
    let xv = cs.alloc_variable();
    let _ = cs.assign(xv, x);
    let ghost c1 = cs.constraints@;
    let v1 = cs.mul(xv, xv)?;
    let ghost c2 = cs.constraints@;
    let v2 = cs.mul(v1, xv)?;
    let ghost c3 = cs.constraints@;
    let y = cs.add_const(v2, constant)?;
    proof {
        assert(c1 == c0);
        assert(c2.drop_last() == c1);
        assert(c3.drop_last() == c2);
        assert(cs.constraints@.drop_last() == c3);
        assert(cs.constraints@.subrange(0, c0.len() as int) =~= c0);
    }
    Ok(y)
}

} // verus!
