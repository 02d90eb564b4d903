//! The native procedures: arithmetic and comparison.

use vstd::prelude::*;
use crate::lisp::number::{Arithmetic, computes, results};
use crate::lisp::types::{Builtin, Failure, Operator, RLResult, RLType, Value, models, outcome};

pub mod math;
pub mod comparison;

verus! {

/// What a native procedure returns on its arguments.
pub open spec fn applied(m: Arithmetic, tag: Builtin, args: Seq<Value>) -> Result<Value, Failure> {
    match tag {
        Builtin::Add => math::sum(m, args),
        Builtin::Sub => math::difference(m, args),
        Builtin::Mul => math::product(m, args),
        Builtin::Div => math::quotient(m, args),
        relation => comparison::compared(relation, args),
    }
}

/// Calls the native procedure that `tag` names.
pub fn call<A: Fn(Operator, u32, u32) -> u32>(tag: Builtin, args: Vec<RLType>, arith: &A) -> (r: RLResult)
    requires
        computes(arith),
    ensures
        outcome(r) == applied(results(arith), tag, models(args@)),
{
    match tag {
        Builtin::Add => math::add(args, arith),
        Builtin::Sub => math::sub(args, arith),
        Builtin::Mul => math::mul(args, arith),
        Builtin::Div => math::div(args, arith),
        Builtin::Gt => comparison::gt(args),
        Builtin::Gte => comparison::gte(args),
        Builtin::Lt => comparison::lt(args),
        Builtin::Lte => comparison::lte(args),
        Builtin::Eq => comparison::eq(args),
    }
}

} // verus!
