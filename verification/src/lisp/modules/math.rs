//! Arithmetic on numbers: `+`, `-`, `*` and `/`, each on two operands or more.

use vstd::prelude::*;
use crate::lisp::env::{Env, Environment, Scope, bind};
use crate::lisp::number::{Arithmetic, ONE, ZERO, computes, is_zero, results, zero};
use crate::lisp::types::{Builtin, Failure, Operator, RLError, RLResult, RLType, Value, models, outcome};

verus! {

/// The store after the four arithmetic procedures are bound in frame `env`.
pub open spec fn with_math(store: Seq<Scope>, env: nat) -> Seq<Scope> {
    let store = bind(store, env, "+"@, Value::Proc(Builtin::Add));
    let store = bind(store, env, "-"@, Value::Proc(Builtin::Sub));
    let store = bind(store, env, "*"@, Value::Proc(Builtin::Mul));
    bind(store, env, "/"@, Value::Proc(Builtin::Div))
}

/// Binds `+`, `-`, `*` and `/` in frame `env`.
pub fn add_module(store: &mut Environment, env: Env)
    requires
        old(store).well_formed(),
        env < old(store)@.len(),
    ensures
        final(store).well_formed(),
        final(store)@ == with_math(old(store)@, env as nat),
{
    store.insert(env, "+".to_owned(), RLType::Proc(Builtin::Add));
    store.insert(env, "-".to_owned(), RLType::Proc(Builtin::Sub));
    store.insert(env, "*".to_owned(), RLType::Proc(Builtin::Mul));
    store.insert(env, "/".to_owned(), RLType::Proc(Builtin::Div));
}

/// The operands taken into `acc` from the left, one operation each: the
/// first operand that is no number fails the whole, and so does a zero
/// divisor.
pub open spec fn folded(m: Arithmetic, op: Operator, acc: u32, operands: Seq<Value>) -> Result<u32, Failure>
    decreases operands.len(),
{
    if operands.len() == 0 {
        Ok(acc)
    } else {
        match operands[0] {
            Value::Number(n) => if op == Operator::Div && is_zero(n) {
                Err(Failure::DivisionByZero)
            } else {
                folded(m, op, m(op, acc, n), operands.drop_first())
            },
            other => Err(Failure::NotANumber(other)),
        }
    }
}

/// A folded number as a value.
pub open spec fn number(r: Result<u32, Failure>) -> Result<Value, Failure> {
    match r {
        Ok(bits) => Ok(Value::Number(bits)),
        Err(e) => Err(e),
    }
}

/// `(+ a b ...)`: zero with every operand added, in order.
pub open spec fn sum(m: Arithmetic, args: Seq<Value>) -> Result<Value, Failure> {
    if args.len() < 2 {
        Err(Failure::InvalidArity)
    } else {
        number(folded(m, Operator::Add, ZERO, args))
    }
}

/// `(* a b ...)`: one with every operand multiplied in, in order.
pub open spec fn product(m: Arithmetic, args: Seq<Value>) -> Result<Value, Failure> {
    if args.len() < 2 {
        Err(Failure::InvalidArity)
    } else {
        number(folded(m, Operator::Mul, ONE, args))
    }
}

/// The first operand with every other taken into it by `op`, in order.
pub open spec fn reduced(m: Arithmetic, op: Operator, args: Seq<Value>) -> Result<Value, Failure> {
    if args.len() < 2 {
        Err(Failure::InvalidArity)
    } else {
        match args[0] {
            Value::Number(first) => number(folded(m, op, first, args.drop_first())),
            other => Err(Failure::NotANumber(other)),
        }
    }
}

/// `(- a b ...)`: the first operand with every other subtracted, in order.
pub open spec fn difference(m: Arithmetic, args: Seq<Value>) -> Result<Value, Failure> {
    reduced(m, Operator::Sub, args)
}

/// `(/ a b ...)`: the first operand divided by every other, in order; no
/// divisor may be zero.
pub open spec fn quotient(m: Arithmetic, args: Seq<Value>) -> Result<Value, Failure> {
    reduced(m, Operator::Div, args)
}

/// Takes `args[from..]` into `start` from the left.
fn accumulate<A: Fn(Operator, u32, u32) -> u32>(
    op: Operator,
    start: u32,
    args: &Vec<RLType>,
    from: usize,
    arith: &A,
) -> (r: RLResult)
    requires
        computes(arith),
        from <= args.len(),
    ensures
        outcome(r) == number(folded(results(arith), op, start, models(args@).skip(from as int))),
{
    let ghost m = results(arith);
    let ghost all = models(args@);
    let mut acc = start;
    let mut i: usize = from;
    while i < args.len()
        invariant
            computes(arith),
            m == results(arith),
            all == models(args@),
            from <= i <= args.len(),
            folded(m, op, acc, all.skip(i as int)) == folded(m, op, start, all.skip(from as int)),
        decreases args.len() - i,
    {
        assert(all.skip(i as int).drop_first() =~= all.skip(i + 1));
        match &args[i] {
            RLType::Number(n) => {
                if matches!(op, Operator::Div) && zero(*n) {
                    return Err(RLError::DivisionByZero);
                }
                acc = arith(op, acc, *n);
            },
            other => {
                return Err(RLError::NotANumber(other.clone()));
            },
        }
        i += 1;
    }
    Ok(RLType::Number(acc))
}

/// Takes every operand after the first into the first.
fn reduce<A: Fn(Operator, u32, u32) -> u32>(op: Operator, args: Vec<RLType>, arith: &A) -> (r: RLResult)
    requires
        computes(arith),
    ensures
        outcome(r) == reduced(results(arith), op, models(args@)),
{
    if args.len() >= 2 {
        assert(models(args@).skip(1) =~= models(args@).drop_first());
        match &args[0] {
            RLType::Number(first) => accumulate(op, *first, &args, 1, arith),
            other => Err(RLError::NotANumber(other.clone())),
        }
    } else {
        Err(RLError::InvalidArity)
    }
}

/// The native procedure `+`.
pub fn add<A: Fn(Operator, u32, u32) -> u32>(args: Vec<RLType>, arith: &A) -> (r: RLResult)
    requires
        computes(arith),
    ensures
        outcome(r) == sum(results(arith), models(args@)),
{
    if args.len() >= 2 {
        assert(models(args@).skip(0) =~= models(args@));
        accumulate(Operator::Add, ZERO, &args, 0, arith)
    } else {
        Err(RLError::InvalidArity)
    }
}

/// The native procedure `-`.
pub fn sub<A: Fn(Operator, u32, u32) -> u32>(args: Vec<RLType>, arith: &A) -> (r: RLResult)
    requires
        computes(arith),
    ensures
        outcome(r) == difference(results(arith), models(args@)),
{
    reduce(Operator::Sub, args, arith)
}

/// The native procedure `*`.
pub fn mul<A: Fn(Operator, u32, u32) -> u32>(args: Vec<RLType>, arith: &A) -> (r: RLResult)
    requires
        computes(arith),
    ensures
        outcome(r) == product(results(arith), models(args@)),
{
    if args.len() >= 2 {
        assert(models(args@).skip(0) =~= models(args@));
        accumulate(Operator::Mul, ONE, &args, 0, arith)
    } else {
        Err(RLError::InvalidArity)
    }
}

/// The native procedure `/`.
pub fn div<A: Fn(Operator, u32, u32) -> u32>(args: Vec<RLType>, arith: &A) -> (r: RLResult)
    requires
        computes(arith),
    ensures
        outcome(r) == quotient(results(arith), models(args@)),
{
    reduce(Operator::Div, args, arith)
}

} // verus!
