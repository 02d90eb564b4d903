//! Comparison of numbers: `>`, `>=`, `<`, `<=` and `=`, each on two operands.

use vstd::prelude::*;
use crate::lisp::env::{Env, Environment, Scope, bind};
use crate::lisp::number::{at_most, equal, equal_to, less, less_than, no_more_than};
use crate::lisp::types::{Builtin, Failure, RLError, RLResult, RLType, Value, models, outcome};

verus! {

/// The store after the five comparisons are bound in frame `env`.
pub open spec fn with_comparison(store: Seq<Scope>, env: nat) -> Seq<Scope> {
    let store = bind(store, env, ">"@, Value::Proc(Builtin::Gt));
    let store = bind(store, env, ">="@, Value::Proc(Builtin::Gte));
    let store = bind(store, env, "<"@, Value::Proc(Builtin::Lt));
    let store = bind(store, env, "<="@, Value::Proc(Builtin::Lte));
    bind(store, env, "="@, Value::Proc(Builtin::Eq))
}

/// Binds `>`, `>=`, `<`, `<=` and `=` in frame `env`.
pub fn add_module(store: &mut Environment, env: Env)
    requires
        old(store).well_formed(),
        env < old(store)@.len(),
    ensures
        final(store).well_formed(),
        final(store)@ == with_comparison(old(store)@, env as nat),
{
    store.insert(env, ">".to_owned(), RLType::Proc(Builtin::Gt));
    store.insert(env, ">=".to_owned(), RLType::Proc(Builtin::Gte));
    store.insert(env, "<".to_owned(), RLType::Proc(Builtin::Lt));
    store.insert(env, "<=".to_owned(), RLType::Proc(Builtin::Lte));
    store.insert(env, "=".to_owned(), RLType::Proc(Builtin::Eq));
}

/// The two numbers that a comparison is given: anything but two operands
/// fails on the count, and then the first operand that is no number fails.
pub open spec fn operands(args: Seq<Value>) -> Result<(u32, u32), Failure> {
    if args.len() != 2 {
        Err(Failure::InvalidArity)
    } else {
        match args[0] {
            Value::Number(left) => match args[1] {
                Value::Number(right) => Ok((left, right)),
                other => Err(Failure::NotANumber(other)),
            },
            other => Err(Failure::NotANumber(other)),
        }
    }
}

/// A truth value as a value.
pub open spec fn truth(holds: bool) -> Value {
    if holds {
        Value::True
    } else {
        Value::False
    }
}

/// What each comparison says of two numbers.
pub open spec fn holds(relation: Builtin, left: u32, right: u32) -> bool {
    match relation {
        Builtin::Gt => less(right, left),
        Builtin::Gte => at_most(right, left),
        Builtin::Lt => less(left, right),
        Builtin::Lte => at_most(left, right),
        _ => equal(left, right),
    }
}

/// The result of a comparison on its arguments.
pub open spec fn compared(relation: Builtin, args: Seq<Value>) -> Result<Value, Failure> {
    match operands(args) {
        Ok((left, right)) => Ok(truth(holds(relation, left, right))),
        Err(e) => Err(e),
    }
}

/// The two numbers among the arguments of a comparison.
pub fn check_two_numbers(args: Vec<RLType>) -> (r: Result<(u32, u32), RLError>)
    ensures
        match r {
            Ok(pair) => operands(models(args@)) == Ok::<(u32, u32), Failure>(pair),
            Err(e) => operands(models(args@)) == Err::<(u32, u32), Failure>(e@),
        },
{
    if args.len() != 2 {
        return Err(RLError::InvalidArity);
    }
    match &args[0] {
        RLType::Number(left) => match &args[1] {
            RLType::Number(right) => Ok((*left, *right)),
            other => Err(RLError::NotANumber(other.clone())),
        },
        other => Err(RLError::NotANumber(other.clone())),
    }
}

fn answer(holds: bool) -> (r: RLType)
    ensures
        r@ == truth(holds),
{
    if holds {
        RLType::True
    } else {
        RLType::False
    }
}

/// The native procedure `>`.
pub fn gt(args: Vec<RLType>) -> (r: RLResult)
    ensures
        outcome(r) == compared(Builtin::Gt, models(args@)),
{
    match check_two_numbers(args) {
        Ok((left, right)) => Ok(answer(less_than(right, left))),
        Err(e) => Err(e),
    }
}

/// The native procedure `>=`.
pub fn gte(args: Vec<RLType>) -> (r: RLResult)
    ensures
        outcome(r) == compared(Builtin::Gte, models(args@)),
{
    match check_two_numbers(args) {
        Ok((left, right)) => Ok(answer(no_more_than(right, left))),
        Err(e) => Err(e),
    }
}

/// The native procedure `<`.
pub fn lt(args: Vec<RLType>) -> (r: RLResult)
    ensures
        outcome(r) == compared(Builtin::Lt, models(args@)),
{
    match check_two_numbers(args) {
        Ok((left, right)) => Ok(answer(less_than(left, right))),
        Err(e) => Err(e),
    }
}

/// The native procedure `<=`.
pub fn lte(args: Vec<RLType>) -> (r: RLResult)
    ensures
        outcome(r) == compared(Builtin::Lte, models(args@)),
{
    match check_two_numbers(args) {
        Ok((left, right)) => Ok(answer(no_more_than(left, right))),
        Err(e) => Err(e),
    }
}

/// The native procedure `=`.
pub fn eq(args: Vec<RLType>) -> (r: RLResult)
    ensures
        outcome(r) == compared(Builtin::Eq, models(args@)),
{
    match check_two_numbers(args) {
        Ok((left, right)) => Ok(answer(equal_to(left, right))),
        Err(e) => Err(e),
    }
}

} // verus!
