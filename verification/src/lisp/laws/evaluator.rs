//! Laws of the evaluator.

use vstd::prelude::*;
use crate::lisp::env::{Scope, bind, resolve};
use crate::lisp::eval::{Evaluated, entered, evaluated, evaluated_args, evaluated_def, evaluated_if, evaluated_list};
use crate::lisp::laws::frames::law_evaluation_spares_frames;
use crate::lisp::laws::scopes::law_binding_spares_other_names;
use crate::lisp::number::Arithmetic;
use crate::lisp::types::{Closure, Failure, Value};

verus! {

/// `(quote x)` means `x` itself, whatever `x` is and whatever the symbols
/// in it are bound to, and leaves the store as it was.
pub proof fn law_quote_is_literal(m: Arithmetic, x: Value, env: nat, store: Seq<Scope>, depth: nat)
    requires
        depth > 0,
    ensures
        evaluated(m, Value::List(seq![Value::Symbol("quote"@), x]), env, store, depth) == (Evaluated {
            result: Ok(x),
            store,
        }),
{
    let items = seq![Value::Symbol("quote"@), x];
    assert(items.drop_first() =~= seq![x]);
    assert(evaluated_list(m, items, env, store, depth).result == Ok::<Value, Failure>(x));
}

/// A symbol that no frame of the chain binds fails with the error that
/// names it, and the store stays as it was.
pub proof fn law_unbound_symbol_fails(m: Arithmetic, name: Seq<char>, env: nat, store: Seq<Scope>, depth: nat)
    requires
        resolve(store, env, name) is None,
    ensures
        evaluated(m, Value::Symbol(name), env, store, depth) == (Evaluated {
            result: Err(Failure::Unbound(name)),
            store,
        }),
{
}

/// Evaluating a symbol or any other atom never changes the store.
pub proof fn law_atoms_leave_the_store(m: Arithmetic, expr: Value, env: nat, store: Seq<Scope>, depth: nat)
    requires
        !(expr is List),
    ensures
        evaluated(m, expr, env, store, depth).store == store,
        !(expr is Symbol) ==> evaluated(m, expr, env, store, depth).result == Ok::<Value, Failure>(expr),
{
}

/// After `(def! name expr)` has succeeded, `name` means in that frame what
/// `expr` meant, whether or not it was bound there before.
pub proof fn law_definition_is_found(
    m: Arithmetic,
    name: Seq<char>,
    expr: Value,
    env: nat,
    store: Seq<Scope>,
    depth: nat,
)
    requires
        env < store.len(),
        evaluated(m, expr, env, store, depth).result is Ok,
    ensures
        ({
            let value = evaluated(m, expr, env, store, depth);
            let defined = evaluated_def(m, seq![Value::Symbol(name), expr], env, store, depth);
            &&& defined.result == Ok::<Value, Failure>(Value::Nil)
            &&& defined.store == bind(value.store, env, name, value.result->Ok_0)
            &&& resolve(defined.store, env, name) == Some(value.result->Ok_0)
        }),
{
    law_evaluation_spares_frames(m, expr, env, store, depth);
}

/// After `(def! name expr)` has succeeded, every other name means, seen
/// from any frame, what it meant once `expr` was evaluated.
pub proof fn law_definition_spares_other_names(
    m: Arithmetic,
    name: Seq<char>,
    expr: Value,
    env: nat,
    store: Seq<Scope>,
    depth: nat,
    from: nat,
    other: Seq<char>,
)
    requires
        env < store.len(),
        evaluated(m, expr, env, store, depth).result is Ok,
        other != name,
    ensures
        ({
            let value = evaluated(m, expr, env, store, depth);
            let defined = evaluated_def(m, seq![Value::Symbol(name), expr], env, store, depth);
            resolve(defined.store, from, other) == resolve(value.store, from, other)
        }),
{
    law_evaluation_spares_frames(m, expr, env, store, depth);
    let value = evaluated(m, expr, env, store, depth);
    law_binding_spares_other_names(value.store, env, name, value.result->Ok_0, from, other);
}

/// `(if cond then else)` means what `then` means where `cond` is true,
/// what `else` means where it is false, and nil where it is neither.
pub proof fn law_if_chooses(
    m: Arithmetic,
    cond: Value,
    then: Value,
    otherwise: Value,
    env: nat,
    store: Seq<Scope>,
    depth: nat,
)
    ensures
        ({
            let condition = evaluated(m, cond, env, store, depth);
            let whole = evaluated_if(m, seq![cond, then, otherwise], env, store, depth);
            match condition.result {
                Ok(Value::True) => whole == evaluated(m, then, env, condition.store, depth),
                Ok(Value::False) => whole == evaluated(m, otherwise, env, condition.store, depth),
                Ok(_) => whole == (Evaluated { result: Ok(Value::Nil), store: condition.store }),
                Err(_) => whole == condition,
            }
        }),
{
}

/// A user procedure called on a number of values other than the number of
/// its parameters fails on the count, and the store stays as it was.
pub proof fn law_wrong_count_fails(
    m: Arithmetic,
    closure: Closure,
    values: Seq<Value>,
    store: Seq<Scope>,
    depth: nat,
)
    requires
        closure.params.len() != values.len(),
    ensures
        entered(m, closure, values, store, depth) == (Evaluated { result: Err(Failure::InvalidArity), store }),
{
}

/// The first argument that fails ends a call: its error is the error of the
/// whole, and no later argument is evaluated.
pub proof fn law_first_error_ends_arguments(
    m: Arithmetic,
    pending: Seq<Value>,
    values: Seq<Value>,
    env: nat,
    store: Seq<Scope>,
    depth: nat,
)
    requires
        pending.len() > 0,
        evaluated(m, pending[0], env, store, depth).result is Err,
    ensures
        evaluated_args(m, pending, values, env, store, depth) == evaluated(m, pending[0], env, store, depth),
{
}

} // verus!
