//! Depth decides only whether an evaluation is carried through: an answer
//! reached within some depth is the answer within any greater depth.

use vstd::prelude::*;
use crate::lisp::env::{Scope, bind_all, extend, resolve};
use crate::lisp::eval::{
    Evaluated, SpecialForm, applied_lambda, applied_proc, entered, evaluated, evaluated_args, evaluated_call,
    evaluated_def, evaluated_do, evaluated_form, evaluated_if, evaluated_list, special,
};
use crate::lisp::number::Arithmetic;
use crate::lisp::types::{Builtin, Closure, Failure, Value};

verus! {

/// Whether an evaluation was carried through: it did not stop for want of
/// depth.
pub open spec fn settled(r: Evaluated) -> bool {
    r.result != Err::<Value, Failure>(Failure::DepthExceeded)
}

/// An evaluation that was carried through within `depth` gives the same
/// result and the same store within any greater depth.
pub proof fn law_depth_is_enough(
    m: Arithmetic,
    expr: Value,
    env: nat,
    store: Seq<Scope>,
    depth: nat,
    more: nat,
)
    requires
        depth <= more,
        settled(evaluated(m, expr, env, store, depth)),
    ensures
        evaluated(m, expr, env, store, more) == evaluated(m, expr, env, store, depth),
    decreases depth, 1nat, 0nat,
{
    match expr {
        Value::List(items) => {
            lemma_list_settled(m, items, env, store, depth, more);
        },
        _ => {},
    }
}

proof fn lemma_list_settled(m: Arithmetic, items: Seq<Value>, env: nat, store: Seq<Scope>, depth: nat, more: nat)
    requires
        depth <= more,
        settled(evaluated_list(m, items, env, store, depth)),
    ensures
        evaluated_list(m, items, env, store, more) == evaluated_list(m, items, env, store, depth),
    decreases depth, 0nat, 0nat,
{
    if items.len() > 0 {
        let inner = (depth - 1) as nat;
        let wider = (more - 1) as nat;
        let args = items.drop_first();
        match items[0] {
            Value::Symbol(name) => match special(name) {
                Some(form) => {
                    lemma_form_settled(m, form, args, env, store, inner, wider);
                },
                None => {
                    lemma_call_settled(m, name, args, env, store, inner, wider);
                },
            },
            head => {
                law_depth_is_enough(m, head, env, store, inner, wider);
                let first = evaluated(m, head, env, store, inner);
                match first.result {
                    Ok(Value::Proc(tag)) => {
                        lemma_proc_settled(m, tag, args, env, first.store, inner, wider);
                    },
                    Ok(Value::Lambda(closure)) => {
                        lemma_lambda_settled(m, closure, args, env, first.store, inner, wider);
                    },
                    _ => {},
                }
            },
        }
    }
}

proof fn lemma_form_settled(
    m: Arithmetic,
    form: SpecialForm,
    args: Seq<Value>,
    env: nat,
    store: Seq<Scope>,
    depth: nat,
    more: nat,
)
    requires
        depth <= more,
        settled(evaluated_form(m, form, args, env, store, depth)),
    ensures
        evaluated_form(m, form, args, env, store, more) == evaluated_form(m, form, args, env, store, depth),
    decreases depth, 9nat, 0nat,
{
    match form {
        SpecialForm::If => {
            lemma_if_settled(m, args, env, store, depth, more);
        },
        SpecialForm::Def => {
            lemma_def_settled(m, args, env, store, depth, more);
        },
        SpecialForm::Do => {
            lemma_do_settled(m, args, env, store, depth, more);
        },
        SpecialForm::List => {
            lemma_args_settled(m, args, Seq::empty(), env, store, depth, more);
        },
        _ => {},
    }
}

proof fn lemma_if_settled(m: Arithmetic, args: Seq<Value>, env: nat, store: Seq<Scope>, depth: nat, more: nat)
    requires
        depth <= more,
        settled(evaluated_if(m, args, env, store, depth)),
    ensures
        evaluated_if(m, args, env, store, more) == evaluated_if(m, args, env, store, depth),
    decreases depth, 5nat, 0nat,
{
    if args.len() >= 2 {
        law_depth_is_enough(m, args[0], env, store, depth, more);
        let condition = evaluated(m, args[0], env, store, depth);
        match condition.result {
            Ok(Value::True) => {
                law_depth_is_enough(m, args[1], env, condition.store, depth, more);
            },
            Ok(Value::False) => {
                if args.len() == 3 {
                    law_depth_is_enough(m, args[2], env, condition.store, depth, more);
                }
            },
            _ => {},
        }
    }
}

proof fn lemma_def_settled(m: Arithmetic, args: Seq<Value>, env: nat, store: Seq<Scope>, depth: nat, more: nat)
    requires
        depth <= more,
        settled(evaluated_def(m, args, env, store, depth)),
    ensures
        evaluated_def(m, args, env, store, more) == evaluated_def(m, args, env, store, depth),
    decreases depth, 5nat, 0nat,
{
    if args.len() >= 2 {
        match args[0] {
            Value::Symbol(_) => {
                law_depth_is_enough(m, args[1], env, store, depth, more);
            },
            _ => {},
        }
    }
}

proof fn lemma_do_settled(m: Arithmetic, args: Seq<Value>, env: nat, store: Seq<Scope>, depth: nat, more: nat)
    requires
        depth <= more,
        settled(evaluated_do(m, args, env, store, depth)),
    ensures
        evaluated_do(m, args, env, store, more) == evaluated_do(m, args, env, store, depth),
    decreases depth, 5nat, args.len(),
{
    if args.len() > 0 {
        law_depth_is_enough(m, args[0], env, store, depth, more);
        let first = evaluated(m, args[0], env, store, depth);
        if args.len() > 1 {
            match first.result {
                Ok(_) => {
                    lemma_do_settled(m, args.drop_first(), env, first.store, depth, more);
                },
                Err(_) => {},
            }
        }
    }
}

proof fn lemma_args_settled(
    m: Arithmetic,
    pending: Seq<Value>,
    values: Seq<Value>,
    env: nat,
    store: Seq<Scope>,
    depth: nat,
    more: nat,
)
    requires
        depth <= more,
        settled(evaluated_args(m, pending, values, env, store, depth)),
    ensures
        evaluated_args(m, pending, values, env, store, more) == evaluated_args(
            m,
            pending,
            values,
            env,
            store,
            depth,
        ),
    decreases depth, 2nat, pending.len(),
{
    if pending.len() > 0 {
        law_depth_is_enough(m, pending[0], env, store, depth, more);
        let first = evaluated(m, pending[0], env, store, depth);
        match first.result {
            Ok(value) => {
                lemma_args_settled(m, pending.drop_first(), values.push(value), env, first.store, depth, more);
            },
            Err(_) => {},
        }
    }
}

proof fn lemma_call_settled(
    m: Arithmetic,
    name: Seq<char>,
    args: Seq<Value>,
    env: nat,
    store: Seq<Scope>,
    depth: nat,
    more: nat,
)
    requires
        depth <= more,
        settled(evaluated_call(m, name, args, env, store, depth)),
    ensures
        evaluated_call(m, name, args, env, store, more) == evaluated_call(m, name, args, env, store, depth),
    decreases depth, 8nat, 0nat,
{
    match resolve(store, env, name) {
        Some(Value::Proc(tag)) => {
            lemma_proc_settled(m, tag, args, env, store, depth, more);
        },
        Some(Value::Lambda(closure)) => {
            lemma_lambda_settled(m, closure, args, env, store, depth, more);
        },
        _ => {},
    }
}

proof fn lemma_proc_settled(
    m: Arithmetic,
    tag: Builtin,
    args: Seq<Value>,
    env: nat,
    store: Seq<Scope>,
    depth: nat,
    more: nat,
)
    requires
        depth <= more,
        settled(applied_proc(m, tag, args, env, store, depth)),
    ensures
        applied_proc(m, tag, args, env, store, more) == applied_proc(m, tag, args, env, store, depth),
    decreases depth, 7nat, 0nat,
{
    lemma_args_settled(m, args, Seq::empty(), env, store, depth, more);
}

proof fn lemma_lambda_settled(
    m: Arithmetic,
    closure: Closure,
    args: Seq<Value>,
    env: nat,
    store: Seq<Scope>,
    depth: nat,
    more: nat,
)
    requires
        depth <= more,
        settled(applied_lambda(m, closure, args, env, store, depth)),
    ensures
        applied_lambda(m, closure, args, env, store, more) == applied_lambda(m, closure, args, env, store, depth),
    decreases depth, 7nat, 0nat,
{
    lemma_args_settled(m, args, Seq::empty(), env, store, depth, more);
    let given = evaluated_args(m, args, Seq::empty(), env, store, depth);
    match given.result {
        Ok(Value::List(values)) => {
            lemma_entered_settled(m, closure, values, given.store, depth, more);
        },
        _ => {},
    }
}

proof fn lemma_entered_settled(
    m: Arithmetic,
    closure: Closure,
    values: Seq<Value>,
    store: Seq<Scope>,
    depth: nat,
    more: nat,
)
    requires
        depth <= more,
        settled(entered(m, closure, values, store, depth)),
    ensures
        entered(m, closure, values, store, more) == entered(m, closure, values, store, depth),
    decreases depth, 6nat, 0nat,
{
    if closure.params.len() == values.len() && closure.scope < store.len() {
        let frame = store.len();
        let inside = bind_all(extend(store, closure.scope), frame, closure.params, values);
        law_depth_is_enough(m, *closure.body, frame, inside, depth, more);
    }
}

} // verus!
