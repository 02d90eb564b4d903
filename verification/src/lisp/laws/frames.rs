//! Frames under evaluation: an evaluation binds only in the frame it runs
//! in and in frames that it makes. Every frame that was there before is
//! still there, enclosed as it was, and every other one of them has the
//! bindings it had.

use vstd::prelude::*;
use crate::lisp::env::{Scope, bind, bind_all, extend, resolve};
use crate::lisp::eval::{
    SpecialForm, applied_lambda, applied_proc, entered, evaluated, evaluated_args, evaluated_call,
    evaluated_def, evaluated_do, evaluated_form, evaluated_if, evaluated_list, special,
};
use crate::lisp::number::Arithmetic;
use crate::lisp::types::{Builtin, Closure, Value};

verus! {

/// Whether `after` has every frame of `before`, each enclosed as it was
/// and with every name still bound that it bound, and each but frame `env`
/// just as it was.
pub open spec fn spares(before: Seq<Scope>, after: Seq<Scope>, env: nat) -> bool {
    &&& before.len() <= after.len()
    &&& forall|i: int|
        0 <= i < before.len() ==> {
            &&& (#[trigger] after[i]).outer == before[i].outer
            &&& i != env ==> after[i] == before[i]
            &&& before[i].bindings.dom().subset_of(after[i].bindings.dom())
        }
}

/// Sparing goes on: what spares a store, and is spared in turn, is spared.
pub proof fn lemma_spares_onward(before: Seq<Scope>, between: Seq<Scope>, after: Seq<Scope>, env: nat)
    requires
        spares(before, between, env),
        spares(between, after, env),
    ensures
        spares(before, after, env),
{
    assert forall|i: int| 0 <= i < before.len() implies {
        &&& (#[trigger] after[i]).outer == before[i].outer
        &&& i != env ==> after[i] == before[i]
        &&& before[i].bindings.dom().subset_of(after[i].bindings.dom())
    } by {
        assert(after[i].outer == between[i].outer);
        assert(between[i].outer == before[i].outer);
        assert(before[i].bindings.dom().subset_of(between[i].bindings.dom()));
        assert(between[i].bindings.dom().subset_of(after[i].bindings.dom()));
    }
}

/// What leaves every frame as it was spares all but any one frame.
pub proof fn lemma_spares_all(before: Seq<Scope>, after: Seq<Scope>, env: nat)
    requires
        spares(before, after, before.len()),
    ensures
        spares(before, after, env),
{
    assert forall|i: int| 0 <= i < before.len() implies {
        &&& (#[trigger] after[i]).outer == before[i].outer
        &&& i != env ==> after[i] == before[i]
        &&& before[i].bindings.dom().subset_of(after[i].bindings.dom())
    } by {
        assert(after[i] == before[i]);
    }
}

/// Binding in a frame spares every other frame.
pub proof fn lemma_bind_spares(store: Seq<Scope>, env: nat, name: Seq<char>, value: Value)
    requires
        env < store.len(),
    ensures
        spares(store, bind(store, env, name, value), env),
        bind(store, env, name, value).len() == store.len(),
{
}

/// Binding several names in a frame spares every other frame.
pub proof fn lemma_bind_all_spares(store: Seq<Scope>, env: nat, names: Seq<Seq<char>>, values: Seq<Value>)
    requires
        env < store.len(),
    ensures
        spares(store, bind_all(store, env, names, values), env),
        bind_all(store, env, names, values).len() == store.len(),
    decreases names.len(),
{
    if names.len() == 0 || values.len() == 0 {
    } else {
        let next = bind(store, env, names[0], values[0]);
        lemma_bind_spares(store, env, names[0], values[0]);
        lemma_bind_all_spares(next, env, names.drop_first(), values.drop_first());
        lemma_spares_onward(store, next, bind_all(next, env, names.drop_first(), values.drop_first()), env);
    }
}

/// An evaluation in frame `env` never shortens the store, keeps every
/// frame enclosed as it was, and leaves every frame that was there, other
/// than `env`, with exactly the bindings it had. In frame `env` a name may
/// come to mean something else, but no name is lost.
pub proof fn law_evaluation_spares_frames(m: Arithmetic, expr: Value, env: nat, store: Seq<Scope>, depth: nat)
    requires
        env < store.len(),
    ensures
        spares(store, evaluated(m, expr, env, store, depth).store, env),
        store.len() <= evaluated(m, expr, env, store, depth).store.len(),
    decreases depth, 1nat, 0nat,
{
    match expr {
        Value::List(items) => {
            lemma_list_spares(m, items, env, store, depth);
        },
        _ => {},
    }
}

proof fn lemma_list_spares(m: Arithmetic, items: Seq<Value>, env: nat, store: Seq<Scope>, depth: nat)
    requires
        env < store.len(),
    ensures
        spares(store, evaluated_list(m, items, env, store, depth).store, env),
    decreases depth, 0nat, 0nat,
{
    if items.len() > 0 && depth > 0 {
        let inner = (depth - 1) as nat;
        let args = items.drop_first();
        match items[0] {
            Value::Symbol(name) => match special(name) {
                Some(form) => {
                    lemma_form_spares(m, form, args, env, store, inner);
                },
                None => {
                    lemma_call_spares(m, name, args, env, store, inner);
                },
            },
            head => {
                law_evaluation_spares_frames(m, head, env, store, inner);
                let first = evaluated(m, head, env, store, inner);
                match first.result {
                    Ok(Value::Proc(tag)) => {
                        lemma_proc_spares(m, tag, args, env, first.store, inner);
                        lemma_spares_onward(
                            store,
                            first.store,
                            applied_proc(m, tag, args, env, first.store, inner).store,
                            env,
                        );
                    },
                    Ok(Value::Lambda(closure)) => {
                        lemma_lambda_spares(m, closure, args, env, first.store, inner);
                        lemma_spares_onward(
                            store,
                            first.store,
                            applied_lambda(m, closure, args, env, first.store, inner).store,
                            env,
                        );
                    },
                    _ => {},
                }
            },
        }
    }
}

proof fn lemma_form_spares(
    m: Arithmetic,
    form: SpecialForm,
    args: Seq<Value>,
    env: nat,
    store: Seq<Scope>,
    depth: nat,
)
    requires
        env < store.len(),
    ensures
        spares(store, evaluated_form(m, form, args, env, store, depth).store, env),
    decreases depth, 9nat, 0nat,
{
    match form {
        SpecialForm::If => {
            lemma_if_spares(m, args, env, store, depth);
        },
        SpecialForm::Def => {
            lemma_def_spares(m, args, env, store, depth);
        },
        SpecialForm::Do => {
            lemma_do_spares(m, args, env, store, depth);
        },
        SpecialForm::List => {
            lemma_args_spares(m, args, Seq::empty(), env, store, depth);
        },
        _ => {},
    }
}

proof fn lemma_if_spares(m: Arithmetic, args: Seq<Value>, env: nat, store: Seq<Scope>, depth: nat)
    requires
        env < store.len(),
    ensures
        spares(store, evaluated_if(m, args, env, store, depth).store, env),
    decreases depth, 5nat, 0nat,
{
    if args.len() >= 2 {
        law_evaluation_spares_frames(m, args[0], env, store, depth);
        let condition = evaluated(m, args[0], env, store, depth);
        match condition.result {
            Ok(Value::True) => {
                law_evaluation_spares_frames(m, args[1], env, condition.store, depth);
                lemma_spares_onward(
                    store,
                    condition.store,
                    evaluated(m, args[1], env, condition.store, depth).store,
                    env,
                );
            },
            Ok(Value::False) => {
                if args.len() == 3 {
                    law_evaluation_spares_frames(m, args[2], env, condition.store, depth);
                    lemma_spares_onward(
                        store,
                        condition.store,
                        evaluated(m, args[2], env, condition.store, depth).store,
                        env,
                    );
                }
            },
            _ => {},
        }
    }
}

proof fn lemma_def_spares(m: Arithmetic, args: Seq<Value>, env: nat, store: Seq<Scope>, depth: nat)
    requires
        env < store.len(),
    ensures
        spares(store, evaluated_def(m, args, env, store, depth).store, env),
    decreases depth, 5nat, 0nat,
{
    if args.len() >= 2 {
        match args[0] {
            Value::Symbol(name) => {
                law_evaluation_spares_frames(m, args[1], env, store, depth);
                let value = evaluated(m, args[1], env, store, depth);
                match value.result {
                    Ok(v) => {
                        lemma_bind_spares(value.store, env, name, v);
                        lemma_spares_onward(store, value.store, bind(value.store, env, name, v), env);
                    },
                    Err(_) => {},
                }
            },
            _ => {},
        }
    }
}

proof fn lemma_do_spares(m: Arithmetic, args: Seq<Value>, env: nat, store: Seq<Scope>, depth: nat)
    requires
        env < store.len(),
    ensures
        spares(store, evaluated_do(m, args, env, store, depth).store, env),
    decreases depth, 5nat, args.len(),
{
    if args.len() > 0 {
        law_evaluation_spares_frames(m, args[0], env, store, depth);
        let first = evaluated(m, args[0], env, store, depth);
        if args.len() > 1 {
            match first.result {
                Ok(_) => {
                    lemma_do_spares(m, args.drop_first(), env, first.store, depth);
                    lemma_spares_onward(
                        store,
                        first.store,
                        evaluated_do(m, args.drop_first(), env, first.store, depth).store,
                        env,
                    );
                },
                Err(_) => {},
            }
        }
    }
}

proof fn lemma_args_spares(
    m: Arithmetic,
    pending: Seq<Value>,
    values: Seq<Value>,
    env: nat,
    store: Seq<Scope>,
    depth: nat,
)
    requires
        env < store.len(),
    ensures
        spares(store, evaluated_args(m, pending, values, env, store, depth).store, env),
    decreases depth, 2nat, pending.len(),
{
    if pending.len() > 0 {
        law_evaluation_spares_frames(m, pending[0], env, store, depth);
        let first = evaluated(m, pending[0], env, store, depth);
        match first.result {
            Ok(value) => {
                lemma_args_spares(m, pending.drop_first(), values.push(value), env, first.store, depth);
                lemma_spares_onward(
                    store,
                    first.store,
                    evaluated_args(m, pending.drop_first(), values.push(value), env, first.store, depth).store,
                    env,
                );
            },
            Err(_) => {},
        }
    }
}

proof fn lemma_call_spares(
    m: Arithmetic,
    name: Seq<char>,
    args: Seq<Value>,
    env: nat,
    store: Seq<Scope>,
    depth: nat,
)
    requires
        env < store.len(),
    ensures
        spares(store, evaluated_call(m, name, args, env, store, depth).store, env),
    decreases depth, 8nat, 0nat,
{
    match resolve(store, env, name) {
        Some(Value::Proc(tag)) => {
            lemma_proc_spares(m, tag, args, env, store, depth);
        },
        Some(Value::Lambda(closure)) => {
            lemma_lambda_spares(m, closure, args, env, store, depth);
        },
        _ => {},
    }
}

proof fn lemma_proc_spares(
    m: Arithmetic,
    tag: Builtin,
    args: Seq<Value>,
    env: nat,
    store: Seq<Scope>,
    depth: nat,
)
    requires
        env < store.len(),
    ensures
        spares(store, applied_proc(m, tag, args, env, store, depth).store, env),
    decreases depth, 7nat, 0nat,
{
    lemma_args_spares(m, args, Seq::empty(), env, store, depth);
}

proof fn lemma_lambda_spares(
    m: Arithmetic,
    closure: Closure,
    args: Seq<Value>,
    env: nat,
    store: Seq<Scope>,
    depth: nat,
)
    requires
        env < store.len(),
    ensures
        spares(store, applied_lambda(m, closure, args, env, store, depth).store, env),
    decreases depth, 7nat, 0nat,
{
    lemma_args_spares(m, args, Seq::empty(), env, store, depth);
    let given = evaluated_args(m, args, Seq::empty(), env, store, depth);
    match given.result {
        Ok(Value::List(values)) => {
            law_call_spares_frames(m, closure, values, given.store, depth);
            let after = entered(m, closure, values, given.store, depth).store;
            lemma_spares_all(given.store, after, env);
            lemma_spares_onward(store, given.store, after, env);
        },
        _ => {},
    }
}

/// A call of a user procedure leaves every frame that was there before the
/// call just as it was: what it binds, it binds in frames of its own.
pub proof fn law_call_spares_frames(
    m: Arithmetic,
    closure: Closure,
    values: Seq<Value>,
    store: Seq<Scope>,
    depth: nat,
)
    ensures
        spares(store, entered(m, closure, values, store, depth).store, store.len()),
        forall|i: int| 0 <= i < store.len() ==> #[trigger] entered(m, closure, values, store, depth).store[i] == store[i],
    decreases depth, 6nat, 0nat,
{
    if closure.params.len() == values.len() && closure.scope < store.len() {
        let frame = store.len();
        let opened = extend(store, closure.scope);
        lemma_bind_all_spares(opened, frame, closure.params, values);
        let inside = bind_all(opened, frame, closure.params, values);
        assert(spares(store, inside, frame)) by {
            assert forall|i: int| 0 <= i < store.len() implies {
                &&& (#[trigger] inside[i]).outer == store[i].outer
                &&& i != frame ==> inside[i] == store[i]
                &&& store[i].bindings.dom().subset_of(inside[i].bindings.dom())
            } by {
                assert(inside[i] == opened[i]);
                assert(opened[i] == store[i]);
            }
        }
        law_evaluation_spares_frames(m, *closure.body, frame, inside, depth);
        lemma_spares_onward(store, inside, evaluated(m, *closure.body, frame, inside, depth).store, frame);
    }
}

} // verus!
