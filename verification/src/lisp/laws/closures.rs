//! Procedures and their frames: in a sound store every procedure belongs
//! to a frame of the store, and evaluation keeps it so.

use vstd::prelude::*;
use crate::lisp::env::{Scope, base, bind, bind_all, chained, extend, fresh, resolve};
use crate::lisp::eval::{
    Evaluated, SpecialForm, applied_lambda, applied_proc, entered, evaluated, evaluated_args, evaluated_call,
    evaluated_def, evaluated_do, evaluated_form, evaluated_if, evaluated_list, evaluated_source, parameters,
    special,
};
use crate::lisp::lex::{parsed, parsed_list, tokens_of};
use crate::lisp::modules::applied;
use crate::lisp::modules::comparison::with_comparison;
use crate::lisp::modules::math::{folded, with_math};
use crate::lisp::number::{Arithmetic, Reading};
use crate::lisp::types::{Builtin, Closure, Failure, Operator, Value};

verus! {

/// Whether every procedure inside `value` belongs to one of the first
/// `frames` frames.
pub open spec fn scoped(value: Value, frames: nat) -> bool
    decreases value,
{
    match value {
        Value::Lambda(closure) => closure.scope < frames && scoped(*closure.body, frames),
        Value::List(items) => forall|i: int| 0 <= i < items.len() ==> scoped(#[trigger] items[i], frames),
        _ => true,
    }
}

/// Whether each of `items` is scoped.
pub open spec fn all_scoped(items: Seq<Value>, frames: nat) -> bool {
    forall|i: int| 0 <= i < items.len() ==> scoped(#[trigger] items[i], frames)
}

/// Whether a store is sound: its frames are chained, and every value bound
/// in it is scoped by its frames.
pub open spec fn sound(store: Seq<Scope>) -> bool {
    &&& chained(store)
    &&& forall|i: int, name: Seq<char>|
        0 <= i < store.len() && #[trigger] store[i].bindings.contains_key(name) ==> scoped(
            store[i].bindings[name],
            store.len(),
        )
}

/// Whether `after` keeps the frames of `before`: each is still there,
/// enclosed by the frame that enclosed it.
pub open spec fn persists(before: Seq<Scope>, after: Seq<Scope>) -> bool {
    &&& before.len() <= after.len()
    &&& forall|i: int| 0 <= i < before.len() ==> (#[trigger] after[i]).outer == before[i].outer
}

/// What evaluation keeps: the store stays sound, its frames persist, a
/// value that results is scoped by the store that results, and the error is
/// never that of a procedure without its frame.
pub open spec fn kept(before: Seq<Scope>, after: Evaluated) -> bool {
    &&& sound(after.store)
    &&& persists(before, after.store)
    &&& match after.result {
        Ok(value) => scoped(value, after.store.len()),
        Err(Failure::InvalidValue(_)) => false,
        Err(_) => true,
    }
}

/// What is scoped by some frames is scoped by more.
pub proof fn lemma_scoped_grows(value: Value, frames: nat, more: nat)
    requires
        scoped(value, frames),
        frames <= more,
    ensures
        scoped(value, more),
    decreases value,
{
    match value {
        Value::Lambda(closure) => {
            lemma_scoped_grows(*closure.body, frames, more);
        },
        Value::List(items) => {
            assert forall|i: int| 0 <= i < items.len() implies scoped(#[trigger] items[i], more) by {
                lemma_scoped_grows(items[i], frames, more);
            }
        },
        _ => {},
    }
}

proof fn lemma_all_scoped_grows(items: Seq<Value>, frames: nat, more: nat)
    requires
        all_scoped(items, frames),
        frames <= more,
    ensures
        all_scoped(items, more),
{
    assert forall|i: int| 0 <= i < items.len() implies scoped(#[trigger] items[i], more) by {
        lemma_scoped_grows(items[i], frames, more);
    }
}

proof fn lemma_rest_scoped(items: Seq<Value>, frames: nat)
    requires
        all_scoped(items, frames),
        items.len() > 0,
    ensures
        all_scoped(items.drop_first(), frames),
        scoped(items[0], frames),
{
    assert forall|i: int| 0 <= i < items.drop_first().len() implies scoped(
        #[trigger] items.drop_first()[i],
        frames,
    ) by {
        assert(items.drop_first()[i] == items[i + 1]);
    }
}

proof fn lemma_pushed_scoped(items: Seq<Value>, value: Value, frames: nat)
    requires
        all_scoped(items, frames),
        scoped(value, frames),
    ensures
        all_scoped(items.push(value), frames),
{
    assert forall|i: int| 0 <= i < items.push(value).len() implies scoped(#[trigger] items.push(value)[i], frames) by {
        if i < items.len() {
            assert(items.push(value)[i] == items[i]);
        }
    }
}

/// In a sound store a name means a scoped value.
pub proof fn lemma_resolved_scoped(store: Seq<Scope>, env: nat, name: Seq<char>)
    requires
        sound(store),
    ensures
        resolve(store, env, name) matches Some(value) ==> scoped(value, store.len()),
    decreases env,
{
    if env < store.len() {
        if store[env as int].bindings.contains_key(name) {
        } else {
            match store[env as int].outer {
                Some(o) => {
                    if o < env {
                        lemma_resolved_scoped(store, o, name);
                    }
                },
                None => {},
            }
        }
    }
}

/// Binding a scoped value keeps a store sound.
pub proof fn lemma_bind_sound(store: Seq<Scope>, env: nat, name: Seq<char>, value: Value)
    requires
        sound(store),
        env < store.len(),
        scoped(value, store.len()),
    ensures
        sound(bind(store, env, name, value)),
        persists(store, bind(store, env, name, value)),
        bind(store, env, name, value).len() == store.len(),
{
    let after = bind(store, env, name, value);
    assert forall|i: int| 0 <= i < after.len() implies ((#[trigger] after[i]).outer matches Some(o) ==> o < i) by {
        assert(after[i].outer == store[i].outer);
    }
    assert forall|i: int, key: Seq<char>|
        0 <= i < after.len() && #[trigger] after[i].bindings.contains_key(key) implies scoped(
        after[i].bindings[key],
        after.len(),
    ) by {
        if i == env && key == name {
        } else {
            assert(store[i].bindings.contains_key(key));
            assert(after[i].bindings[key] == store[i].bindings[key]);
        }
    }
}

/// A new frame keeps a store sound.
pub proof fn lemma_extend_sound(store: Seq<Scope>, outer: nat)
    requires
        sound(store),
        outer < store.len(),
    ensures
        sound(extend(store, outer)),
        persists(store, extend(store, outer)),
        extend(store, outer).len() == store.len() + 1,
{
    let after = extend(store, outer);
    assert forall|i: int| 0 <= i < after.len() implies ((#[trigger] after[i]).outer matches Some(o) ==> o < i) by {
        if i < store.len() {
            assert(after[i] == store[i]);
        }
    }
    assert forall|i: int, key: Seq<char>|
        0 <= i < after.len() && #[trigger] after[i].bindings.contains_key(key) implies scoped(
        after[i].bindings[key],
        after.len(),
    ) by {
        if i < store.len() {
            assert(after[i] == store[i]);
            assert(store[i].bindings.contains_key(key));
            lemma_scoped_grows(store[i].bindings[key], store.len(), after.len());
        }
    }
}

/// Binding scoped values, one after the other, keeps a store sound.
pub proof fn lemma_bind_all_sound(store: Seq<Scope>, env: nat, names: Seq<Seq<char>>, values: Seq<Value>)
    requires
        sound(store),
        env < store.len(),
        all_scoped(values, store.len()),
    ensures
        sound(bind_all(store, env, names, values)),
        persists(store, bind_all(store, env, names, values)),
        bind_all(store, env, names, values).len() == store.len(),
    decreases names.len(),
{
    if names.len() == 0 || values.len() == 0 {
    } else {
        let next = bind(store, env, names[0], values[0]);
        lemma_rest_scoped(values, store.len());
        lemma_bind_sound(store, env, names[0], values[0]);
        lemma_bind_all_sound(next, env, names.drop_first(), values.drop_first());
    }
}

proof fn lemma_folded_fails_plainly(m: Arithmetic, op: Operator, acc: u32, operands: Seq<Value>)
    ensures
        !(folded(m, op, acc, operands) matches Err(Failure::InvalidValue(_))),
    decreases operands.len(),
{
    if operands.len() > 0 {
        match operands[0] {
            Value::Number(n) => {
                lemma_folded_fails_plainly(m, op, m(op, acc, n), operands.drop_first());
            },
            _ => {},
        }
    }
}

/// A native procedure returns a number or a truth value, and fails only on
/// its operands.
pub proof fn lemma_applied_plain(m: Arithmetic, tag: Builtin, args: Seq<Value>, frames: nat)
    ensures
        match applied(m, tag, args) {
            Ok(value) => scoped(value, frames),
            Err(Failure::InvalidValue(_)) => false,
            Err(_) => true,
        },
{
    lemma_folded_fails_plainly(m, Operator::Add, crate::lisp::number::ZERO, args);
    lemma_folded_fails_plainly(m, Operator::Mul, crate::lisp::number::ONE, args);
    if args.len() >= 2 {
        match args[0] {
            Value::Number(first) => {
                lemma_folded_fails_plainly(m, Operator::Sub, first, args.drop_first());
                lemma_folded_fails_plainly(m, Operator::Div, first, args.drop_first());
            },
            _ => {},
        }
    }
}

proof fn lemma_kept_onward(before: Seq<Scope>, between: Seq<Scope>, after: Evaluated)
    requires
        persists(before, between),
        kept(between, after),
    ensures
        kept(before, after),
{
    assert forall|i: int| 0 <= i < before.len() implies (#[trigger] after.store[i]).outer == before[i].outer by {
        assert(after.store[i].outer == between[i].outer);
    }
}

proof fn lemma_parameters_any(params: Seq<Value>, names: Seq<Seq<char>>)
    ensures
        !(parameters(params, names) matches Err(Failure::InvalidValue(_))),
    decreases params.len(),
{
    if params.len() > 0 {
        match params[0] {
            Value::Symbol(name) => {
                lemma_parameters_any(params.drop_first(), names.push(name));
            },
            _ => {},
        }
    }
}

/// In a sound store, the evaluation of a scoped form keeps the store sound
/// and its frames in place, and gives a scoped value: a procedure is never
/// left without the frame it was made in.
pub proof fn law_evaluation_is_sound(m: Arithmetic, expr: Value, env: nat, store: Seq<Scope>, depth: nat)
    requires
        sound(store),
        env < store.len(),
        scoped(expr, store.len()),
    ensures
        kept(store, evaluated(m, expr, env, store, depth)),
    decreases depth, 1nat, 0nat,
{
    match expr {
        Value::Symbol(name) => {
            lemma_resolved_scoped(store, env, name);
        },
        Value::List(items) => {
            lemma_list_sound(m, items, env, store, depth);
        },
        _ => {},
    }
}

proof fn lemma_list_sound(m: Arithmetic, items: Seq<Value>, env: nat, store: Seq<Scope>, depth: nat)
    requires
        sound(store),
        env < store.len(),
        all_scoped(items, store.len()),
    ensures
        kept(store, evaluated_list(m, items, env, store, depth)),
    decreases depth, 0nat, 0nat,
{
    if items.len() == 0 {
    } else if depth == 0 {
    } else {
        let inner = (depth - 1) as nat;
        let args = items.drop_first();
        lemma_rest_scoped(items, store.len());
        match items[0] {
            Value::Symbol(name) => match special(name) {
                Some(form) => {
                    lemma_form_sound(m, form, args, env, store, inner);
                },
                None => {
                    lemma_call_sound(m, name, args, env, store, inner);
                },
            },
            head => {
                law_evaluation_is_sound(m, head, env, store, inner);
                let first = evaluated(m, head, env, store, inner);
                lemma_all_scoped_grows(args, store.len(), first.store.len());
                match first.result {
                    Ok(Value::Proc(tag)) => {
                        lemma_proc_sound(m, tag, args, env, first.store, inner);
                        lemma_kept_onward(store, first.store, applied_proc(m, tag, args, env, first.store, inner));
                    },
                    Ok(Value::Lambda(closure)) => {
                        lemma_lambda_sound(m, closure, args, env, first.store, inner);
                        lemma_kept_onward(
                            store,
                            first.store,
                            applied_lambda(m, closure, args, env, first.store, inner),
                        );
                    },
                    Ok(value) => {
                        let whole = seq![value] + args;
                        assert forall|i: int| 0 <= i < whole.len() implies scoped(
                            #[trigger] whole[i],
                            first.store.len(),
                        ) by {
                            if i > 0 {
                                assert(whole[i] == args[i - 1]);
                            }
                        }
                    },
                    Err(_) => {},
                }
            },
        }
    }
}

proof fn lemma_form_sound(
    m: Arithmetic,
    form: SpecialForm,
    args: Seq<Value>,
    env: nat,
    store: Seq<Scope>,
    depth: nat,
)
    requires
        sound(store),
        env < store.len(),
        all_scoped(args, store.len()),
    ensures
        kept(store, evaluated_form(m, form, args, env, store, depth)),
    decreases depth, 9nat, 0nat,
{
    match form {
        SpecialForm::Quote => {},
        SpecialForm::If => {
            lemma_if_sound(m, args, env, store, depth);
        },
        SpecialForm::Def => {
            lemma_def_sound(m, args, env, store, depth);
        },
        SpecialForm::Lambda => {
            if args.len() == 2 {
                match args[0] {
                    Value::List(params) => {
                        lemma_parameters_any(params, Seq::empty());
                    },
                    _ => {},
                }
            }
        },
        SpecialForm::Do => {
            lemma_do_sound(m, args, env, store, depth);
        },
        SpecialForm::List => {
            lemma_args_sound(m, args, Seq::empty(), env, store, depth);
        },
    }
}

proof fn lemma_if_sound(m: Arithmetic, args: Seq<Value>, env: nat, store: Seq<Scope>, depth: nat)
    requires
        sound(store),
        env < store.len(),
        all_scoped(args, store.len()),
    ensures
        kept(store, evaluated_if(m, args, env, store, depth)),
    decreases depth, 5nat, 0nat,
{
    if args.len() >= 2 {
        law_evaluation_is_sound(m, args[0], env, store, depth);
        let condition = evaluated(m, args[0], env, store, depth);
        lemma_all_scoped_grows(args, store.len(), condition.store.len());
        match condition.result {
            Ok(Value::True) => {
                law_evaluation_is_sound(m, args[1], env, condition.store, depth);
                lemma_kept_onward(store, condition.store, evaluated(m, args[1], env, condition.store, depth));
            },
            Ok(Value::False) => {
                if args.len() == 3 {
                    law_evaluation_is_sound(m, args[2], env, condition.store, depth);
                    lemma_kept_onward(store, condition.store, evaluated(m, args[2], env, condition.store, depth));
                }
            },
            _ => {},
        }
    }
}

proof fn lemma_def_sound(m: Arithmetic, args: Seq<Value>, env: nat, store: Seq<Scope>, depth: nat)
    requires
        sound(store),
        env < store.len(),
        all_scoped(args, store.len()),
    ensures
        kept(store, evaluated_def(m, args, env, store, depth)),
    decreases depth, 5nat, 0nat,
{
    if args.len() >= 2 {
        match args[0] {
            Value::Symbol(name) => {
                law_evaluation_is_sound(m, args[1], env, store, depth);
                let value = evaluated(m, args[1], env, store, depth);
                match value.result {
                    Ok(v) => {
                        lemma_bind_sound(value.store, env, name, v);
                        let after = bind(value.store, env, name, v);
                        assert forall|i: int| 0 <= i < store.len() implies (#[trigger] after[i]).outer
                            == store[i].outer by {
                            assert(after[i].outer == value.store[i].outer);
                        }
                    },
                    Err(_) => {},
                }
            },
            _ => {},
        }
    }
}

proof fn lemma_do_sound(m: Arithmetic, args: Seq<Value>, env: nat, store: Seq<Scope>, depth: nat)
    requires
        sound(store),
        env < store.len(),
        all_scoped(args, store.len()),
    ensures
        kept(store, evaluated_do(m, args, env, store, depth)),
    decreases depth, 5nat, args.len(),
{
    if args.len() > 0 {
        law_evaluation_is_sound(m, args[0], env, store, depth);
        let first = evaluated(m, args[0], env, store, depth);
        if args.len() > 1 {
            match first.result {
                Ok(_) => {
                    lemma_rest_scoped(args, store.len());
                    lemma_all_scoped_grows(args.drop_first(), store.len(), first.store.len());
                    lemma_do_sound(m, args.drop_first(), env, first.store, depth);
                    lemma_kept_onward(
                        store,
                        first.store,
                        evaluated_do(m, args.drop_first(), env, first.store, depth),
                    );
                },
                Err(_) => {},
            }
        }
    }
}

proof fn lemma_args_sound(
    m: Arithmetic,
    pending: Seq<Value>,
    values: Seq<Value>,
    env: nat,
    store: Seq<Scope>,
    depth: nat,
)
    requires
        sound(store),
        env < store.len(),
        all_scoped(pending, store.len()),
        all_scoped(values, store.len()),
    ensures
        kept(store, evaluated_args(m, pending, values, env, store, depth)),
        evaluated_args(m, pending, values, env, store, depth).result matches Ok(value) ==> value is List,
    decreases depth, 2nat, pending.len(),
{
    if pending.len() > 0 {
        law_evaluation_is_sound(m, pending[0], env, store, depth);
        let first = evaluated(m, pending[0], env, store, depth);
        match first.result {
            Ok(value) => {
                lemma_rest_scoped(pending, store.len());
                lemma_all_scoped_grows(pending.drop_first(), store.len(), first.store.len());
                lemma_all_scoped_grows(values, store.len(), first.store.len());
                lemma_pushed_scoped(values, value, first.store.len());
                lemma_args_sound(m, pending.drop_first(), values.push(value), env, first.store, depth);
                lemma_kept_onward(
                    store,
                    first.store,
                    evaluated_args(m, pending.drop_first(), values.push(value), env, first.store, depth),
                );
            },
            Err(_) => {},
        }
    }
}

proof fn lemma_call_sound(
    m: Arithmetic,
    name: Seq<char>,
    args: Seq<Value>,
    env: nat,
    store: Seq<Scope>,
    depth: nat,
)
    requires
        sound(store),
        env < store.len(),
        all_scoped(args, store.len()),
    ensures
        kept(store, evaluated_call(m, name, args, env, store, depth)),
    decreases depth, 8nat, 0nat,
{
    lemma_resolved_scoped(store, env, name);
    match resolve(store, env, name) {
        Some(Value::Proc(tag)) => {
            lemma_proc_sound(m, tag, args, env, store, depth);
        },
        Some(Value::Lambda(closure)) => {
            lemma_lambda_sound(m, closure, args, env, store, depth);
        },
        _ => {},
    }
}

proof fn lemma_proc_sound(
    m: Arithmetic,
    tag: Builtin,
    args: Seq<Value>,
    env: nat,
    store: Seq<Scope>,
    depth: nat,
)
    requires
        sound(store),
        env < store.len(),
        all_scoped(args, store.len()),
    ensures
        kept(store, applied_proc(m, tag, args, env, store, depth)),
    decreases depth, 7nat, 0nat,
{
    lemma_args_sound(m, args, Seq::empty(), env, store, depth);
    let given = evaluated_args(m, args, Seq::empty(), env, store, depth);
    match given.result {
        Ok(Value::List(values)) => {
            lemma_applied_plain(m, tag, values, given.store.len());
        },
        _ => {},
    }
}

proof fn lemma_lambda_sound(
    m: Arithmetic,
    closure: Closure,
    args: Seq<Value>,
    env: nat,
    store: Seq<Scope>,
    depth: nat,
)
    requires
        sound(store),
        env < store.len(),
        all_scoped(args, store.len()),
        scoped(Value::Lambda(closure), store.len()),
    ensures
        kept(store, applied_lambda(m, closure, args, env, store, depth)),
    decreases depth, 7nat, 0nat,
{
    lemma_args_sound(m, args, Seq::empty(), env, store, depth);
    let given = evaluated_args(m, args, Seq::empty(), env, store, depth);
    match given.result {
        Ok(Value::List(values)) => {
            lemma_scoped_grows(Value::Lambda(closure), store.len(), given.store.len());
            lemma_entered_sound(m, closure, values, given.store, depth);
            lemma_kept_onward(store, given.store, entered(m, closure, values, given.store, depth));
        },
        _ => {},
    }
}

proof fn lemma_entered_sound(m: Arithmetic, closure: Closure, values: Seq<Value>, store: Seq<Scope>, depth: nat)
    requires
        sound(store),
        all_scoped(values, store.len()),
        scoped(Value::Lambda(closure), store.len()),
    ensures
        kept(store, entered(m, closure, values, store, depth)),
    decreases depth, 6nat, 0nat,
{
    if closure.params.len() == values.len() {
        let frame = store.len();
        let opened = extend(store, closure.scope);
        lemma_extend_sound(store, closure.scope);
        lemma_all_scoped_grows(values, store.len(), opened.len());
        lemma_bind_all_sound(opened, frame, closure.params, values);
        let inside = bind_all(opened, frame, closure.params, values);
        lemma_scoped_grows(*closure.body, store.len(), inside.len());
        law_evaluation_is_sound(m, *closure.body, frame, inside, depth);
        assert(persists(store, inside)) by {
            assert forall|i: int| 0 <= i < store.len() implies (#[trigger] inside[i]).outer == store[i].outer by {
                assert(inside[i].outer == opened[i].outer);
            }
        }
        lemma_kept_onward(store, inside, evaluated(m, *closure.body, frame, inside, depth));
    }
}

/// What the reader gives holds no procedure, so any frames scope it.
pub proof fn law_read_forms_are_scoped(reading: Reading, tokens: Seq<Seq<char>>, frames: nat)
    ensures
        parsed(reading, tokens).result matches Ok(value) ==> scoped(value, frames),
    decreases tokens.len(), 0nat,
{
    if tokens.len() > 0 && tokens[0] == "("@ {
        lemma_read_items_are_scoped(reading, tokens.drop_first(), Seq::empty(), frames);
    }
}

proof fn lemma_read_items_are_scoped(reading: Reading, tokens: Seq<Seq<char>>, items: Seq<Value>, frames: nat)
    requires
        all_scoped(items, frames),
    ensures
        parsed_list(reading, tokens, items).result matches Ok(value) ==> scoped(value, frames),
    decreases tokens.len(), 1nat,
{
    if tokens.len() > 0 && tokens[0] != ")"@ {
        law_read_forms_are_scoped(reading, tokens, frames);
        let first = parsed(reading, tokens);
        match first.result {
            Ok(item) => {
                if first.rest.len() < tokens.len() {
                    lemma_pushed_scoped(items, item, frames);
                    lemma_read_items_are_scoped(reading, first.rest, items.push(item), frames);
                }
            },
            Err(_) => {},
        }
    }
}

/// The store that evaluation starts from is sound.
pub proof fn law_base_is_sound()
    ensures
        sound(base()),
        base().len() == 1,
{
    let s0 = seq![fresh(None)];
    assert(sound(s0)) by {
        assert forall|i: int, name: Seq<char>|
            0 <= i < s0.len() && #[trigger] s0[i].bindings.contains_key(name) implies scoped(
            s0[i].bindings[name],
            s0.len(),
        ) by {}
    }
    let s1 = bind(s0, 0, "pi"@, Value::Number(crate::lisp::number::PI));
    lemma_bind_sound(s0, 0, "pi"@, Value::Number(crate::lisp::number::PI));
    let a1 = bind(s1, 0, "+"@, Value::Proc(Builtin::Add));
    lemma_bind_sound(s1, 0, "+"@, Value::Proc(Builtin::Add));
    let a2 = bind(a1, 0, "-"@, Value::Proc(Builtin::Sub));
    lemma_bind_sound(a1, 0, "-"@, Value::Proc(Builtin::Sub));
    let a3 = bind(a2, 0, "*"@, Value::Proc(Builtin::Mul));
    lemma_bind_sound(a2, 0, "*"@, Value::Proc(Builtin::Mul));
    let a4 = bind(a3, 0, "/"@, Value::Proc(Builtin::Div));
    lemma_bind_sound(a3, 0, "/"@, Value::Proc(Builtin::Div));
    assert(a4 == with_math(s1, 0));
    let c1 = bind(a4, 0, ">"@, Value::Proc(Builtin::Gt));
    lemma_bind_sound(a4, 0, ">"@, Value::Proc(Builtin::Gt));
    let c2 = bind(c1, 0, ">="@, Value::Proc(Builtin::Gte));
    lemma_bind_sound(c1, 0, ">="@, Value::Proc(Builtin::Gte));
    let c3 = bind(c2, 0, "<"@, Value::Proc(Builtin::Lt));
    lemma_bind_sound(c2, 0, "<"@, Value::Proc(Builtin::Lt));
    let c4 = bind(c3, 0, "<="@, Value::Proc(Builtin::Lte));
    lemma_bind_sound(c3, 0, "<="@, Value::Proc(Builtin::Lte));
    let c5 = bind(c4, 0, "="@, Value::Proc(Builtin::Eq));
    lemma_bind_sound(c4, 0, "="@, Value::Proc(Builtin::Eq));
    assert(c5 == with_comparison(a4, 0));
}

/// In a sound store, what a source text means keeps the store sound, and
/// is never the error of a procedure without its frame.
pub proof fn law_source_is_sound(
    reading: Reading,
    m: Arithmetic,
    text: Seq<char>,
    env: nat,
    store: Seq<Scope>,
    depth: nat,
)
    requires
        sound(store),
        env < store.len(),
    ensures
        kept(store, evaluated_source(reading, m, text, env, store, depth)),
{
    law_read_forms_are_scoped(reading, tokens_of(text), store.len());
    match parsed(reading, tokens_of(text)).result {
        Ok(form) => {
            law_evaluation_is_sound(m, form, env, store, depth);
        },
        Err(_) => {},
    }
}

} // verus!
