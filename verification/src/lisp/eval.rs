//! The evaluator: what a form means in a frame of a store, and the
//! functions that compute it.
//!
//! Evaluation is given a depth: a list may be evaluated only where depth is
//! left, and what it holds is evaluated with one less. So every evaluation
//! ends, with a value or with an error.

use vstd::prelude::*;
use crate::lisp::env::{Binding, Env, Environment, Scope, bind, bind_all, exprs, extend, keys, resolve};
use crate::lisp::lex::{parse_form, parsed, tokenize, tokens_of};
use crate::lisp::modules::{applied, call};
use crate::lisp::number::{Arithmetic, Reading, computes, readings, reads, results};
use crate::lisp::text::same_text;
use crate::lisp::types::{
    Closure, Failure, Operator, RLClosure, RLError, RLResult, RLType, Value, models, outcome, texts,
};

verus! {

/// The forms that are evaluated by rule, not by calling a procedure.
#[derive(Clone, Copy, Debug, PartialEq, Eq, Structural)]
pub enum SpecialForm {
    Quote,
    If,
    Def,
    Lambda,
    Do,
    List,
}

/// The result of an evaluation and the store that it leaves.
pub struct Evaluated {
    pub result: Result<Value, Failure>,
    pub store: Seq<Scope>,
}

/// The special form that a symbol names, if it names one.
pub open spec fn special(name: Seq<char>) -> Option<SpecialForm> {
    if name == "quote"@ {
        Some(SpecialForm::Quote)
    } else if name == "if"@ {
        Some(SpecialForm::If)
    } else if name == "def!"@ {
        Some(SpecialForm::Def)
    } else if name == "lambda"@ {
        Some(SpecialForm::Lambda)
    } else if name == "do"@ {
        Some(SpecialForm::Do)
    } else if name == "list"@ {
        Some(SpecialForm::List)
    } else {
        None
    }
}

/// The value of a symbol in frame `env`, or the error that names it.
pub open spec fn found(store: Seq<Scope>, env: nat, name: Seq<char>) -> Result<Value, Failure> {
    match resolve(store, env, name) {
        Some(value) => Ok(value),
        None => Err(Failure::Unbound(name)),
    }
}

/// What a form means. A symbol means what it is bound to, a list is
/// evaluated as a form, and every other value means itself.
pub open spec fn evaluated(m: Arithmetic, expr: Value, env: nat, store: Seq<Scope>, depth: nat) -> Evaluated
    decreases depth, 1nat, 0nat,
{
    match expr {
        Value::Symbol(name) => Evaluated { result: found(store, env, name), store },
        Value::List(items) => evaluated_list(m, items, env, store, depth),
        _ => Evaluated { result: Ok(expr), store },
    }
}

/// What a list means. The empty list means itself. A special form goes by
/// its rule. Under any other symbol the list is a call of what the symbol
/// is bound to. Under anything else the head is evaluated: a procedure is
/// called, and any other value leaves the list as data, with that value as
/// its head.
pub open spec fn evaluated_list(
    m: Arithmetic,
    items: Seq<Value>,
    env: nat,
    store: Seq<Scope>,
    depth: nat,
) -> Evaluated
    decreases depth, 0nat, 0nat,
{
    if items.len() == 0 {
        Evaluated { result: Ok(Value::List(items)), store }
    } else if depth == 0 {
        Evaluated { result: Err(Failure::DepthExceeded), store }
    } else {
        let inner = (depth - 1) as nat;
        let args = items.drop_first();
        match items[0] {
            Value::Symbol(name) => match special(name) {
                Some(form) => evaluated_form(m, form, args, env, store, inner),
                None => evaluated_call(m, name, args, env, store, inner),
            },
            head => {
                let first = evaluated(m, head, env, store, inner);
                match first.result {
                    Ok(Value::Proc(tag)) => applied_proc(m, tag, args, env, first.store, inner),
                    Ok(Value::Lambda(closure)) => applied_lambda(m, closure, args, env, first.store, inner),
                    Ok(value) => Evaluated { result: Ok(Value::List(seq![value] + args)), store: first.store },
                    Err(_) => first,
                }
            },
        }
    }
}

/// What a special form means on its arguments, none of them evaluated yet.
pub open spec fn evaluated_form(
    m: Arithmetic,
    form: SpecialForm,
    args: Seq<Value>,
    env: nat,
    store: Seq<Scope>,
    depth: nat,
) -> Evaluated
    decreases depth, 9nat, 0nat,
{
    match form {
        SpecialForm::Quote => Evaluated { result: quoted(args), store },
        SpecialForm::If => evaluated_if(m, args, env, store, depth),
        SpecialForm::Def => evaluated_def(m, args, env, store, depth),
        SpecialForm::Lambda => Evaluated { result: created(args, env), store },
        SpecialForm::Do => evaluated_do(m, args, env, store, depth),
        SpecialForm::List => evaluated_args(m, args, Seq::empty(), env, store, depth),
    }
}

/// `(quote x)` means `x` as it stands.
pub open spec fn quoted(args: Seq<Value>) -> Result<Value, Failure> {
    if args.len() == 1 {
        Ok(args[0])
    } else {
        Err(Failure::InvalidArity)
    }
}

/// `(if cond then [else])`: on a true condition what `then` means; on a
/// false one what `else` means, where the form has exactly these three
/// parts; otherwise nil.
pub open spec fn evaluated_if(m: Arithmetic, args: Seq<Value>, env: nat, store: Seq<Scope>, depth: nat) -> Evaluated
    decreases depth, 5nat, 0nat,
{
    if args.len() < 2 {
        Evaluated { result: Err(Failure::InvalidArity), store }
    } else {
        let condition = evaluated(m, args[0], env, store, depth);
        match condition.result {
            Ok(Value::True) => evaluated(m, args[1], env, condition.store, depth),
            Ok(Value::False) => if args.len() == 3 {
                evaluated(m, args[2], env, condition.store, depth)
            } else {
                Evaluated { result: Ok(Value::Nil), store: condition.store }
            },
            Ok(_) => Evaluated { result: Ok(Value::Nil), store: condition.store },
            Err(_) => condition,
        }
    }
}

/// `(def! name expr)`: binds `name` in frame `env` to what `expr` means,
/// and means nil.
pub open spec fn evaluated_def(m: Arithmetic, args: Seq<Value>, env: nat, store: Seq<Scope>, depth: nat) -> Evaluated
    decreases depth, 5nat, 0nat,
{
    if args.len() < 2 {
        Evaluated { result: Err(Failure::InvalidArity), store }
    } else {
        match args[0] {
            Value::Symbol(name) => {
                let value = evaluated(m, args[1], env, store, depth);
                match value.result {
                    Ok(v) => Evaluated { result: Ok(Value::Nil), store: bind(value.store, env, name, v) },
                    Err(_) => value,
                }
            },
            other => Evaluated { result: Err(Failure::NotASymbol(other)), store },
        }
    }
}

/// The names of parameters, after those in `names`; the first parameter
/// that is no symbol fails the whole.
pub open spec fn parameters(params: Seq<Value>, names: Seq<Seq<char>>) -> Result<Seq<Seq<char>>, Failure>
    decreases params.len(),
{
    if params.len() == 0 {
        Ok(names)
    } else {
        match params[0] {
            Value::Symbol(name) => parameters(params.drop_first(), names.push(name)),
            other => Err(Failure::NotASymbol(other)),
        }
    }
}

/// A procedure of frame `env` as a value.
pub open spec fn procedure(params: Seq<Seq<char>>, body: Value, env: nat) -> Value {
    Value::Lambda(Closure { params, body: Box::new(body), scope: env })
}

/// `(lambda (p ...) body)` or `(lambda body)`: a procedure of frame `env`
/// whose body is not evaluated. Where the first of two parts is no list,
/// the procedure has no parameters.
pub open spec fn created(args: Seq<Value>, env: nat) -> Result<Value, Failure> {
    if args.len() < 1 || args.len() > 2 {
        Err(Failure::InvalidArity)
    } else if args.len() == 1 {
        Ok(procedure(Seq::empty(), args[0], env))
    } else {
        match args[0] {
            Value::List(params) => match parameters(params, Seq::empty()) {
                Ok(names) => Ok(procedure(names, args[1], env)),
                Err(e) => Err(e),
            },
            _ => Ok(procedure(Seq::empty(), args[1], env)),
        }
    }
}

/// `(do e1 ... en)`: every expression evaluated in order, up to the first
/// that fails; the form means what the last means.
pub open spec fn evaluated_do(m: Arithmetic, args: Seq<Value>, env: nat, store: Seq<Scope>, depth: nat) -> Evaluated
    decreases depth, 5nat, args.len(),
{
    if args.len() == 0 {
        Evaluated { result: Err(Failure::InvalidArity), store }
    } else {
        let first = evaluated(m, args[0], env, store, depth);
        if args.len() == 1 {
            first
        } else {
            match first.result {
                Ok(_) => evaluated_do(m, args.drop_first(), env, first.store, depth),
                Err(_) => first,
            }
        }
    }
}

/// The values of `pending`, evaluated from the left and put after `values`,
/// as a list; the first that fails ends the whole.
pub open spec fn evaluated_args(
    m: Arithmetic,
    pending: Seq<Value>,
    values: Seq<Value>,
    env: nat,
    store: Seq<Scope>,
    depth: nat,
) -> Evaluated
    decreases depth, 2nat, pending.len(),
{
    if pending.len() == 0 {
        Evaluated { result: Ok(Value::List(values)), store }
    } else {
        let first = evaluated(m, pending[0], env, store, depth);
        match first.result {
            Ok(value) => evaluated_args(m, pending.drop_first(), values.push(value), env, first.store, depth),
            Err(_) => first,
        }
    }
}

/// A call under a symbol: of the procedure that the symbol is bound to.
pub open spec fn evaluated_call(
    m: Arithmetic,
    name: Seq<char>,
    args: Seq<Value>,
    env: nat,
    store: Seq<Scope>,
    depth: nat,
) -> Evaluated
    decreases depth, 8nat, 0nat,
{
    match resolve(store, env, name) {
        Some(Value::Proc(tag)) => applied_proc(m, tag, args, env, store, depth),
        Some(Value::Lambda(closure)) => applied_lambda(m, closure, args, env, store, depth),
        Some(_) => Evaluated { result: Err(Failure::NotCallable(name)), store },
        None => Evaluated { result: Err(Failure::Unbound(name)), store },
    }
}

/// A call of a native procedure: on the values of its arguments.
pub open spec fn applied_proc(
    m: Arithmetic,
    tag: crate::lisp::types::Builtin,
    args: Seq<Value>,
    env: nat,
    store: Seq<Scope>,
    depth: nat,
) -> Evaluated
    decreases depth, 7nat, 0nat,
{
    let given = evaluated_args(m, args, Seq::empty(), env, store, depth);
    match given.result {
        Ok(Value::List(values)) => Evaluated { result: applied(m, tag, values), store: given.store },
        _ => given,
    }
}

/// A call of a user procedure: on the values of its arguments.
pub open spec fn applied_lambda(
    m: Arithmetic,
    closure: Closure,
    args: Seq<Value>,
    env: nat,
    store: Seq<Scope>,
    depth: nat,
) -> Evaluated
    decreases depth, 7nat, 0nat,
{
    let given = evaluated_args(m, args, Seq::empty(), env, store, depth);
    match given.result {
        Ok(Value::List(values)) => entered(m, closure, values, given.store, depth),
        _ => given,
    }
}

/// What a user procedure returns on `values`: what its body means in a new
/// frame, enclosed by the frame of the procedure, that binds each parameter
/// to its value.
pub open spec fn entered(m: Arithmetic, closure: Closure, values: Seq<Value>, store: Seq<Scope>, depth: nat) -> Evaluated
    decreases depth, 6nat, 0nat,
{
    if closure.params.len() != values.len() {
        Evaluated { result: Err(Failure::InvalidArity), store }
    } else if closure.scope >= store.len() {
        Evaluated { result: Err(Failure::InvalidValue(Value::Lambda(closure))), store }
    } else {
        let frame = store.len();
        let inside = bind_all(extend(store, closure.scope), frame, closure.params, values);
        evaluated(m, *closure.body, frame, inside, depth)
    }
}

/// A result and the store beside it, as an evaluation.
pub open spec fn leaves(r: RLResult, store: Seq<Scope>) -> Evaluated {
    Evaluated { result: outcome(r), store }
}

/// The special form that `name` names, if it names one.
pub fn special_form(name: &str) -> (r: Option<SpecialForm>)
    ensures
        r == special(name@),
{
    if same_text(name, "quote") {
        Some(SpecialForm::Quote)
    } else if same_text(name, "if") {
        Some(SpecialForm::If)
    } else if same_text(name, "def!") {
        Some(SpecialForm::Def)
    } else if same_text(name, "lambda") {
        Some(SpecialForm::Lambda)
    } else if same_text(name, "do") {
        Some(SpecialForm::Do)
    } else if same_text(name, "list") {
        Some(SpecialForm::List)
    } else {
        None
    }
}

/// Evaluates `ast` in frame `env` of `store`, to the depth given.
pub fn eval<A: Fn(Operator, u32, u32) -> u32>(
    ast: RLType,
    env: Env,
    store: &mut Environment,
    depth: usize,
    arith: &A,
) -> (r: RLResult)
    requires
        old(store).well_formed(),
        env < old(store)@.len(),
        computes(arith),
    ensures
        final(store).well_formed(),
        old(store)@.len() <= final(store)@.len(),
        leaves(r, final(store)@) == evaluated(results(arith), ast@, env as nat, old(store)@, depth as nat),
    decreases depth, 1nat, 0nat,
{
    match ast {
        RLType::Symbol(name) => store.lookup(env, name.as_str()),
        RLType::List(tokens) => eval_list(tokens, env, store, depth, arith),
        _ => Ok(ast),
    }
}

/// Evaluates a list: as a special form, as a call, or as data.
pub fn eval_list<A: Fn(Operator, u32, u32) -> u32>(
    tokens: Vec<RLType>,
    env: Env,
    store: &mut Environment,
    depth: usize,
    arith: &A,
) -> (r: RLResult)
    requires
        old(store).well_formed(),
        env < old(store)@.len(),
        computes(arith),
    ensures
        final(store).well_formed(),
        old(store)@.len() <= final(store)@.len(),
        leaves(r, final(store)@) == evaluated_list(
            results(arith),
            models(tokens@),
            env as nat,
            old(store)@,
            depth as nat,
        ),
    decreases depth, 0nat, 0nat,
{
    let mut rest = tokens;
    let ghost items = models(tokens@);
    if rest.is_empty() {
        return Ok(RLType::List(rest));
    }
    if depth == 0 {
        return Err(RLError::DepthExceeded);
    }
    let inner = depth - 1;
    let first = rest.remove(0);
    assert(first@ == items[0]);
    assert(models(rest@) =~= items.drop_first());
    match first {
        RLType::Symbol(name) => match special_form(name.as_str()) {
            Some(form) => eval_core(form, rest, env, store, inner, arith),
            None => eval_proc(name.as_str(), rest, env, store, inner, arith),
        },
        head => match eval(head, env, store, inner, arith) {
            Ok(RLType::Proc(tag)) => match make_atomic(rest, env, store, inner, arith) {
                Ok(RLType::List(args)) => call(tag, args, arith),
                Ok(v) => Ok(v),
                Err(e) => Err(e),
            },
            Ok(RLType::Lambda(lambda)) => match make_atomic(rest, env, store, inner, arith) {
                Ok(RLType::List(args)) => eval_exec_lambda(lambda, args, store, inner, arith),
                Ok(v) => Ok(v),
                Err(e) => Err(e),
            },
            Ok(value) => {
                let ghost v = value@;
                rest.insert(0, value);
                assert(models(rest@) =~= seq![v] + items.drop_first());
                Ok(RLType::List(rest))
            },
            Err(e) => Err(e),
        },
    }
}

/// Evaluates a special form on its arguments.
pub fn eval_core<A: Fn(Operator, u32, u32) -> u32>(
    form: SpecialForm,
    args: Vec<RLType>,
    env: Env,
    store: &mut Environment,
    depth: usize,
    arith: &A,
) -> (r: RLResult)
    requires
        old(store).well_formed(),
        env < old(store)@.len(),
        computes(arith),
    ensures
        final(store).well_formed(),
        old(store)@.len() <= final(store)@.len(),
        leaves(r, final(store)@) == evaluated_form(
            results(arith),
            form,
            models(args@),
            env as nat,
            old(store)@,
            depth as nat,
        ),
    decreases depth, 9nat, 0nat,
{
    match form {
        SpecialForm::Quote => eval_quote(args),
        SpecialForm::If => eval_if(args, env, store, depth, arith),
        SpecialForm::Def => eval_def(args, env, store, depth, arith),
        SpecialForm::Lambda => eval_create_lambda(args, env),
        SpecialForm::Do => eval_do(args, env, store, depth, arith),
        SpecialForm::List => eval_make_list(args, env, store, depth, arith),
    }
}

/// `(quote x)`: hands `x` back as it stands.
pub fn eval_quote(args: Vec<RLType>) -> (r: RLResult)
    ensures
        outcome(r) == quoted(models(args@)),
{
    let mut parts = args;
    if parts.len() == 1 {
        Ok(parts.remove(0))
    } else {
        Err(RLError::InvalidArity)
    }
}

/// Calls what `name` is bound to on the values of `tokens`.
pub fn eval_proc<A: Fn(Operator, u32, u32) -> u32>(
    name: &str,
    tokens: Vec<RLType>,
    env: Env,
    store: &mut Environment,
    depth: usize,
    arith: &A,
) -> (r: RLResult)
    requires
        old(store).well_formed(),
        env < old(store)@.len(),
        computes(arith),
    ensures
        final(store).well_formed(),
        old(store)@.len() <= final(store)@.len(),
        leaves(r, final(store)@) == evaluated_call(
            results(arith),
            name@,
            models(tokens@),
            env as nat,
            old(store)@,
            depth as nat,
        ),
    decreases depth, 8nat, 0nat,
{
    match store.lookup(env, name) {
        Ok(RLType::Proc(tag)) => match make_atomic(tokens, env, store, depth, arith) {
            Ok(RLType::List(args)) => call(tag, args, arith),
            Ok(v) => Ok(v),
            Err(e) => Err(e),
        },
        Ok(RLType::Lambda(lambda)) => match make_atomic(tokens, env, store, depth, arith) {
            Ok(RLType::List(args)) => eval_exec_lambda(lambda, args, store, depth, arith),
            Ok(v) => Ok(v),
            Err(e) => Err(e),
        },
        Ok(_) => Err(RLError::NotCallable(name.to_owned())),
        Err(e) => Err(e),
    }
}

/// Each name with the value at its place, in order.
fn paired(names: &Vec<String>, values: Vec<RLType>) -> (r: Vec<Binding>)
    requires
        names.len() == values.len(),
    ensures
        keys(r@) == texts(names@),
        exprs(r@) == models(values@),
{
    let mut pending = values;
    let mut out: Vec<Binding> = Vec::new();
    let mut i: usize = 0;
    while i < names.len()
        invariant
            i <= names.len(),
            out.len() == i,
            pending.len() + i == names.len(),
            names.len() == values.len(),
            forall|k: int| 0 <= k < i ==> out@[k].key@ == names@[k]@ && out@[k].expr@ == values@[k]@,
            forall|k: int| 0 <= k < pending.len() ==> pending@[k] == values@[k + i],
        decreases names.len() - i,
    {
        let value = pending.remove(0);
        out.push(Binding { key: names[i].clone(), expr: value });
        i += 1;
    }
    assert(keys(out@) =~= texts(names@));
    assert(exprs(out@) =~= models(values@));
    out
}

/// Calls a user procedure on the values given.
pub fn eval_exec_lambda<A: Fn(Operator, u32, u32) -> u32>(
    l: RLClosure,
    args: Vec<RLType>,
    store: &mut Environment,
    depth: usize,
    arith: &A,
) -> (r: RLResult)
    requires
        old(store).well_formed(),
        computes(arith),
    ensures
        final(store).well_formed(),
        old(store)@.len() <= final(store)@.len(),
        leaves(r, final(store)@) == entered(results(arith), l@, models(args@), old(store)@, depth as nat),
    decreases depth, 6nat, 0nat,
{
    if l.bindings.len() != args.len() {
        return Err(RLError::InvalidArity);
    }
    if !store.contains(l.env) {
        return Err(RLError::InvalidValue(RLType::Lambda(l)));
    }
    let binds = paired(&l.bindings, args);
    let frame = store.new_with_bindings(l.env, binds);
    eval(*l.ast, frame, store, depth, arith)
}

/// The names of the parameters of a procedure.
fn parameter_names(values: &Vec<RLType>) -> (r: Result<Vec<String>, RLError>)
    ensures
        match r {
            Ok(names) => parameters(models(values@), Seq::empty()) == Ok::<Seq<Seq<char>>, Failure>(texts(names@)),
            Err(e) => parameters(models(values@), Seq::empty()) == Err::<Seq<Seq<char>>, Failure>(e@),
        },
{
    let ghost all = models(values@);
    let mut params: Vec<String> = Vec::new();
    let mut i: usize = 0;
    assert(all.skip(0) =~= all);
    assert(texts(params@) =~= Seq::empty());
    while i < values.len()
        invariant
            all == models(values@),
            i <= values.len(),
            parameters(all.skip(i as int), texts(params@)) == parameters(all, Seq::empty()),
        decreases values.len() - i,
    {
        assert(all.skip(i as int).drop_first() =~= all.skip(i + 1));
        match &values[i] {
            RLType::Symbol(name) => {
                let ghost before = texts(params@);
                params.push(name.clone());
                assert(texts(params@) =~= before.push(name@));
            },
            other => {
                return Err(RLError::NotASymbol(other.clone()));
            },
        }
        i += 1;
    }
    Ok(params)
}

/// `(lambda (p ...) body)`: makes a procedure of frame `env`.
pub fn eval_create_lambda(args: Vec<RLType>, env: Env) -> (r: RLResult)
    ensures
        outcome(r) == created(models(args@), env as nat),
{
    let mut parts = args;
    if parts.len() > 2 || parts.len() < 1 {
        return Err(RLError::InvalidArity);
    }
    let mut params: Vec<String> = Vec::new();
    assert(texts(params@) =~= Seq::empty());
    if parts.len() == 2 {
        let first = parts.remove(0);
        if let RLType::List(values) = first {
            match parameter_names(&values) {
                Ok(names) => {
                    params = names;
                },
                Err(e) => {
                    return Err(e);
                },
            }
        }
    }
    let body = parts.remove(0);
    Ok(RLType::Lambda(RLClosure { ast: Box::new(body), bindings: params, env }))
}

/// `(def! name expr)`: binds `name` in frame `env`.
pub fn eval_def<A: Fn(Operator, u32, u32) -> u32>(
    args: Vec<RLType>,
    env: Env,
    store: &mut Environment,
    depth: usize,
    arith: &A,
) -> (r: RLResult)
    requires
        old(store).well_formed(),
        env < old(store)@.len(),
        computes(arith),
    ensures
        final(store).well_formed(),
        old(store)@.len() <= final(store)@.len(),
        leaves(r, final(store)@) == evaluated_def(
            results(arith),
            models(args@),
            env as nat,
            old(store)@,
            depth as nat,
        ),
    decreases depth, 5nat, 0nat,
{
    let mut parts = args;
    if parts.len() < 2 {
        return Err(RLError::InvalidArity);
    }
    let key = parts.remove(0);
    let expr = parts.remove(0);
    match key {
        RLType::Symbol(name) => match eval(expr, env, store, depth, arith) {
            Ok(value) => {
                store.insert(env, name, value);
                Ok(RLType::Nil)
            },
            Err(e) => Err(e),
        },
        other => Err(RLError::NotASymbol(other)),
    }
}

/// `(do e1 ... en)`: evaluates each in order and hands back the last value.
pub fn eval_do<A: Fn(Operator, u32, u32) -> u32>(
    args: Vec<RLType>,
    env: Env,
    store: &mut Environment,
    depth: usize,
    arith: &A,
) -> (r: RLResult)
    requires
        old(store).well_formed(),
        env < old(store)@.len(),
        computes(arith),
    ensures
        final(store).well_formed(),
        old(store)@.len() <= final(store)@.len(),
        leaves(r, final(store)@) == evaluated_do(
            results(arith),
            models(args@),
            env as nat,
            old(store)@,
            depth as nat,
        ),
    decreases depth, 5nat, args.len(),
{
    let mut rest = args;
    let ghost m = results(arith);
    if rest.is_empty() {
        return Err(RLError::InvalidArity);
    }
    while rest.len() > 1
        invariant
            store.well_formed(),
            env < store@.len(),
            old(store)@.len() <= store@.len(),
            computes(arith),
            m == results(arith),
            rest.len() > 0,
            evaluated_do(m, models(rest@), env as nat, store@, depth as nat) == evaluated_do(
                m,
                models(args@),
                env as nat,
                old(store)@,
                depth as nat,
            ),
        decreases rest.len(),
    {
        let ghost pending = models(rest@);
        let term = rest.remove(0);
        assert(term@ == pending[0]);
        assert(models(rest@) =~= pending.drop_first());
        match eval(term, env, store, depth, arith) {
            Ok(_) => {},
            Err(e) => {
                return Err(e);
            },
        }
    }
    let ghost pending = models(rest@);
    let last = rest.remove(0);
    assert(last@ == pending[0]);
    eval(last, env, store, depth, arith)
}

/// `(list e1 ...)`: the values of the arguments, as a list.
pub fn eval_make_list<A: Fn(Operator, u32, u32) -> u32>(
    args: Vec<RLType>,
    env: Env,
    store: &mut Environment,
    depth: usize,
    arith: &A,
) -> (r: RLResult)
    requires
        old(store).well_formed(),
        env < old(store)@.len(),
        computes(arith),
    ensures
        final(store).well_formed(),
        old(store)@.len() <= final(store)@.len(),
        leaves(r, final(store)@) == evaluated_args(
            results(arith),
            models(args@),
            Seq::empty(),
            env as nat,
            old(store)@,
            depth as nat,
        ),
    decreases depth, 3nat, 0nat,
{
    make_atomic(args, env, store, depth, arith)
}

/// `(if cond then [else])`.
pub fn eval_if<A: Fn(Operator, u32, u32) -> u32>(
    args: Vec<RLType>,
    env: Env,
    store: &mut Environment,
    depth: usize,
    arith: &A,
) -> (r: RLResult)
    requires
        old(store).well_formed(),
        env < old(store)@.len(),
        computes(arith),
    ensures
        final(store).well_formed(),
        old(store)@.len() <= final(store)@.len(),
        leaves(r, final(store)@) == evaluated_if(
            results(arith),
            models(args@),
            env as nat,
            old(store)@,
            depth as nat,
        ),
    decreases depth, 5nat, 0nat,
{
    let mut parts = args;
    if parts.len() < 2 {
        return Err(RLError::InvalidArity);
    }
    let has_else = parts.len() == 3;
    let condition = parts.remove(0);
    match eval(condition, env, store, depth, arith) {
        Ok(RLType::True) => {
            let then = parts.remove(0);
            eval(then, env, store, depth, arith)
        },
        Ok(RLType::False) => {
            if has_else {
                let otherwise = parts.remove(1);
                eval(otherwise, env, store, depth, arith)
            } else {
                Ok(RLType::Nil)
            }
        },
        Ok(_) => Ok(RLType::Nil),
        Err(e) => Err(e),
    }
}

/// Evaluates each of `tokens` from the left and hands back the values as a
/// list.
pub fn make_atomic<A: Fn(Operator, u32, u32) -> u32>(
    tokens: Vec<RLType>,
    env: Env,
    store: &mut Environment,
    depth: usize,
    arith: &A,
) -> (r: RLResult)
    requires
        old(store).well_formed(),
        env < old(store)@.len(),
        computes(arith),
    ensures
        final(store).well_formed(),
        old(store)@.len() <= final(store)@.len(),
        leaves(r, final(store)@) == evaluated_args(
            results(arith),
            models(tokens@),
            Seq::empty(),
            env as nat,
            old(store)@,
            depth as nat,
        ),
    decreases depth, 2nat, tokens.len(),
{
    let mut pending = tokens;
    let ghost m = results(arith);
    let mut args: Vec<RLType> = Vec::new();
    assert(models(args@) =~= Seq::empty());
    while pending.len() > 0
        invariant
            store.well_formed(),
            env < store@.len(),
            old(store)@.len() <= store@.len(),
            computes(arith),
            m == results(arith),
            evaluated_args(m, models(pending@), models(args@), env as nat, store@, depth as nat) == evaluated_args(
                m,
                models(tokens@),
                Seq::empty(),
                env as nat,
                old(store)@,
                depth as nat,
            ),
        decreases pending.len(),
    {
        let ghost left = models(pending@);
        let ghost values = models(args@);
        let arg = pending.remove(0);
        assert(arg@ == left[0]);
        assert(models(pending@) =~= left.drop_first());
        match eval(arg, env, store, depth, arith) {
            Ok(value) => {
                args.push(value);
                assert(models(args@) =~= values.push(value@));
            },
            Err(e) => {
                return Err(e);
            },
        }
    }
    Ok(RLType::List(args))
}

/// What a source text means: what its first form means, or the error of
/// reading it.
pub open spec fn evaluated_source(
    reading: Reading,
    m: Arithmetic,
    text: Seq<char>,
    env: nat,
    store: Seq<Scope>,
    depth: nat,
) -> Evaluated {
    match parsed(reading, tokens_of(text)).result {
        Ok(form) => evaluated(m, form, env, store, depth),
        Err(e) => Evaluated { result: Err(Failure::Parse(e)), store },
    }
}

/// Reads the first form of `input` and evaluates it in frame `env`.
pub fn parse_and_eval<R: Fn(&str) -> Option<u32>, A: Fn(Operator, u32, u32) -> u32>(
    input: &str,
    env: Env,
    store: &mut Environment,
    depth: usize,
    read: &R,
    arith: &A,
) -> (r: RLResult)
    requires
        old(store).well_formed(),
        env < old(store)@.len(),
        reads(read),
        computes(arith),
    ensures
        final(store).well_formed(),
        old(store)@.len() <= final(store)@.len(),
        leaves(r, final(store)@) == evaluated_source(
            readings(read),
            results(arith),
            input@,
            env as nat,
            old(store)@,
            depth as nat,
        ),
{
    let mut tokens = tokenize(input);
    let tree = parse_form(&mut tokens, read);
    match tree {
        Ok(cell) => eval(cell, env, store, depth, arith),
        Err(e) => Err(RLError::Parse(e)),
    }
}

} // verus!
