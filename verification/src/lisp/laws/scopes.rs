//! Laws of the scope chain: a binding is found again, and it is local.

use vstd::prelude::*;
use crate::lisp::env::{Scope, bind, chained, extend, resolve};
use crate::lisp::types::Value;

verus! {

/// A name means, in the frame where it was just bound, what it was bound to.
pub proof fn law_bound_is_found(store: Seq<Scope>, env: nat, name: Seq<char>, value: Value)
    requires
        env < store.len(),
    ensures
        resolve(bind(store, env, name, value), env, name) == Some(value),
{
}

/// Binding keeps the shape of the chain.
pub proof fn law_bind_keeps_chain(store: Seq<Scope>, env: nat, name: Seq<char>, value: Value)
    requires
        chained(store),
        env < store.len(),
    ensures
        chained(bind(store, env, name, value)),
        bind(store, env, name, value).len() == store.len(),
{
    let after = bind(store, env, name, value);
    assert forall|i: int| 0 <= i < after.len() implies ((#[trigger] after[i]).outer matches Some(o) ==> o < i) by {
        assert(after[i].outer == store[i].outer);
    }
}

/// A new frame keeps the shape of the chain.
pub proof fn law_extend_keeps_chain(store: Seq<Scope>, outer: nat)
    requires
        chained(store),
        outer < store.len(),
    ensures
        chained(extend(store, outer)),
{
    let after = extend(store, outer);
    assert forall|i: int| 0 <= i < after.len() implies ((#[trigger] after[i]).outer matches Some(o) ==> o < i) by {
        if i < store.len() {
            assert(after[i] == store[i]);
        }
    }
}

/// Binding is local to its frame: seen from an enclosing frame, or from any
/// frame made before, every name means what it meant. So a definition
/// inside a procedure never alters one outside.
pub proof fn law_binding_is_local(
    store: Seq<Scope>,
    env: nat,
    name: Seq<char>,
    value: Value,
    from: nat,
    other: Seq<char>,
)
    requires
        chained(store),
        env < store.len(),
        from < env,
    ensures
        resolve(bind(store, env, name, value), from, other) == resolve(store, from, other),
    decreases from,
{
    let after = bind(store, env, name, value);
    assert(after[from as int] == store[from as int]);
    if !store[from as int].bindings.contains_key(other) {
        match store[from as int].outer {
            Some(o) => {
                if o < from {
                    law_binding_is_local(store, env, name, value, o, other);
                }
            },
            None => {},
        }
    }
}

/// Binding one name leaves every other name as it was, seen from any frame.
pub proof fn law_binding_spares_other_names(
    store: Seq<Scope>,
    env: nat,
    name: Seq<char>,
    value: Value,
    from: nat,
    other: Seq<char>,
)
    requires
        env < store.len(),
        other != name,
    ensures
        resolve(bind(store, env, name, value), from, other) == resolve(store, from, other),
    decreases from,
{
    let after = bind(store, env, name, value);
    if from < store.len() {
        assert(after[from as int].outer == store[from as int].outer);
        assert(after[from as int].bindings.contains_key(other) == store[from as int].bindings.contains_key(other));
        if !store[from as int].bindings.contains_key(other) {
            match store[from as int].outer {
                Some(o) => {
                    if o < from {
                        law_binding_spares_other_names(store, env, name, value, o, other);
                    }
                },
                None => {},
            }
        }
    }
}

/// A name that the frame itself does not bind means there what it means in
/// the enclosing frame.
pub proof fn law_lookup_goes_outward(store: Seq<Scope>, env: nat, name: Seq<char>)
    requires
        chained(store),
        env < store.len(),
        !store[env as int].bindings.contains_key(name),
    ensures
        resolve(store, env, name) == match store[env as int].outer {
            Some(outer) => resolve(store, outer, name),
            None => None,
        },
{
}

/// A new frame shadows nothing until something is bound in it: every name
/// means in it what it means in the frame that encloses it.
pub proof fn law_new_frame_sees_outer(store: Seq<Scope>, outer: nat, name: Seq<char>)
    requires
        chained(store),
        outer < store.len(),
    ensures
        resolve(extend(store, outer), store.len(), name) == resolve(store, outer, name),
{
    lemma_extend_spares(store, outer, outer, name);
}

proof fn lemma_extend_spares(store: Seq<Scope>, outer: nat, from: nat, name: Seq<char>)
    requires
        from < store.len(),
    ensures
        resolve(extend(store, outer), from, name) == resolve(store, from, name),
    decreases from,
{
    let after = extend(store, outer);
    assert(after[from as int] == store[from as int]);
    if !store[from as int].bindings.contains_key(name) {
        match store[from as int].outer {
            Some(o) => {
                if o < from {
                    lemma_extend_spares(store, outer, o, name);
                }
            },
            None => {},
        }
    }
}

} // verus!
