//! Environments: scope frames that chain outward, all held in one store and
//! named by their handles, so that many procedures can share one frame.

use vstd::prelude::*;
use crate::lisp::modules::comparison::{self, with_comparison};
use crate::lisp::modules::math::{self, with_math};
use crate::lisp::number::PI;
use crate::lisp::text::same_text;
use crate::lisp::types::{Failure, RLError, RLResult, RLType, Value, outcome};

verus! {

/// The handle of one frame of a store.
pub type Env = usize;

/// A name and the value bound to it.
#[derive(Debug)]
pub struct Binding {
    pub key: String,
    pub expr: RLType,
}

/// One scope: its own bindings and the frame that encloses it, if any. The
/// bindings are a list in which no name occurs twice: the laws of the
/// standard hash map are known for keys that are integers, not for strings.
#[derive(Debug)]
pub struct Frame {
    bindings: Vec<Binding>,
    outer: Option<Env>,
}

/// The frames of one interpreter. The first frame is the global one; a frame
/// is never removed, so a handle stays good for the life of the store.
#[derive(Debug)]
pub struct Environment {
    frames: Vec<Frame>,
}

/// The model of a frame: a finite map from names to values, and the handle
/// of the enclosing frame.
pub struct Scope {
    pub bindings: Map<Seq<char>, Value>,
    pub outer: Option<nat>,
}

/// The handle of the global frame.
pub const GLOBAL: Env = 0;

/// An empty frame inside `outer`, or at the top where there is none.
pub open spec fn fresh(outer: Option<nat>) -> Scope {
    Scope { bindings: Map::empty(), outer }
}

/// Every frame is enclosed by an earlier one, so that walking outward ends.
pub open spec fn chained(store: Seq<Scope>) -> bool {
    forall|i: int| 0 <= i < store.len() ==> ((#[trigger] store[i]).outer matches Some(o) ==> o < i)
}

/// What `name` means in frame `env`: the nearest binding outward.
pub open spec fn resolve(store: Seq<Scope>, env: nat, name: Seq<char>) -> Option<Value>
    decreases env,
{
    if env >= store.len() {
        None
    } else if store[env as int].bindings.contains_key(name) {
        Some(store[env as int].bindings[name])
    } else {
        match store[env as int].outer {
            Some(o) => if o < env {
                resolve(store, o, name)
            } else {
                None
            },
            None => None,
        }
    }
}

/// The store after `name` is bound to `value` in frame `env` and nowhere else.
pub open spec fn bind(store: Seq<Scope>, env: nat, name: Seq<char>, value: Value) -> Seq<Scope> {
    store.update(
        env as int,
        Scope { bindings: store[env as int].bindings.insert(name, value), outer: store[env as int].outer },
    )
}

/// The store with one more frame, empty and enclosed by `outer`.
pub open spec fn extend(store: Seq<Scope>, outer: nat) -> Seq<Scope> {
    store.push(fresh(Some(outer)))
}

/// The store after each of `names` is bound to the value at its place, in
/// frame `env` and in order.
pub open spec fn bind_all(store: Seq<Scope>, env: nat, names: Seq<Seq<char>>, values: Seq<Value>) -> Seq<Scope>
    decreases names.len(),
{
    if names.len() == 0 || values.len() == 0 {
        store
    } else {
        bind_all(bind(store, env, names[0], values[0]), env, names.drop_first(), values.drop_first())
    }
}

/// The store that evaluation starts from: one frame, which binds `pi`, the
/// four arithmetic procedures and the five comparisons.
pub open spec fn base() -> Seq<Scope> {
    with_comparison(with_math(bind(seq![fresh(None)], 0, "pi"@, Value::Number(PI)), 0), 0)
}

/// The names of a list of bindings, in order.
pub open spec fn keys(bindings: Seq<Binding>) -> Seq<Seq<char>> {
    Seq::new(bindings.len(), |i: int| bindings[i].key@)
}

/// The values of a list of bindings, in order.
pub open spec fn exprs(bindings: Seq<Binding>) -> Seq<Value> {
    Seq::new(bindings.len(), |i: int| bindings[i].expr@)
}

/// No name is bound twice.
pub open spec fn distinct(bindings: Seq<Binding>) -> bool {
    forall|i: int, j: int| 0 <= i < j < bindings.len() ==> bindings[i].key@ != bindings[j].key@
}

/// Whether `bindings[i]` binds `name`.
pub open spec fn binds(bindings: Seq<Binding>, name: Seq<char>, i: int) -> bool {
    0 <= i < bindings.len() && bindings[i].key@ == name
}

/// The map that a list of bindings stands for.
pub open spec fn bound(bindings: Seq<Binding>) -> Map<Seq<char>, Value> {
    Map::new(
        |name: Seq<char>| exists|i: int| binds(bindings, name, i),
        |name: Seq<char>| bindings[choose|i: int| binds(bindings, name, i)].expr@,
    )
}

impl View for Frame {
    type V = Scope;

    closed spec fn view(&self) -> Scope {
        Scope {
            bindings: bound(self.bindings@),
            outer: match self.outer {
                Some(o) => Some(o as nat),
                None => None,
            },
        }
    }
}

impl Frame {
    /// The place of `name` among the bindings.
    fn find(&self, name: &str) -> (r: Option<usize>)
        ensures
            match r {
                Some(i) => binds(self.bindings@, name@, i as int),
                None => forall|i: int| !binds(self.bindings@, name@, i),
            },
    {
        let mut i: usize = 0;
        while i < self.bindings.len()
            invariant
                i <= self.bindings.len(),
                forall|k: int| 0 <= k < i ==> !binds(self.bindings@, name@, k),
            decreases self.bindings.len() - i,
        {
            if same_text(self.bindings[i].key.as_str(), name) {
                return Some(i);
            }
            i += 1;
        }
        None
    }
}

proof fn lemma_bound_at(bindings: Seq<Binding>, i: int)
    requires
        distinct(bindings),
        0 <= i < bindings.len(),
    ensures
        bound(bindings).contains_key(bindings[i].key@),
        bound(bindings)[bindings[i].key@] == bindings[i].expr@,
{
    let name = bindings[i].key@;
    assert(binds(bindings, name, i));
    let j = choose|j: int| binds(bindings, name, j);
    assert(j == i);
}

proof fn lemma_bound_update(bindings: Seq<Binding>, i: int, b: Binding)
    requires
        distinct(bindings),
        0 <= i < bindings.len(),
        b.key@ == bindings[i].key@,
    ensures
        distinct(bindings.update(i, b)),
        bound(bindings.update(i, b)) == bound(bindings).insert(b.key@, b.expr@),
{
    let after = bindings.update(i, b);
    assert(distinct(after));
    assert forall|name: Seq<char>| #[trigger]
        bound(after).contains_key(name) == bound(bindings).insert(b.key@, b.expr@).contains_key(name) by {
        if bound(after).contains_key(name) {
            let j = choose|j: int| binds(after, name, j);
            assert(binds(bindings, name, j));
        }
        if bound(bindings).contains_key(name) {
            let j = choose|j: int| binds(bindings, name, j);
            assert(binds(after, name, j));
        }
        if name == b.key@ {
            assert(binds(after, name, i));
        }
    }
    assert forall|name: Seq<char>| #[trigger] bound(after).contains_key(name) implies bound(after)[name] == bound(
        bindings,
    ).insert(b.key@, b.expr@)[name] by {
        let j = choose|j: int| binds(after, name, j);
        lemma_bound_at(after, j);
        if j != i {
            lemma_bound_at(bindings, j);
        }
    }
    assert(bound(after) =~= bound(bindings).insert(b.key@, b.expr@));
}

proof fn lemma_bound_push(bindings: Seq<Binding>, b: Binding)
    requires
        distinct(bindings),
        forall|i: int| !binds(bindings, b.key@, i),
    ensures
        distinct(bindings.push(b)),
        bound(bindings.push(b)) == bound(bindings).insert(b.key@, b.expr@),
{
    let after = bindings.push(b);
    assert forall|i: int, j: int| 0 <= i < j < after.len() implies after[i].key@ != after[j].key@ by {
        if j == bindings.len() {
            assert(!binds(bindings, b.key@, i));
        }
    }
    assert forall|name: Seq<char>| #[trigger]
        bound(after).contains_key(name) == bound(bindings).insert(b.key@, b.expr@).contains_key(name) by {
        if bound(after).contains_key(name) {
            let j = choose|j: int| binds(after, name, j);
            if j < bindings.len() {
                assert(binds(bindings, name, j));
            }
        }
        if bound(bindings).contains_key(name) {
            let j = choose|j: int| binds(bindings, name, j);
            assert(binds(after, name, j));
        }
        if name == b.key@ {
            assert(binds(after, name, bindings.len() as int));
        }
    }
    assert forall|name: Seq<char>| #[trigger] bound(after).contains_key(name) implies bound(after)[name] == bound(
        bindings,
    ).insert(b.key@, b.expr@)[name] by {
        let j = choose|j: int| binds(after, name, j);
        lemma_bound_at(after, j);
        if j < bindings.len() {
            lemma_bound_at(bindings, j);
        }
    }
    assert(bound(after) =~= bound(bindings).insert(b.key@, b.expr@));
}

impl View for Environment {
    type V = Seq<Scope>;

    closed spec fn view(&self) -> Seq<Scope> {
        Seq::new(self.frames@.len(), |i: int| self.frames@[i]@)
    }
}

impl Environment {
    /// The invariant of a store: it has its global frame, every frame is
    /// enclosed by an earlier one, and no frame binds a name twice.
    pub closed spec fn well_formed(&self) -> bool {
        &&& self.frames@.len() > 0
        &&& chained(self@)
        &&& forall|i: int| 0 <= i < self.frames@.len() ==> distinct(#[trigger] self.frames@[i].bindings@)
    }

    /// A well-formed store has its global frame and is chained.
    pub proof fn law_well_formed_is_chained(&self)
        requires
            self.well_formed(),
        ensures
            self@.len() > 0,
            chained(self@),
    {
    }

    /// A store that holds the global frame, empty.
    pub fn new() -> (r: Environment)
        ensures
            r.well_formed(),
            r@ == seq![fresh(None)],
    {
        let mut frames: Vec<Frame> = Vec::new();
        frames.push(Frame { bindings: Vec::new(), outer: None });
        let r = Environment { frames };
        assert(bound(r.frames@[0].bindings@) =~= Map::empty());
        assert(r@ =~= seq![fresh(None)]);
        r
    }

    /// The store that evaluation starts from: the global frame with `pi`,
    /// the arithmetic procedures and the comparisons.
    pub fn default() -> (r: Environment)
        ensures
            r.well_formed(),
            r@ == base(),
    {
        let mut store = Environment::new();
        store.insert(GLOBAL, "pi".to_owned(), RLType::Number(PI));
        math::add_module(&mut store, GLOBAL);
        comparison::add_module(&mut store, GLOBAL);
        store
    }

    /// Whether `env` is the handle of a frame of this store.
    pub fn contains(&self, env: Env) -> (r: bool)
        ensures
            r == (env < self@.len()),
    {
        env < self.frames.len()
    }

    /// Adds an empty frame enclosed by `outer` and returns its handle.
    pub fn new_with_outer(&mut self, outer: Env) -> (r: Env)
        requires
            old(self).well_formed(),
            outer < old(self)@.len(),
        ensures
            final(self).well_formed(),
            final(self)@ == extend(old(self)@, outer as nat),
            r == old(self)@.len(),
    {
        let r = self.frames.len();
        self.frames.push(Frame { bindings: Vec::new(), outer: Some(outer) });
        assert(bound(self.frames@[r as int].bindings@) =~= Map::empty());
        assert(self@ =~= extend(old(self)@, outer as nat));
        r
    }

    /// Adds a frame enclosed by `outer`, binds each of `binds` in it, in
    /// order, and returns its handle.
    pub fn new_with_bindings(&mut self, outer: Env, binds: Vec<Binding>) -> (r: Env)
        requires
            old(self).well_formed(),
            outer < old(self)@.len(),
        ensures
            final(self).well_formed(),
            r == old(self)@.len(),
            final(self)@ == bind_all(extend(old(self)@, outer as nat), r as nat, keys(binds@), exprs(binds@)),
            final(self)@.len() == old(self)@.len() + 1,
    {
        let env = self.new_with_outer(outer);
        let ghost opened = self@;
        let ghost names = keys(binds@);
        let ghost values = exprs(binds@);
        let mut pending = binds;
        assert(names.skip(0) =~= names);
        assert(values.skip(0) =~= values);
        let mut i: usize = 0;
        let n = pending.len();
        while pending.len() > 0
            invariant
                self.well_formed(),
                env < self@.len(),
                self@.len() == opened.len(),
                i + pending.len() == n,
                n == names.len(),
                n == values.len(),
                keys(pending@) == names.skip(i as int),
                exprs(pending@) == values.skip(i as int),
                bind_all(self@, env as nat, names.skip(i as int), values.skip(i as int)) == bind_all(
                    opened,
                    env as nat,
                    names,
                    values,
                ),
            decreases pending.len(),
        {
            let ghost before = pending@;
            let binding = pending.remove(0);
            assert(binding.key@ == keys(before)[0]);
            assert(binding.expr@ == exprs(before)[0]);
            assert forall|k: int| 0 <= k < pending@.len() implies pending@[k] == before[k + 1] by {}
            assert(keys(pending@) =~= keys(before).drop_first());
            assert(exprs(pending@) =~= exprs(before).drop_first());
            assert(names.skip(i as int).drop_first() =~= names.skip(i + 1));
            assert(values.skip(i as int).drop_first() =~= values.skip(i + 1));
            self.insert(env, binding.key, binding.expr);
            i += 1;
        }
        env
    }

    /// What `name` means in frame `env`: the value of the nearest binding
    /// outward, or the error that names the symbol where no frame binds it.
    pub fn lookup(&self, env: Env, name: &str) -> (r: RLResult)
        requires
            self.well_formed(),
            env < self@.len(),
        ensures
            outcome(r) == match resolve(self@, env as nat, name@) {
                Some(value) => Ok::<Value, Failure>(value),
                None => Err(Failure::Unbound(name@)),
            },
    {
        let mut at: usize = env;
        loop
            invariant
                self.well_formed(),
                at < self@.len(),
                resolve(self@, at as nat, name@) == resolve(self@, env as nat, name@),
            decreases at,
        {
            let frame = &self.frames[at];
            match frame.find(name) {
                Some(i) => {
                    proof {
                        lemma_bound_at(frame.bindings@, i as int);
                    }
                    return Ok(frame.bindings[i].expr.clone());
                },
                None => {
                    assert(!bound(frame.bindings@).contains_key(name@)) by {
                        if bound(frame.bindings@).contains_key(name@) {
                            let j = choose|j: int| binds(frame.bindings@, name@, j);
                            assert(binds(frame.bindings@, name@, j));
                        }
                    }
                    match frame.outer {
                        Some(o) => {
                            assert(self@[at as int].outer == Some(o as nat));
                            at = o;
                        },
                        None => {
                            return Err(RLError::Unbound(name.to_owned()));
                        },
                    }
                },
            }
        }
    }

    /// Binds `name` to `value` in frame `env`, in place of what `name` was
    /// bound to there; no other frame changes.
    pub fn insert(&mut self, env: Env, name: String, value: RLType)
        requires
            old(self).well_formed(),
            env < old(self)@.len(),
        ensures
            final(self).well_formed(),
            final(self)@ == bind(old(self)@, env as nat, name@, value@),
    {
        let found = self.frames[env].find(name.as_str());
        let ghost before = self.frames@[env as int].bindings@;
        let binding = Binding { key: name, expr: value };
        match found {
            Some(i) => {
                proof {
                    lemma_bound_update(before, i as int, binding);
                }
                self.frames[env].bindings[i] = binding;
            },
            None => {
                proof {
                    lemma_bound_push(before, binding);
                }
                self.frames[env].bindings.push(binding);
            },
        }
        assert(self@ =~= bind(old(self)@, env as nat, name@, value@));
    }
}

} // verus!
