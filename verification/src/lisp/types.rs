//! The values of the language, the errors of evaluation, and their models.

use vstd::prelude::*;
use crate::lisp::env::Env;
use crate::lisp::lex::{ParseError, parse_message};
use crate::lisp::number::{Numeral, writes, writings};
use crate::lisp::print::{print, printed};

verus! {

/// The arithmetic operations that the host computes on two numbers.
#[derive(Clone, Copy, Debug, PartialEq, Eq, Structural)]
pub enum Operator {
    Add,
    Sub,
    Mul,
    Div,
}

/// The native procedures, each known by its tag.
#[derive(Clone, Copy, Debug, PartialEq, Eq, Structural)]
pub enum Builtin {
    Add,
    Sub,
    Mul,
    Div,
    Gt,
    Gte,
    Lt,
    Lte,
    Eq,
}

/// A runtime value. `Number` holds the bits of a single-precision float,
/// `Proc` a native procedure, `Lambda` a user procedure with its scope.
/// Only `List` is not an atom.
#[derive(Debug, PartialEq)]
pub enum RLType {
    Nil,
    True,
    False,
    Symbol(String),
    Number(u32),
    Proc(Builtin),
    Lambda(RLClosure),
    List(Vec<RLType>),
}

/// A user procedure: its body, its parameter names in order, and the frame
/// in which it was created.
#[derive(Debug, PartialEq)]
pub struct RLClosure {
    pub ast: Box<RLType>,
    pub bindings: Vec<String>,
    pub env: Env,
}

/// Why an evaluation failed.
#[derive(Debug, PartialEq)]
pub enum RLError {
    /// A failure described only by its text.
    Message(String),
    /// A procedure whose scope is not a frame of the environment at hand.
    InvalidValue(RLType),
    /// The source text is not one form.
    Parse(ParseError),
    /// No frame of the scope chain binds the symbol.
    Unbound(String),
    /// The symbol at the head of a form is bound to something that is no procedure.
    NotCallable(String),
    /// A form or a procedure received the wrong number of arguments.
    InvalidArity,
    /// An operand of a numeric procedure is not a number.
    NotANumber(RLType),
    /// A divisor is zero.
    DivisionByZero,
    /// A name was required and something else was given.
    NotASymbol(RLType),
    /// The forms nest deeper than the depth allowed.
    DepthExceeded,
}

pub type RLResult = Result<RLType, RLError>;

/// The model of a value: what an [`RLType`] stands for.
pub enum Value {
    Nil,
    True,
    False,
    Symbol(Seq<char>),
    Number(u32),
    Proc(Builtin),
    Lambda(Closure),
    List(Seq<Value>),
}

/// The model of a user procedure.
pub struct Closure {
    pub params: Seq<Seq<char>>,
    pub body: Box<Value>,
    pub scope: nat,
}

/// The model of an error.
pub enum Failure {
    Message(Seq<char>),
    InvalidValue(Value),
    Parse(ParseError),
    Unbound(Seq<char>),
    NotCallable(Seq<char>),
    InvalidArity,
    NotANumber(Value),
    DivisionByZero,
    NotASymbol(Value),
    DepthExceeded,
}

/// The texts that a sequence of strings holds.
pub open spec fn texts(names: Seq<String>) -> Seq<Seq<char>> {
    Seq::new(names.len(), |i: int| names[i]@)
}

/// The values that a sequence of [`RLType`] stands for.
pub open spec fn models(items: Seq<RLType>) -> Seq<Value>
    decreases items,
{
    Seq::new(
        items.len(),
        |i: int|
            if 0 <= i < items.len() {
                items[i].model()
            } else {
                Value::Nil
            },
    )
}

impl RLClosure {
    pub open spec fn model(&self) -> Closure
        decreases self,
    {
        Closure { params: texts(self.bindings@), body: Box::new((*self.ast).model()), scope: self.env as nat }
    }
}

impl View for RLClosure {
    type V = Closure;

    open spec fn view(&self) -> Closure {
        self.model()
    }
}

impl RLType {
    pub open spec fn model(&self) -> Value
        decreases self,
    {
        match self {
            RLType::Nil => Value::Nil,
            RLType::True => Value::True,
            RLType::False => Value::False,
            RLType::Symbol(name) => Value::Symbol(name@),
            RLType::Number(bits) => Value::Number(*bits),
            RLType::Proc(tag) => Value::Proc(*tag),
            RLType::Lambda(closure) => Value::Lambda(closure.model()),
            RLType::List(items) => Value::List(models(items@)),
        }
    }

    /// Whether the value is an atom, that is anything but a list.
    pub fn is_atom(&self) -> (r: bool)
        ensures
            r == !(self@ is List),
    {
        match *self {
            RLType::List(_) => false,
            _ => true,
        }
    }
}

impl View for RLType {
    type V = Value;

    open spec fn view(&self) -> Value {
        self.model()
    }
}

impl View for RLError {
    type V = Failure;

    open spec fn view(&self) -> Failure {
        match self {
            RLError::Message(text) => Failure::Message(text@),
            RLError::InvalidValue(value) => Failure::InvalidValue(value@),
            RLError::Parse(e) => Failure::Parse(*e),
            RLError::Unbound(name) => Failure::Unbound(name@),
            RLError::NotCallable(name) => Failure::NotCallable(name@),
            RLError::InvalidArity => Failure::InvalidArity,
            RLError::NotANumber(value) => Failure::NotANumber(value@),
            RLError::DivisionByZero => Failure::DivisionByZero,
            RLError::NotASymbol(value) => Failure::NotASymbol(value@),
            RLError::DepthExceeded => Failure::DepthExceeded,
        }
    }
}

/// The model of a result of evaluation.
pub open spec fn outcome(r: RLResult) -> Result<Value, Failure> {
    match r {
        Ok(value) => Ok(value@),
        Err(e) => Err(e@),
    }
}

/// What an error says. An error about a symbol names it, and one about a
/// value shows it.
pub open spec fn message(numeral: Numeral, failure: Failure) -> Seq<char> {
    match failure {
        Failure::Message(text) => text,
        Failure::InvalidValue(value) => "Invalid value: "@ + printed(numeral, value),
        Failure::Parse(e) => parse_message(e),
        Failure::Unbound(name) => "No value for key: "@ + name,
        Failure::NotCallable(name) => "Not a function: "@ + name,
        Failure::InvalidArity => "Invalid number of arguments"@,
        Failure::NotANumber(value) => "Not a number: "@ + printed(numeral, value),
        Failure::DivisionByZero => "Division by zero"@,
        Failure::NotASymbol(value) => "Not a symbol: "@ + printed(numeral, value),
        Failure::DepthExceeded => "Nesting too deep"@,
    }
}

impl RLError {
    /// What the error says, with numbers as the host writes them.
    pub fn get_message<W: Fn(u32) -> String>(&self, write: &W) -> (r: String)
        requires
            writes(write),
        ensures
            r@ == message(writings(write), self@),
    {
        match self {
            RLError::Message(text) => text.clone(),
            RLError::InvalidValue(value) => "Invalid value: ".to_owned().concat(print(value, write).as_str()),
            RLError::Parse(e) => e.get_message(),
            RLError::Unbound(name) => "No value for key: ".to_owned().concat(name.as_str()),
            RLError::NotCallable(name) => "Not a function: ".to_owned().concat(name.as_str()),
            RLError::InvalidArity => "Invalid number of arguments".to_owned(),
            RLError::NotANumber(value) => "Not a number: ".to_owned().concat(print(value, write).as_str()),
            RLError::DivisionByZero => "Division by zero".to_owned(),
            RLError::NotASymbol(value) => "Not a symbol: ".to_owned().concat(print(value, write).as_str()),
            RLError::DepthExceeded => "Nesting too deep".to_owned(),
        }
    }
}

/// The failure that says `message` and no more.
pub fn error(message: String) -> (r: RLResult)
    ensures
        outcome(r) == Err::<Value, Failure>(Failure::Message(message@)),
{
    Err(RLError::Message(message))
}

/// A copy of the names, text for text.
pub fn clone_names(names: &Vec<String>) -> (out: Vec<String>)
    ensures
        texts(out@) == texts(names@),
{
    let mut out: Vec<String> = Vec::new();
    let mut i: usize = 0;
    while i < names.len()
        invariant
            i <= names.len(),
            out.len() == i,
            forall|k: int| 0 <= k < i ==> out@[k]@ == names@[k]@,
        decreases names.len() - i,
    {
        out.push(names[i].clone());
        i += 1;
    }
    assert(texts(out@) =~= texts(names@));
    out
}

/// A copy of the values, each standing for the same value as the one it copies.
pub fn clone_items(items: &Vec<RLType>) -> (out: Vec<RLType>)
    ensures
        models(out@) == models(items@),
    decreases items,
{
    let mut out: Vec<RLType> = Vec::new();
    let mut i: usize = 0;
    while i < items.len()
        invariant
            i <= items.len(),
            out.len() == i,
            forall|k: int| 0 <= k < i ==> out@[k]@ == items@[k]@,
        decreases items.len() - i,
    {
        out.push(items[i].clone());
        i += 1;
    }
    assert(models(out@) =~= models(items@));
    out
}

impl Clone for RLClosure {
    fn clone(&self) -> (r: Self)
        ensures
            r@ == self@,
        decreases self,
    {
        RLClosure { ast: Box::new((*self.ast).clone()), bindings: clone_names(&self.bindings), env: self.env }
    }
}

impl Clone for RLType {
    fn clone(&self) -> (r: Self)
        ensures
            r@ == self@,
        decreases self,
    {
        match self {
            RLType::Nil => RLType::Nil,
            RLType::True => RLType::True,
            RLType::False => RLType::False,
            RLType::Symbol(name) => RLType::Symbol(name.clone()),
            RLType::Number(bits) => RLType::Number(*bits),
            RLType::Proc(tag) => RLType::Proc(*tag),
            RLType::Lambda(closure) => RLType::Lambda(closure.clone()),
            RLType::List(items) => RLType::List(clone_items(items)),
        }
    }
}

} // verus!
