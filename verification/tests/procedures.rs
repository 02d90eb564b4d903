use lispr::lisp::env::Environment;
use lispr::lisp::eval::{
    eval_core, eval_create_lambda, eval_def, eval_do, eval_exec_lambda, eval_if, eval_list,
    eval_make_list, eval_proc, eval_quote, make_atomic, special_form, SpecialForm,
};
use lispr::lisp::lex::ParseError;
use lispr::lisp::modules::call;
use lispr::lisp::modules::comparison::{check_two_numbers, eq, gt, gte, lt, lte};
use lispr::lisp::modules::math;
use lispr::lisp::number::{equal_to, less_than, nan, no_more_than, zero, INFINITY, ONE, PI, ZERO};
use lispr::lisp::print::print;
use lispr::lisp::text::same_text;
use lispr::lisp::types::{
    clone_items, clone_names, error, Builtin, Operator, RLClosure, RLError, RLType,
};

const DEPTH: usize = 64;

fn arith(op: Operator, a: u32, b: u32) -> u32 {
    let x = f32::from_bits(a);
    let y = f32::from_bits(b);
    let r = match op {
        Operator::Add => x + y,
        Operator::Sub => x - y,
        Operator::Mul => x * y,
        Operator::Div => x / y,
    };
    if r.is_nan() {
        f32::NAN.to_bits()
    } else {
        r.to_bits()
    }
}

fn write(bits: u32) -> String {
    format!("{}", f32::from_bits(bits))
}

fn number(n: f32) -> RLType {
    RLType::Number(n.to_bits())
}

fn symbol(name: &str) -> RLType {
    RLType::Symbol(name.to_string())
}

fn numbers(items: &[f32]) -> Vec<RLType> {
    items.iter().map(|n| number(*n)).collect()
}

fn samples() -> Vec<f32> {
    vec![
        0.0,
        -0.0,
        1.0,
        -1.0,
        0.5,
        -0.5,
        3.0,
        2.0,
        1e-45,
        -1e-45,
        f32::MIN_POSITIVE,
        f32::MAX,
        f32::MIN,
        f32::INFINITY,
        f32::NEG_INFINITY,
        f32::NAN,
        -f32::NAN,
        f32::from_bits(0x7f80_0001),
        f32::from_bits(0xffff_ffff),
        123456.78,
        -123456.78,
    ]
}

#[test]
fn the_constants_are_the_bits_of_their_numbers() {
    assert_eq!(ZERO, 0.0f32.to_bits());
    assert_eq!(ONE, 1.0f32.to_bits());
    assert_eq!(PI, 3.14159265f32.to_bits());
    assert_eq!(INFINITY, f32::INFINITY.to_bits());
}

#[test]
fn numbers_are_ordered_as_floats_are() {
    for a in samples() {
        for b in samples() {
            let (x, y) = (a.to_bits(), b.to_bits());
            assert_eq!(less_than(x, y), a < b, "{} < {}", a, b);
            assert_eq!(no_more_than(x, y), a <= b, "{} <= {}", a, b);
            assert_eq!(equal_to(x, y), a == b, "{} == {}", a, b);
        }
    }
}

#[test]
fn numbers_are_tested_as_floats_are() {
    for a in samples() {
        assert_eq!(nan(a.to_bits()), a.is_nan(), "{}", a);
        assert_eq!(zero(a.to_bits()), a == 0.0, "{}", a);
    }
}

#[test]
fn add_sums_from_zero() {
    assert_eq!(math::add(numbers(&[2.0, 1.0]), &arith), Ok(number(3.0)));
    assert_eq!(math::add(numbers(&[3.0, 2.0, 1.0]), &arith), Ok(number(6.0)));
    assert_eq!(math::add(numbers(&[-0.0, -0.0]), &arith), Ok(number(0.0)));
    assert_eq!(math::add(numbers(&[1.0]), &arith), Err(RLError::InvalidArity));
    assert_eq!(math::add(vec![], &arith), Err(RLError::InvalidArity));
    assert_eq!(
        math::add(vec![number(1.0), symbol("x"), RLType::True], &arith),
        Err(RLError::NotANumber(symbol("x")))
    );
}

#[test]
fn sub_subtracts_from_the_first() {
    assert_eq!(math::sub(numbers(&[3.0, 2.0, 1.0]), &arith), Ok(number(0.0)));
    assert_eq!(math::sub(numbers(&[1.0, 2.0]), &arith), Ok(number(-1.0)));
    assert_eq!(math::sub(numbers(&[1.0]), &arith), Err(RLError::InvalidArity));
    assert_eq!(
        math::sub(vec![RLType::Nil, number(1.0)], &arith),
        Err(RLError::NotANumber(RLType::Nil))
    );
    assert_eq!(
        math::sub(vec![number(1.0), RLType::False], &arith),
        Err(RLError::NotANumber(RLType::False))
    );
}

#[test]
fn mul_multiplies_from_one() {
    assert_eq!(math::mul(numbers(&[2.0, 3.0, 4.0]), &arith), Ok(number(24.0)));
    assert_eq!(math::mul(numbers(&[2.0, 0.5]), &arith), Ok(number(1.0)));
    assert_eq!(math::mul(numbers(&[2.0]), &arith), Err(RLError::InvalidArity));
    assert_eq!(
        math::mul(vec![RLType::List(vec![]), number(1.0)], &arith),
        Err(RLError::NotANumber(RLType::List(vec![])))
    );
}

#[test]
fn div_divides_the_first() {
    assert_eq!(math::div(numbers(&[8.0, 2.0, 2.0]), &arith), Ok(number(2.0)));
    assert_eq!(math::div(numbers(&[1.0, 8.0]), &arith), Ok(number(0.125)));
    assert_eq!(math::div(numbers(&[0.0, 8.0]), &arith), Ok(number(0.0)));
    assert_eq!(math::div(numbers(&[8.0]), &arith), Err(RLError::InvalidArity));
    assert_eq!(math::div(numbers(&[8.0, 0.0]), &arith), Err(RLError::DivisionByZero));
    assert_eq!(math::div(numbers(&[8.0, -0.0]), &arith), Err(RLError::DivisionByZero));
    assert_eq!(
        math::div(numbers(&[8.0, 2.0, 0.0, 4.0]), &arith),
        Err(RLError::DivisionByZero)
    );
    assert_eq!(
        math::div(vec![number(8.0), RLType::True, number(0.0)], &arith),
        Err(RLError::NotANumber(RLType::True))
    );
    assert_eq!(
        math::div(vec![RLType::True, number(0.0)], &arith),
        Err(RLError::NotANumber(RLType::True))
    );
}

#[test]
fn the_operations_are_those_of_the_host() {
    let first = |_: Operator, a: u32, _: u32| a;
    assert_eq!(math::add(numbers(&[2.0, 1.0]), &first), Ok(number(0.0)));
    assert_eq!(math::mul(numbers(&[2.0, 3.0]), &first), Ok(number(1.0)));
    assert_eq!(math::sub(numbers(&[5.0, 3.0]), &first), Ok(number(5.0)));
    let tag = |op: Operator, _: u32, _: u32| match op {
        Operator::Add => 1,
        Operator::Sub => 2,
        Operator::Mul => 3,
        Operator::Div => 4,
    };
    assert_eq!(math::add(numbers(&[2.0, 1.0]), &tag), Ok(RLType::Number(1)));
    assert_eq!(math::sub(numbers(&[2.0, 1.0]), &tag), Ok(RLType::Number(2)));
    assert_eq!(math::mul(numbers(&[2.0, 1.0]), &tag), Ok(RLType::Number(3)));
    assert_eq!(math::div(numbers(&[2.0, 1.0]), &tag), Ok(RLType::Number(4)));
}

#[test]
fn comparisons_compare_two_numbers() {
    assert_eq!(gt(numbers(&[3.0, 2.0])), Ok(RLType::True));
    assert_eq!(gt(numbers(&[2.0, 2.0])), Ok(RLType::False));
    assert_eq!(gte(numbers(&[2.0, 2.0])), Ok(RLType::True));
    assert_eq!(gte(numbers(&[1.0, 2.0])), Ok(RLType::False));
    assert_eq!(lt(numbers(&[1.0, 2.0])), Ok(RLType::True));
    assert_eq!(lt(numbers(&[2.0, 2.0])), Ok(RLType::False));
    assert_eq!(lte(numbers(&[2.0, 2.0])), Ok(RLType::True));
    assert_eq!(lte(numbers(&[3.0, 2.0])), Ok(RLType::False));
    assert_eq!(eq(numbers(&[2.0, 2.0])), Ok(RLType::True));
    assert_eq!(eq(numbers(&[2.0, 3.0])), Ok(RLType::False));
    assert_eq!(eq(numbers(&[f32::NAN, f32::NAN])), Ok(RLType::False));
    assert_eq!(lte(numbers(&[f32::NAN, 1.0])), Ok(RLType::False));
    assert_eq!(gte(numbers(&[f32::INFINITY, f32::MAX])), Ok(RLType::True));
}

#[test]
fn comparisons_tell_the_count_from_the_kind() {
    assert_eq!(gt(numbers(&[3.0])), Err(RLError::InvalidArity));
    assert_eq!(gte(numbers(&[])), Err(RLError::InvalidArity));
    assert_eq!(lt(numbers(&[1.0, 2.0, 3.0])), Err(RLError::InvalidArity));
    assert_eq!(lte(vec![RLType::True]), Err(RLError::InvalidArity));
    assert_eq!(
        eq(vec![RLType::True, RLType::Nil]),
        Err(RLError::NotANumber(RLType::True))
    );
    assert_eq!(
        eq(vec![number(1.0), RLType::Nil]),
        Err(RLError::NotANumber(RLType::Nil))
    );
}

#[test]
fn check_two_numbers_hands_out_the_pair() {
    assert_eq!(
        check_two_numbers(numbers(&[1.0, 2.0])),
        Ok((1.0f32.to_bits(), 2.0f32.to_bits()))
    );
    assert_eq!(check_two_numbers(numbers(&[1.0])), Err(RLError::InvalidArity));
    assert_eq!(
        check_two_numbers(vec![symbol("a"), symbol("b")]),
        Err(RLError::NotANumber(symbol("a")))
    );
}

#[test]
fn call_goes_by_the_tag() {
    assert_eq!(call(Builtin::Add, numbers(&[8.0, 2.0]), &arith), Ok(number(10.0)));
    assert_eq!(call(Builtin::Sub, numbers(&[8.0, 2.0]), &arith), Ok(number(6.0)));
    assert_eq!(call(Builtin::Mul, numbers(&[8.0, 2.0]), &arith), Ok(number(16.0)));
    assert_eq!(call(Builtin::Div, numbers(&[8.0, 2.0]), &arith), Ok(number(4.0)));
    assert_eq!(call(Builtin::Gt, numbers(&[8.0, 2.0]), &arith), Ok(RLType::True));
    assert_eq!(call(Builtin::Gte, numbers(&[8.0, 2.0]), &arith), Ok(RLType::True));
    assert_eq!(call(Builtin::Lt, numbers(&[8.0, 2.0]), &arith), Ok(RLType::False));
    assert_eq!(call(Builtin::Lte, numbers(&[8.0, 2.0]), &arith), Ok(RLType::False));
    assert_eq!(call(Builtin::Eq, numbers(&[8.0, 2.0]), &arith), Ok(RLType::False));
}

#[test]
fn special_form_knows_the_six_forms() {
    assert_eq!(special_form("quote"), Some(SpecialForm::Quote));
    assert_eq!(special_form("if"), Some(SpecialForm::If));
    assert_eq!(special_form("def!"), Some(SpecialForm::Def));
    assert_eq!(special_form("lambda"), Some(SpecialForm::Lambda));
    assert_eq!(special_form("do"), Some(SpecialForm::Do));
    assert_eq!(special_form("list"), Some(SpecialForm::List));
    assert_eq!(special_form("def"), None);
    assert_eq!(special_form("IF"), None);
    assert_eq!(special_form("+"), None);
    assert_eq!(special_form(""), None);
}

#[test]
fn same_text_compares_characters() {
    assert!(same_text("", ""));
    assert!(same_text("abc", "abc"));
    assert!(same_text("λé", "λé"));
    assert!(!same_text("abc", "abd"));
    assert!(!same_text("abc", "ab"));
    assert!(!same_text("é", "e"));
}

#[test]
fn is_atom_is_false_of_lists_only() {
    assert!(RLType::Nil.is_atom());
    assert!(RLType::True.is_atom());
    assert!(RLType::False.is_atom());
    assert!(symbol("x").is_atom());
    assert!(number(1.0).is_atom());
    assert!(RLType::Proc(Builtin::Add).is_atom());
    let closure = RLClosure { ast: Box::new(RLType::Nil), bindings: vec![], env: 0 };
    assert!(RLType::Lambda(closure).is_atom());
    assert!(!RLType::List(vec![]).is_atom());
    assert!(!RLType::List(vec![RLType::Nil]).is_atom());
}

#[test]
fn clones_are_equal_to_what_they_copy() {
    let closure = RLClosure {
        ast: Box::new(RLType::List(vec![symbol("+"), symbol("x"), number(1.0)])),
        bindings: vec!["x".to_string()],
        env: 3,
    };
    let value = RLType::List(vec![
        RLType::Nil,
        RLType::True,
        symbol("s"),
        number(2.5),
        RLType::Proc(Builtin::Lte),
        RLType::Lambda(closure),
        RLType::List(vec![RLType::False]),
    ]);
    assert_eq!(value.clone(), value);
    let items = vec![value.clone(), number(1.0)];
    assert_eq!(clone_items(&items), items);
    let names = vec!["a".to_string(), "é".to_string()];
    assert_eq!(clone_names(&names), names);
}

#[test]
fn errors_say_what_went_wrong() {
    assert_eq!(RLError::Message("boom".to_string()).get_message(&write), "boom");
    assert_eq!(
        RLError::InvalidValue(RLType::Nil).get_message(&write),
        "Invalid value: nil"
    );
    assert_eq!(
        RLError::Parse(ParseError::UnbalancedParens).get_message(&write),
        "Unbalanced parentheses"
    );
    assert_eq!(
        RLError::Parse(ParseError::EOFReached).get_message(&write),
        "Unexpected end of input"
    );
    assert_eq!(
        RLError::Unbound("z".to_string()).get_message(&write),
        "No value for key: z"
    );
    assert_eq!(
        RLError::NotCallable("five".to_string()).get_message(&write),
        "Not a function: five"
    );
    assert_eq!(
        RLError::InvalidArity.get_message(&write),
        "Invalid number of arguments"
    );
    assert_eq!(
        RLError::NotANumber(RLType::True).get_message(&write),
        "Not a number: #t"
    );
    assert_eq!(
        RLError::NotANumber(RLType::List(vec![number(1.0), symbol("x")])).get_message(&write),
        "Not a number: [1, \"x\"]"
    );
    assert_eq!(RLError::DivisionByZero.get_message(&write), "Division by zero");
    assert_eq!(
        RLError::NotASymbol(number(1.5)).get_message(&write),
        "Not a symbol: 1.5"
    );
    assert_eq!(RLError::DepthExceeded.get_message(&write), "Nesting too deep");
}

#[test]
fn values_are_printed_as_text() {
    assert_eq!(print(&RLType::Nil, &write), "nil");
    assert_eq!(print(&RLType::True, &write), "#t");
    assert_eq!(print(&RLType::False, &write), "#f");
    assert_eq!(print(&symbol("x"), &write), "\"x\"");
    assert_eq!(print(&symbol(""), &write), "\"\"");
    assert_eq!(print(&number(3.0), &write), "3");
    assert_eq!(print(&number(-0.25), &write), "-0.25");
    assert_eq!(print(&number(f32::INFINITY), &write), "inf");
    assert_eq!(print(&RLType::Proc(Builtin::Add), &write), "proc");
    let closure = RLClosure { ast: Box::new(RLType::Nil), bindings: vec![], env: 0 };
    assert_eq!(print(&RLType::Lambda(closure), &write), "lambda");
    assert_eq!(print(&RLType::List(vec![]), &write), "[]");
    assert_eq!(print(&RLType::List(vec![number(1.0)]), &write), "[1]");
    assert_eq!(
        print(
            &RLType::List(vec![
                number(1.0),
                symbol("x"),
                RLType::List(vec![RLType::True, RLType::Nil]),
                RLType::List(vec![]),
            ]),
            &write
        ),
        "[1, \"x\", [#t, nil], []]"
    );
}

#[test]
fn numbers_are_printed_as_the_host_writes_them() {
    let hex = |bits: u32| format!("{:#x}", bits);
    assert_eq!(
        print(&RLType::List(vec![RLType::Number(255), RLType::Number(16)]), &hex),
        "[0xff, 0x10]"
    );
    assert_eq!(
        RLError::NotASymbol(RLType::Number(1)).get_message(&hex),
        "Not a symbol: 0x1"
    );
}

#[test]
fn error_makes_a_failure_of_a_message() {
    assert_eq!(
        error("Not a keyword".to_string()),
        Err(RLError::Message("Not a keyword".to_string()))
    );
}

#[test]
fn eval_list_dispatches_on_the_head() {
    let mut store = Environment::default();
    assert_eq!(
        eval_list(vec![], 0, &mut store, DEPTH, &arith),
        Ok(RLType::List(vec![]))
    );
    assert_eq!(
        eval_list(vec![symbol("+"), number(1.0), number(2.0)], 0, &mut store, DEPTH, &arith),
        Ok(number(3.0))
    );
    assert_eq!(
        eval_list(vec![symbol("quote"), symbol("a")], 0, &mut store, DEPTH, &arith),
        Ok(symbol("a"))
    );
    assert_eq!(
        eval_list(vec![RLType::Proc(Builtin::Mul), number(3.0), number(2.0)], 0, &mut store, DEPTH, &arith),
        Ok(number(6.0))
    );
    assert_eq!(
        eval_list(vec![RLType::True, symbol("a")], 0, &mut store, DEPTH, &arith),
        Ok(RLType::List(vec![RLType::True, symbol("a")]))
    );
    assert_eq!(
        eval_list(vec![symbol("+")], 0, &mut store, 0, &arith),
        Err(RLError::DepthExceeded)
    );
}

#[test]
fn eval_core_goes_by_the_form() {
    let mut store = Environment::default();
    assert_eq!(
        eval_core(SpecialForm::Quote, vec![symbol("a")], 0, &mut store, DEPTH, &arith),
        Ok(symbol("a"))
    );
    assert_eq!(
        eval_core(SpecialForm::If, vec![RLType::True, number(1.0)], 0, &mut store, DEPTH, &arith),
        Ok(number(1.0))
    );
    assert_eq!(
        eval_core(SpecialForm::Def, vec![symbol("a"), number(1.0)], 0, &mut store, DEPTH, &arith),
        Ok(RLType::Nil)
    );
    assert_eq!(store.lookup(0, "a"), Ok(number(1.0)));
    assert_eq!(
        eval_core(SpecialForm::Do, vec![symbol("a")], 0, &mut store, DEPTH, &arith),
        Ok(number(1.0))
    );
    assert_eq!(
        eval_core(SpecialForm::List, vec![symbol("a")], 0, &mut store, DEPTH, &arith),
        Ok(RLType::List(vec![number(1.0)]))
    );
    let made = eval_core(SpecialForm::Lambda, vec![symbol("a")], 0, &mut store, DEPTH, &arith);
    assert_eq!(
        made,
        Ok(RLType::Lambda(RLClosure { ast: Box::new(symbol("a")), bindings: vec![], env: 0 }))
    );
}

#[test]
fn eval_quote_hands_back_its_argument() {
    assert_eq!(eval_quote(vec![symbol("a")]), Ok(symbol("a")));
    assert_eq!(eval_quote(vec![]), Err(RLError::InvalidArity));
    assert_eq!(eval_quote(vec![symbol("a"), symbol("b")]), Err(RLError::InvalidArity));
}

#[test]
fn eval_create_lambda_captures_the_frame() {
    let made = eval_create_lambda(
        vec![RLType::List(vec![symbol("a"), symbol("b")]), symbol("a")],
        4,
    );
    assert_eq!(
        made,
        Ok(RLType::Lambda(RLClosure {
            ast: Box::new(symbol("a")),
            bindings: vec!["a".to_string(), "b".to_string()],
            env: 4,
        }))
    );
    assert_eq!(
        eval_create_lambda(vec![RLType::List(vec![symbol("a"), RLType::Nil, number(1.0)]), symbol("a")], 0),
        Err(RLError::NotASymbol(RLType::Nil))
    );
    assert_eq!(eval_create_lambda(vec![], 0), Err(RLError::InvalidArity));
}

#[test]
fn eval_exec_lambda_binds_in_a_new_frame() {
    let mut store = Environment::default();
    store.insert(0, "x".to_string(), number(1.0));
    let closure = RLClosure {
        ast: Box::new(RLType::List(vec![symbol("+"), symbol("x"), symbol("y")])),
        bindings: vec!["y".to_string()],
        env: 0,
    };
    assert_eq!(
        eval_exec_lambda(closure.clone(), numbers(&[2.0]), &mut store, DEPTH, &arith),
        Ok(number(3.0))
    );
    assert!(store.contains(1));
    assert_eq!(store.lookup(1, "y"), Ok(number(2.0)));
    assert_eq!(store.lookup(0, "y"), Err(RLError::Unbound("y".to_string())));
    assert_eq!(
        eval_exec_lambda(closure.clone(), numbers(&[]), &mut store, DEPTH, &arith),
        Err(RLError::InvalidArity)
    );
    assert!(!store.contains(2));
}

#[test]
fn eval_exec_lambda_refuses_a_procedure_of_another_store() {
    let mut store = Environment::default();
    let closure = RLClosure { ast: Box::new(number(1.0)), bindings: vec![], env: 7 };
    assert_eq!(
        eval_exec_lambda(closure.clone(), vec![], &mut store, DEPTH, &arith),
        Err(RLError::InvalidValue(RLType::Lambda(closure)))
    );
    assert!(!store.contains(1));
}

#[test]
fn eval_proc_calls_what_the_name_is_bound_to() {
    let mut store = Environment::default();
    assert_eq!(
        eval_proc("*", numbers(&[2.0, 4.0]), 0, &mut store, DEPTH, &arith),
        Ok(number(8.0))
    );
    assert_eq!(
        eval_proc("pi", vec![], 0, &mut store, DEPTH, &arith),
        Err(RLError::NotCallable("pi".to_string()))
    );
    assert_eq!(
        eval_proc("nope", vec![], 0, &mut store, DEPTH, &arith),
        Err(RLError::Unbound("nope".to_string()))
    );
    assert_eq!(
        eval_proc("+", vec![number(1.0), symbol("nope")], 0, &mut store, DEPTH, &arith),
        Err(RLError::Unbound("nope".to_string()))
    );
}

#[test]
fn eval_def_binds_in_the_frame_given() {
    let mut store = Environment::default();
    let inner = store.new_with_outer(0);
    assert_eq!(
        eval_def(vec![symbol("a"), number(1.0), symbol("ignored")], inner, &mut store, DEPTH, &arith),
        Ok(RLType::Nil)
    );
    assert_eq!(store.lookup(inner, "a"), Ok(number(1.0)));
    assert_eq!(store.lookup(0, "a"), Err(RLError::Unbound("a".to_string())));
}

#[test]
fn eval_do_and_eval_if_and_eval_make_list() {
    let mut store = Environment::default();
    assert_eq!(
        eval_do(vec![number(1.0), number(2.0)], 0, &mut store, DEPTH, &arith),
        Ok(number(2.0))
    );
    assert_eq!(eval_do(vec![], 0, &mut store, DEPTH, &arith), Err(RLError::InvalidArity));
    assert_eq!(
        eval_if(vec![RLType::False, number(1.0), number(2.0)], 0, &mut store, DEPTH, &arith),
        Ok(number(2.0))
    );
    assert_eq!(
        eval_if(vec![RLType::False, number(1.0)], 0, &mut store, DEPTH, &arith),
        Ok(RLType::Nil)
    );
    assert_eq!(
        eval_make_list(vec![symbol("pi"), RLType::True], 0, &mut store, DEPTH, &arith),
        Ok(RLType::List(vec![number(3.14159265), RLType::True]))
    );
    assert_eq!(
        make_atomic(vec![symbol("pi"), symbol("nope"), symbol("pi")], 0, &mut store, DEPTH, &arith),
        Err(RLError::Unbound("nope".to_string()))
    );
    assert_eq!(
        make_atomic(vec![], 0, &mut store, DEPTH, &arith),
        Ok(RLType::List(vec![]))
    );
}
