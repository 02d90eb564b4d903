use lispr::lisp::env::{Environment, GLOBAL};
use lispr::lisp::eval::parse_and_eval;
use lispr::lisp::lex::ParseError;
use lispr::lisp::types::{Operator, RLError, RLResult, RLType};

const DEPTH: usize = 512;

fn arith(op: Operator, a: u32, b: u32) -> u32 {
    let x = f32::from_bits(a);
    let y = f32::from_bits(b);
    let r = match op {
        Operator::Add => x + y,
        Operator::Sub => x - y,
        Operator::Mul => x * y,
        Operator::Div => x / y,
    };
    if r.is_nan() {
        f32::NAN.to_bits()
    } else {
        r.to_bits()
    }
}

fn read(text: &str) -> Option<u32> {
    text.parse::<f32>().ok().map(f32::to_bits)
}

fn run(store: &mut Environment, source: &str) -> RLResult {
    parse_and_eval(source, GLOBAL, store, DEPTH, &read, &arith)
}

fn number(n: f32) -> RLType {
    RLType::Number(n.to_bits())
}

fn symbol(name: &str) -> RLType {
    RLType::Symbol(name.to_string())
}

#[test]
fn quote_hands_back_the_list_unevaluated() {
    let mut store = Environment::default();
    let expected = RLType::List(vec![number(1.0), number(2.0), number(3.0)]);
    assert_eq!(run(&mut store, "(quote (1 2 3))"), Ok(expected));
}

#[test]
fn quote_does_not_look_up_symbols() {
    let mut store = Environment::default();
    let expected = RLType::List(vec![symbol("a"), RLType::List(vec![symbol("b"), symbol("c")])]);
    assert_eq!(run(&mut store, "(quote (a (b c)))"), Ok(expected));
    assert_eq!(run(&mut store, "(quote unbound)"), Ok(symbol("unbound")));
}

#[test]
fn quote_takes_exactly_one_argument() {
    let mut store = Environment::default();
    assert_eq!(run(&mut store, "(quote)"), Err(RLError::InvalidArity));
    assert_eq!(run(&mut store, "(quote a b)"), Err(RLError::InvalidArity));
}

#[test]
fn arithmetic_on_several_operands() {
    let mut store = Environment::default();
    assert_eq!(run(&mut store, "(+ 2 1)"), Ok(number(3.0)));
    assert_eq!(run(&mut store, "(+ 3 2 1)"), Ok(number(6.0)));
    assert_eq!(run(&mut store, "(- 3 2 1)"), Ok(number(0.0)));
    assert_eq!(run(&mut store, "(* 2 3 4)"), Ok(number(24.0)));
    assert_eq!(run(&mut store, "(/ 8 2 2)"), Ok(number(2.0)));
}

#[test]
fn arithmetic_nests() {
    let mut store = Environment::default();
    assert_eq!(run(&mut store, "(+ (* 2 3) (- 10 4))"), Ok(number(12.0)));
    assert_eq!(run(&mut store, "(/ 1 4)"), Ok(number(0.25)));
    assert_eq!(run(&mut store, "(- 1.5 0.25)"), Ok(number(1.25)));
}

#[test]
fn arithmetic_needs_two_operands() {
    let mut store = Environment::default();
    assert_eq!(run(&mut store, "(+ 1)"), Err(RLError::InvalidArity));
    assert_eq!(run(&mut store, "(-)"), Err(RLError::InvalidArity));
    assert_eq!(run(&mut store, "(* 2)"), Err(RLError::InvalidArity));
    assert_eq!(run(&mut store, "(/ 2)"), Err(RLError::InvalidArity));
}

#[test]
fn arithmetic_names_the_operand_that_is_no_number() {
    let mut store = Environment::default();
    assert_eq!(run(&mut store, "(+ 1 #t)"), Err(RLError::NotANumber(RLType::True)));
    assert_eq!(run(&mut store, "(- nil 1)"), Err(RLError::NotANumber(RLType::Nil)));
    assert_eq!(
        run(&mut store, "(* 1 (quote x) #f)"),
        Err(RLError::NotANumber(symbol("x")))
    );
    assert_eq!(
        run(&mut store, "(/ 1 (list 1 2))"),
        Err(RLError::NotANumber(RLType::List(vec![number(1.0), number(2.0)])))
    );
}

#[test]
fn division_by_zero_is_an_error() {
    let mut store = Environment::default();
    assert_eq!(run(&mut store, "(/ 8 0)"), Err(RLError::DivisionByZero));
    assert_eq!(run(&mut store, "(/ 8 2 -0.0)"), Err(RLError::DivisionByZero));
    assert_eq!(run(&mut store, "(/ 8 0 #t)"), Err(RLError::DivisionByZero));
    assert_eq!(run(&mut store, "(/ 0 8)"), Ok(number(0.0)));
}

#[test]
fn def_binds_and_rebinds() {
    let mut store = Environment::default();
    assert_eq!(run(&mut store, "(def! x 5)"), Ok(RLType::Nil));
    assert_eq!(run(&mut store, "x"), Ok(number(5.0)));
    assert_eq!(run(&mut store, "(def! x 6)"), Ok(RLType::Nil));
    assert_eq!(run(&mut store, "x"), Ok(number(6.0)));
}

#[test]
fn def_evaluates_its_expression() {
    let mut store = Environment::default();
    assert_eq!(run(&mut store, "(def! y (+ 1 2))"), Ok(RLType::Nil));
    assert_eq!(run(&mut store, "(* y y)"), Ok(number(9.0)));
}

#[test]
fn def_wants_a_symbol_and_a_value() {
    let mut store = Environment::default();
    assert_eq!(run(&mut store, "(def! 5 1)"), Err(RLError::NotASymbol(number(5.0))));
    assert_eq!(run(&mut store, "(def! x)"), Err(RLError::InvalidArity));
    assert_eq!(run(&mut store, "(def!)"), Err(RLError::InvalidArity));
    assert_eq!(
        run(&mut store, "(def! x nope)"),
        Err(RLError::Unbound("nope".to_string()))
    );
    assert_eq!(run(&mut store, "x"), Err(RLError::Unbound("x".to_string())));
}

#[test]
fn if_chooses_a_branch() {
    let mut store = Environment::default();
    assert_eq!(run(&mut store, "(if (> 3 2) 1 0)"), Ok(number(1.0)));
    assert_eq!(run(&mut store, "(if (< 3 2) 1 0)"), Ok(number(0.0)));
    assert_eq!(run(&mut store, "(if (< 3 2) 1)"), Ok(RLType::Nil));
}

#[test]
fn if_on_what_is_no_truth_value_is_nil() {
    let mut store = Environment::default();
    assert_eq!(run(&mut store, "(if 1 2 3)"), Ok(RLType::Nil));
    assert_eq!(run(&mut store, "(if nil 2 3)"), Ok(RLType::Nil));
}

#[test]
fn if_evaluates_only_the_branch_it_takes() {
    let mut store = Environment::default();
    assert_eq!(run(&mut store, "(if #t 1 nope)"), Ok(number(1.0)));
    assert_eq!(run(&mut store, "(if #f nope 2)"), Ok(number(2.0)));
    assert_eq!(
        run(&mut store, "(if nope 1 2)"),
        Err(RLError::Unbound("nope".to_string()))
    );
}

#[test]
fn if_needs_a_condition_and_a_branch() {
    let mut store = Environment::default();
    assert_eq!(run(&mut store, "(if)"), Err(RLError::InvalidArity));
    assert_eq!(run(&mut store, "(if #t)"), Err(RLError::InvalidArity));
}

#[test]
fn if_with_more_than_three_parts_has_no_else() {
    let mut store = Environment::default();
    assert_eq!(run(&mut store, "(if #f 1 2 3)"), Ok(RLType::Nil));
    assert_eq!(run(&mut store, "(if #t 1 2 3)"), Ok(number(1.0)));
}

#[test]
fn lambda_is_applied_in_place() {
    let mut store = Environment::default();
    assert_eq!(run(&mut store, "((lambda (n) (* n n)) 5)"), Ok(number(25.0)));
}

#[test]
fn lambda_with_the_wrong_count_fails() {
    let mut store = Environment::default();
    assert_eq!(
        run(&mut store, "((lambda (n) (* n n)) 5 6)"),
        Err(RLError::InvalidArity)
    );
    assert_eq!(run(&mut store, "((lambda (n) (* n n)))"), Err(RLError::InvalidArity));
    assert_eq!(run(&mut store, "(def! f (lambda (a b) a))"), Ok(RLType::Nil));
    assert_eq!(run(&mut store, "(f 1)"), Err(RLError::InvalidArity));
    assert_eq!(run(&mut store, "(f 1 2)"), Ok(number(1.0)));
}

#[test]
fn lambda_without_parameters() {
    let mut store = Environment::default();
    assert_eq!(run(&mut store, "((lambda () 7))"), Ok(number(7.0)));
    assert_eq!(run(&mut store, "((lambda 7))"), Ok(number(7.0)));
    assert_eq!(run(&mut store, "((lambda x 7))"), Ok(number(7.0)));
}

#[test]
fn lambda_parameters_are_symbols() {
    let mut store = Environment::default();
    assert_eq!(
        run(&mut store, "(lambda (a 1) a)"),
        Err(RLError::NotASymbol(number(1.0)))
    );
    assert_eq!(run(&mut store, "(lambda)"), Err(RLError::InvalidArity));
    assert_eq!(run(&mut store, "(lambda (a) a a)"), Err(RLError::InvalidArity));
}

#[test]
fn lambda_does_not_evaluate_its_body() {
    let mut store = Environment::default();
    assert_eq!(run(&mut store, "(def! f (lambda () nope))"), Ok(RLType::Nil));
    assert_eq!(run(&mut store, "(f)"), Err(RLError::Unbound("nope".to_string())));
}

#[test]
fn closures_capture_their_scope() {
    let mut store = Environment::default();
    assert_eq!(
        run(&mut store, "(def! make-adder (lambda (x) (lambda (y) (+ x y))))"),
        Ok(RLType::Nil)
    );
    assert_eq!(run(&mut store, "((make-adder 3) 4)"), Ok(number(7.0)));
    assert_eq!(run(&mut store, "(def! add3 (make-adder 3))"), Ok(RLType::Nil));
    assert_eq!(run(&mut store, "(def! add10 (make-adder 10))"), Ok(RLType::Nil));
    assert_eq!(run(&mut store, "(add3 1)"), Ok(number(4.0)));
    assert_eq!(run(&mut store, "(add10 1)"), Ok(number(11.0)));
    assert_eq!(run(&mut store, "(add3 2)"), Ok(number(5.0)));
}

#[test]
fn scoping_is_lexical() {
    let mut store = Environment::default();
    assert_eq!(run(&mut store, "(def! x 1)"), Ok(RLType::Nil));
    assert_eq!(run(&mut store, "(def! get-x (lambda () x))"), Ok(RLType::Nil));
    assert_eq!(
        run(&mut store, "(def! call-with (lambda (x) (get-x)))"),
        Ok(RLType::Nil)
    );
    assert_eq!(run(&mut store, "(call-with 99)"), Ok(number(1.0)));
    assert_eq!(run(&mut store, "(def! x 2)"), Ok(RLType::Nil));
    assert_eq!(run(&mut store, "(call-with 99)"), Ok(number(2.0)));
}

#[test]
fn a_definition_inside_a_procedure_is_local() {
    let mut store = Environment::default();
    assert_eq!(run(&mut store, "(def! x 1)"), Ok(RLType::Nil));
    assert_eq!(
        run(&mut store, "(def! shadow (lambda () (do (def! x 50) x)))"),
        Ok(RLType::Nil)
    );
    assert_eq!(run(&mut store, "(shadow)"), Ok(number(50.0)));
    assert_eq!(run(&mut store, "x"), Ok(number(1.0)));
}

#[test]
fn each_call_has_a_frame_of_its_own() {
    let mut store = Environment::default();
    assert_eq!(
        run(
            &mut store,
            "(def! counter (lambda (n) (lambda () (do (def! n (+ n 1)) n))))"
        ),
        Ok(RLType::Nil)
    );
    assert_eq!(run(&mut store, "(def! a (counter 0))"), Ok(RLType::Nil));
    assert_eq!(run(&mut store, "(def! b (counter 10))"), Ok(RLType::Nil));
    assert_eq!(run(&mut store, "(a)"), Ok(number(1.0)));
    assert_eq!(run(&mut store, "(a)"), Ok(number(1.0)));
    assert_eq!(run(&mut store, "(b)"), Ok(number(11.0)));
}

#[test]
fn recursion_through_a_global_name() {
    let mut store = Environment::default();
    assert_eq!(
        run(
            &mut store,
            "(def! fact (lambda (n) (if (<= n 1) 1 (* n (fact (- n 1))))))"
        ),
        Ok(RLType::Nil)
    );
    assert_eq!(run(&mut store, "(fact 5)"), Ok(number(120.0)));
    assert_eq!(
        run(
            &mut store,
            "(def! fibo (lambda (n) (if (<= n 2) n (+ (fibo (- n 1)) (fibo (- n 2))))))"
        ),
        Ok(RLType::Nil)
    );
    assert_eq!(run(&mut store, "(fibo 10)"), Ok(number(89.0)));
}

#[test]
fn an_unbound_symbol_fails_and_leaves_the_store() {
    let mut store = Environment::default();
    assert_eq!(run(&mut store, "z"), Err(RLError::Unbound("z".to_string())));
    assert_eq!(run(&mut store, "(+ 2 1)"), Ok(number(3.0)));
    assert_eq!(run(&mut store, "z"), Err(RLError::Unbound("z".to_string())));
    assert_eq!(run(&mut store, "(z 1 2)"), Err(RLError::Unbound("z".to_string())));
}

#[test]
fn a_symbol_bound_to_no_procedure_is_not_callable() {
    let mut store = Environment::default();
    assert_eq!(run(&mut store, "(def! five 5)"), Ok(RLType::Nil));
    assert_eq!(
        run(&mut store, "(five 1)"),
        Err(RLError::NotCallable("five".to_string()))
    );
    assert_eq!(run(&mut store, "(pi)"), Err(RLError::NotCallable("pi".to_string())));
}

#[test]
fn a_head_that_is_no_symbol_and_no_procedure_leaves_data() {
    let mut store = Environment::default();
    assert_eq!(
        run(&mut store, "(1 2 3)"),
        Ok(RLType::List(vec![number(1.0), number(2.0), number(3.0)]))
    );
    assert_eq!(
        run(&mut store, "((list 1 2) x (+ 1 2))"),
        Ok(RLType::List(vec![
            RLType::List(vec![number(1.0), number(2.0)]),
            symbol("x"),
            RLType::List(vec![symbol("+"), number(1.0), number(2.0)]),
        ]))
    );
    assert_eq!(run(&mut store, "()"), Ok(RLType::List(vec![])));
}

#[test]
fn a_head_that_evaluates_to_a_native_procedure_is_called() {
    let mut store = Environment::default();
    assert_eq!(run(&mut store, "((if #t + -) 5 3)"), Ok(number(8.0)));
    assert_eq!(run(&mut store, "((if #f + -) 5 3)"), Ok(number(2.0)));
}

#[test]
fn do_evaluates_in_order_and_hands_back_the_last() {
    let mut store = Environment::default();
    assert_eq!(
        run(&mut store, "(do (def! a 1) (def! b (+ a 1)) (* b 10))"),
        Ok(number(20.0))
    );
    assert_eq!(run(&mut store, "(do 1)"), Ok(number(1.0)));
}

#[test]
fn do_fails_on_nothing_and_on_the_first_error() {
    let mut store = Environment::default();
    assert_eq!(run(&mut store, "(do)"), Err(RLError::InvalidArity));
    assert_eq!(
        run(&mut store, "(do (def! a 1) nope (def! a 2))"),
        Err(RLError::Unbound("nope".to_string()))
    );
    assert_eq!(run(&mut store, "a"), Ok(number(1.0)));
}

#[test]
fn list_evaluates_each_argument() {
    let mut store = Environment::default();
    assert_eq!(
        run(&mut store, "(list 1 (+ 1 1) (quote x) #t nil)"),
        Ok(RLType::List(vec![
            number(1.0),
            number(2.0),
            symbol("x"),
            RLType::True,
            RLType::Nil,
        ]))
    );
    assert_eq!(run(&mut store, "(list)"), Ok(RLType::List(vec![])));
    assert_eq!(
        run(&mut store, "(list 1 nope)"),
        Err(RLError::Unbound("nope".to_string()))
    );
}

#[test]
fn arguments_are_evaluated_from_the_left() {
    let mut store = Environment::default();
    assert_eq!(
        run(&mut store, "(list (def! a 1) (def! b (+ a 1)) b)"),
        Ok(RLType::List(vec![RLType::Nil, RLType::Nil, number(2.0)]))
    );
    assert_eq!(
        run(&mut store, "(+ first second)"),
        Err(RLError::Unbound("first".to_string()))
    );
}

#[test]
fn comparisons_answer_with_truth_values() {
    let mut store = Environment::default();
    assert_eq!(run(&mut store, "(> 3 2)"), Ok(RLType::True));
    assert_eq!(run(&mut store, "(> 2 3)"), Ok(RLType::False));
    assert_eq!(run(&mut store, "(>= 3 3)"), Ok(RLType::True));
    assert_eq!(run(&mut store, "(>= 2 3)"), Ok(RLType::False));
    assert_eq!(run(&mut store, "(< 2 3)"), Ok(RLType::True));
    assert_eq!(run(&mut store, "(< 3 3)"), Ok(RLType::False));
    assert_eq!(run(&mut store, "(<= 3 3)"), Ok(RLType::True));
    assert_eq!(run(&mut store, "(<= 4 3)"), Ok(RLType::False));
    assert_eq!(run(&mut store, "(= 3 3)"), Ok(RLType::True));
    assert_eq!(run(&mut store, "(= 3 4)"), Ok(RLType::False));
    assert_eq!(run(&mut store, "(= 0 -0)"), Ok(RLType::True));
    assert_eq!(run(&mut store, "(< -1 -0.5)"), Ok(RLType::True));
    assert_eq!(run(&mut store, "(= nan nan)"), Ok(RLType::False));
}

#[test]
fn comparisons_take_exactly_two_numbers() {
    let mut store = Environment::default();
    assert_eq!(run(&mut store, "(> 3)"), Err(RLError::InvalidArity));
    assert_eq!(run(&mut store, "(= 1 2 3)"), Err(RLError::InvalidArity));
    assert_eq!(run(&mut store, "(<)"), Err(RLError::InvalidArity));
    assert_eq!(run(&mut store, "(< #t 1)"), Err(RLError::NotANumber(RLType::True)));
    assert_eq!(run(&mut store, "(<= 1 nil)"), Err(RLError::NotANumber(RLType::Nil)));
    assert_eq!(
        run(&mut store, "(>= #f #t)"),
        Err(RLError::NotANumber(RLType::False))
    );
}

#[test]
fn unbalanced_source_is_a_parse_error() {
    let mut store = Environment::default();
    assert_eq!(
        run(&mut store, "(+ 1 2"),
        Err(RLError::Parse(ParseError::UnbalancedParens))
    );
    assert_eq!(
        run(&mut store, ")"),
        Err(RLError::Parse(ParseError::UnbalancedParens))
    );
    assert_eq!(run(&mut store, ""), Err(RLError::Parse(ParseError::EOFReached)));
    assert_eq!(run(&mut store, "   "), Err(RLError::Parse(ParseError::EOFReached)));
    assert_eq!(run(&mut store, "(+ 1 2)"), Ok(number(3.0)));
}

#[test]
fn only_the_first_form_of_a_source_is_evaluated() {
    let mut store = Environment::default();
    assert_eq!(run(&mut store, "(def! x 5) x"), Ok(RLType::Nil));
    assert_eq!(run(&mut store, "x (def! x 6)"), Ok(number(5.0)));
    assert_eq!(run(&mut store, "x"), Ok(number(5.0)));
}

#[test]
fn atoms_mean_themselves() {
    let mut store = Environment::default();
    assert_eq!(run(&mut store, "42"), Ok(number(42.0)));
    assert_eq!(run(&mut store, "#t"), Ok(RLType::True));
    assert_eq!(run(&mut store, "#f"), Ok(RLType::False));
    assert_eq!(run(&mut store, "nil"), Ok(RLType::Nil));
    assert_eq!(run(&mut store, "+").is_ok(), true);
}

#[test]
fn depth_bounds_the_nesting() {
    let mut store = Environment::default();
    let read_it = read;
    let compute = arith;
    assert_eq!(
        parse_and_eval("(+ 1 2)", GLOBAL, &mut store, 0, &read_it, &compute),
        Err(RLError::DepthExceeded)
    );
    assert_eq!(
        parse_and_eval("(+ 1 2)", GLOBAL, &mut store, 1, &read_it, &compute),
        Ok(number(3.0))
    );
    assert_eq!(
        parse_and_eval("(+ 1 (+ 1 1))", GLOBAL, &mut store, 1, &read_it, &compute),
        Err(RLError::DepthExceeded)
    );
    assert_eq!(
        parse_and_eval("(+ 1 (+ 1 1))", GLOBAL, &mut store, 2, &read_it, &compute),
        Ok(number(3.0))
    );
    assert_eq!(
        parse_and_eval("pi", GLOBAL, &mut store, 0, &read_it, &compute),
        Ok(number(3.14159265))
    );
    assert_eq!(
        parse_and_eval("()", GLOBAL, &mut store, 0, &read_it, &compute),
        Ok(RLType::List(vec![]))
    );
}

#[test]
fn endless_recursion_ends_with_an_error() {
    let mut store = Environment::default();
    assert_eq!(run(&mut store, "(def! loop (lambda () (loop)))"), Ok(RLType::Nil));
    assert_eq!(run(&mut store, "(loop)"), Err(RLError::DepthExceeded));
    assert_eq!(run(&mut store, "(+ 1 2)"), Ok(number(3.0)));
}

#[test]
fn more_depth_gives_the_same_answer() {
    let source = "((lambda (n) (if (> n 1) (* n 2) 0)) (+ 1 2))";
    let mut small = Environment::default();
    let mut large = Environment::default();
    let a = parse_and_eval(source, GLOBAL, &mut small, 4, &read, &arith);
    let b = parse_and_eval(source, GLOBAL, &mut large, 400, &read, &arith);
    assert_eq!(a, Ok(number(6.0)));
    assert_eq!(a, b);
}

#[test]
fn a_call_leaves_the_frames_that_were_there() {
    let mut store = Environment::default();
    assert_eq!(run(&mut store, "(def! x 1)"), Ok(RLType::Nil));
    assert_eq!(
        run(&mut store, "(def! make (lambda (y) (lambda () (do (def! x 7) (def! y 8) (+ x y)))))"),
        Ok(RLType::Nil)
    );
    assert_eq!(run(&mut store, "(def! inner (make 2))"), Ok(RLType::Nil));
    assert!(store.contains(1));
    assert!(!store.contains(2));
    assert_eq!(store.lookup(1, "y"), Ok(number(2.0)));
    assert_eq!(run(&mut store, "(inner)"), Ok(number(15.0)));
    assert!(store.contains(2));
    assert_eq!(store.lookup(1, "y"), Ok(number(2.0)));
    assert_eq!(store.lookup(GLOBAL, "x"), Ok(number(1.0)));
    assert_eq!(store.lookup(2, "x"), Ok(number(7.0)));
    assert_eq!(store.lookup(2, "y"), Ok(number(8.0)));
}

#[test]
fn what_is_no_number_stays_so() {
    let mut store = Environment::default();
    assert_eq!(run(&mut store, "(< (- inf inf) 1)"), Ok(RLType::False));
    assert_eq!(run(&mut store, "(= (* 0 inf) (* 0 inf))"), Ok(RLType::False));
    assert_eq!(run(&mut store, "(+ nan 1)"), Ok(RLType::Number(f32::NAN.to_bits())));
}
