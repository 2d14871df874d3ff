use lib::{eval, new_core_model, parse, tokenise, Model, Num, NumOrder, Oexp, RomeError};

fn value(n: &Num) -> f64 {
    match n {
        Num::Lit(s) => s.parse::<f64>().unwrap(),
        Num::Sum(v) => v.iter().fold(0.0, |acc, x| acc + value(x)),
        Num::Product(v) => v.iter().fold(1.0, |acc, x| acc * value(x)),
    }
}

fn order(a: &Num, b: &Num) -> NumOrder {
    match value(a).partial_cmp(&value(b)) {
        Some(std::cmp::Ordering::Less) => NumOrder::Less,
        Some(std::cmp::Ordering::Equal) => NumOrder::Equal,
        Some(std::cmp::Ordering::Greater) => NumOrder::Greater,
        None => NumOrder::Unordered,
    }
}

fn number_text(n: &Num) -> String {
    value(n).to_string()
}

fn run(src: &str, m: &mut Model) -> Result<Oexp, RomeError> {
    let t = tokenise(src.to_string());
    let (e, rest) = parse(&t).unwrap();
    assert!(rest.is_empty());
    eval(&e, m, &order)
}

fn shown(r: Result<Oexp, RomeError>) -> String {
    match r {
        Ok(e) => e.to_text(&number_text),
        Err(e) => format!("{:?}", e),
    }
}

fn run_fresh(src: &str) -> String {
    let mut m = new_core_model();
    shown(run(src, &mut m))
}

#[test]
fn sum_of_numbers() {
    assert_eq!(run_fresh("1 2 3.5 +"), "6.5");
}

#[test]
fn product_of_numbers() {
    assert_eq!(run_fresh("2 3 4 *"), "24");
}

#[test]
fn empty_sum_and_product() {
    assert_eq!(run_fresh("+"), "0");
    assert_eq!(run_fresh("*"), "1");
}

#[test]
fn nested_arithmetic() {
    assert_eq!(run_fresh("(1 2 +) (3 4 +) *"), "21");
}

#[test]
fn sum_is_a_number_of_the_sum_kind() {
    let mut m = new_core_model();
    match run("1 2 +", &mut m).unwrap() {
        Oexp::Number(Num::Sum(v)) => assert_eq!(v.len(), 2),
        _ => panic!("expected a sum"),
    }
}

#[test]
fn sum_needs_numbers() {
    assert_eq!(run_fresh("1 true +"), "ReaderError(\"expected a number\")");
}

#[test]
fn define_then_use() {
    let mut m = new_core_model();
    assert_eq!(shown(run("x = 5 .", &mut m)), "x");
    assert_eq!(shown(run("x 1 +", &mut m)), "6");
}

#[test]
fn redefine_replaces() {
    let mut m = new_core_model();
    run("x = 5 .", &mut m).unwrap();
    run("x = (x 10 *) .", &mut m).unwrap();
    assert_eq!(shown(run("x 0 +", &mut m)), "50");
}

#[test]
fn define_a_native_function_under_another_name() {
    let mut m = new_core_model();
    run("plus = + .", &mut m).unwrap();
    assert_eq!(shown(run("2 2 plus", &mut m)), "4");
}

#[test]
fn define_errors() {
    assert_eq!(
        run_fresh("."),
        "OperatorError(\"expected a subject as first form in definition\")"
    );
    assert_eq!(
        run_fresh("1 = 2 ."),
        "OperatorError(\"Expected subject to be an oexp of type symbol\")"
    );
    assert_eq!(
        run_fresh("x ."),
        "OperatorError(\"expected a verb as second form in definition\")"
    );
    assert_eq!(
        run_fresh("x = ."),
        "OperatorError(\"expected an object as third form in definition\")"
    );
    assert_eq!(
        run_fresh("x = 1 2 ."),
        "OperatorError(\"A definition can have only subject, verb and object. I can't handle more...\")"
    );
}

#[test]
fn unknown_symbol() {
    assert_eq!(
        run_fresh("1 2 y"),
        "OperatorError(\"Unexpected symbok k='y'\")"
    );
}

#[test]
fn empty_list() {
    assert_eq!(
        run_fresh("()"),
        "OperatorError(\"Did not expect an empty list here\")"
    );
}

#[test]
fn last_form_must_be_a_function() {
    assert_eq!(
        run_fresh("1 2"),
        "OperatorError(\"The last form must be a function\")"
    );
}

#[test]
fn comparisons() {
    assert_eq!(run_fresh("1 < 2 ?"), "true");
    assert_eq!(run_fresh("1 > 2 ?"), "false");
    assert_eq!(run_fresh("2 = 2.0 ?"), "true");
    assert_eq!(run_fresh("2 == 3 ?"), "false");
    assert_eq!(run_fresh("2 >= 2 ?"), "true");
    assert_eq!(run_fresh("3 =< 2 ?"), "false");
    assert_eq!(run_fresh("1 ~= 2 ?"), "true");
    assert_eq!(run_fresh("NaN != NaN ?"), "true");
    assert_eq!(run_fresh("NaN = NaN ?"), "false");
}

#[test]
fn comparison_of_non_numbers() {
    assert_eq!(
        run_fresh("a < 2 ?"),
        "OperatorError(\"Can compare only two numbers (as of now)\")"
    );
}

#[test]
fn comparison_does_not_evaluate_its_forms() {
    let mut m = new_core_model();
    run("x = 1 .", &mut m).unwrap();
    assert_eq!(
        shown(run("x < 2 ?", &mut m)),
        "OperatorError(\"Can compare only two numbers (as of now)\")"
    );
}

#[test]
fn query_errors() {
    assert_eq!(
        run_fresh("?"),
        "OperatorError(\"expected a subject as first form in conditional\")"
    );
    assert_eq!(
        run_fresh("1 ?"),
        "OperatorError(\"expected a verb as second form in conditional\")"
    );
    assert_eq!(
        run_fresh("1 < ?"),
        "OperatorError(\"expected an object as third form in conditional\")"
    );
}

#[test]
fn conditional_true_branch() {
    assert_eq!(run_fresh("(1 2 +) if (1 < 2 ?) else 7 ?"), "3");
}

#[test]
fn conditional_else_branch() {
    assert_eq!(run_fresh("(1 2 +) if (1 > 2 ?) else (3 4 *) ?"), "12");
}

#[test]
fn conditional_errors() {
    assert_eq!(
        run_fresh("1 if (1 > 2 ?) ?"),
        "OperatorError(\"expected else/or branch for if condition\")"
    );
    assert_eq!(run_fresh("1 if (1 > 2 ?) else ?"), "OperatorError(\"...else what?...\")");
    assert_eq!(
        run_fresh("1 if (1 > 2 ?) otherwise 2 ?"),
        "OperatorError(\"Expected else or or after if condition\")"
    );
    assert_eq!(
        run_fresh("1 if (1 > 2 ?) 5 2 ?"),
        "ReaderError(\"could not read this keyword\")"
    );
    assert_eq!(run_fresh("1 if 5 else 2 ?"), "OperatorError(\"Unexpected test form\")");
}

#[test]
fn subject_form() {
    assert_eq!(run_fresh("(2 3 *) !"), "6");
    assert_eq!(
        run_fresh("!"),
        "OperatorError(\"expected a subject as first form in conditional\")"
    );
}

#[test]
fn function_definition_and_call() {
    let mut m = new_core_model();
    run("double = (x => (x x +) fn) .", &mut m).unwrap();
    assert_eq!(shown(run("21 double", &mut m)), "42");
    run("mul = ((a b) => (a b *) fn) .", &mut m).unwrap();
    assert_eq!(shown(run("6 7 mul", &mut m)), "42");
}

#[test]
fn function_value_shown() {
    assert_eq!(run_fresh("x => x fn"), "Function Definition: {}");
}

#[test]
fn call_scope_is_closed_afterwards() {
    let mut m = new_core_model();
    run("f = (x => (y = x .) fn) .", &mut m).unwrap();
    assert_eq!(shown(run("5 f", &mut m)), "y");
    assert_eq!(shown(run("y 1 +", &mut m)), "OperatorError(\"Unexpected symbok k='y'\")");
}

#[test]
fn call_sees_outer_bindings() {
    let mut m = new_core_model();
    run("k = 100 .", &mut m).unwrap();
    run("f = (x => (x k +) fn) .", &mut m).unwrap();
    assert_eq!(shown(run("1 f", &mut m)), "101");
}

#[test]
fn call_arity_error() {
    let mut m = new_core_model();
    run("f = ((a b) => a fn) .", &mut m).unwrap();
    assert_eq!(
        shown(run("1 f", &mut m)),
        "ReaderError(\"expected 2 arguments, got 1\")"
    );
}

#[test]
fn call_parameter_errors() {
    let mut m = new_core_model();
    run("f = ((a 1) => a fn) .", &mut m).unwrap();
    assert_eq!(
        shown(run("1 2 f", &mut m)),
        "ReaderError(\"Expected symbols in the argument list\")"
    );
    run("g = (1 => a fn) .", &mut m).unwrap();
    assert_eq!(
        shown(run("1 g", &mut m)),
        "ReaderError(\"Expected arg form to be a list\")"
    );
}

#[test]
fn function_definition_errors() {
    assert_eq!(
        run_fresh("x fn"),
        "OperatorError(\"expected a verb as second form in conditional\")"
    );
    assert_eq!(
        run_fresh("x => fn"),
        "OperatorError(\"expected function body as third form in function def\")"
    );
}

#[test]
fn native_and_defined_functions_cannot_be_evaluated_alone() {
    let mut m = new_core_model();
    let e = Oexp::Function(lib::Builtin::Add);
    assert_eq!(shown(eval(&e, &mut m, &order)), "OperatorError(\"I don't know this function\")");
}

#[test]
fn literals_evaluate_to_themselves() {
    let mut m = new_core_model();
    let e = Oexp::Boolean(true);
    assert_eq!(shown(eval(&e, &mut m, &order)), "true");
    let e = Oexp::Number(Num::Lit("2.50".to_string()));
    assert_eq!(shown(eval(&e, &mut m, &order)), "2.5");
}

#[test]
fn definitions_before_an_error_stay() {
    let mut m = new_core_model();
    assert_eq!(shown(run("(z = 3 .) 1 +", &mut m)), "ReaderError(\"expected a number\")");
    assert_eq!(shown(run("z 0 +", &mut m)), "3");
}

#[test]
fn display_of_lists() {
    let e = Oexp::List(vec![
        Oexp::Number(Num::Lit("1".to_string())),
        Oexp::Symbol("a".to_string()),
        Oexp::List(vec![Oexp::Boolean(false)]),
        Oexp::List(vec![]),
        Oexp::Function(lib::Builtin::Mul),
    ]);
    assert_eq!(e.to_text(&number_text), "(1 , a , (false) , () , Function: {})");
}

#[test]
fn clone_keeps_the_value() {
    let mut m = new_core_model();
    let e = run("1 2 +", &mut m).unwrap();
    let c = e.clone();
    assert_eq!(c.to_text(&number_text), "3");
}

#[test]
fn model_clone_keeps_the_bindings() {
    let mut m = new_core_model();
    run("x = 7 .", &mut m).unwrap();
    let mut c = m.clone();
    run("x = 8 .", &mut m).unwrap();
    assert_eq!(shown(run("x 0 +", &mut c)), "7");
    assert_eq!(shown(run("x 0 +", &mut m)), "8");
}

#[test]
fn function_value_clone_is_rejected_as_a_form() {
    let mut m = new_core_model();
    let f = run("x => (x 1 +) fn", &mut m).unwrap();
    match &f {
        Oexp::FunctionDef(l) => {
            let l2 = l.clone();
            let mut m2 = new_core_model();
            let list = Oexp::List(vec![
                Oexp::Number(Num::Lit("41".to_string())),
                Oexp::FunctionDef(l2),
            ]);
            assert_eq!(shown(eval(&list, &mut m2, &order)), "OperatorError(\"I didn't expect this function definition here\")");
        }
        _ => panic!("expected a function definition"),
    }
}

#[test]
fn bounded_evaluation_gives_the_result_within_enough_depth() {
    let mut m = new_core_model();
    let t = tokenise("(1 2 +) (3 4 +) *".to_string());
    let (e, _) = parse(&t).unwrap();
    let r = lib::eval_bounded(&e, &mut m, &order, 10).unwrap();
    assert_eq!(shown(r), "21");
}

#[test]
fn bounded_evaluation_gives_nothing_without_enough_depth() {
    let mut m = new_core_model();
    let t = tokenise("(1 2 +) (3 4 +) *".to_string());
    let (e, _) = parse(&t).unwrap();
    assert!(lib::eval_bounded(&e, &mut m, &order, 2).is_none());
    assert!(lib::eval_bounded(&e, &mut m, &order, 0).is_none());
}

#[test]
fn bounded_evaluation_stops_endless_recursion() {
    let mut m = new_core_model();
    run("f = (x => (x f) fn) .", &mut m).unwrap();
    let t = tokenise("1 f".to_string());
    let (e, _) = parse(&t).unwrap();
    assert!(lib::eval_bounded(&e, &mut m, &order, 100).is_none());
}

#[test]
fn bounded_evaluation_gives_nothing_for_unimplemented_forms() {
    for src in ["1 if (1 > 2 ?) or 2 ?", "1 foo 2 ?", "x > 2 .", "x = y fn", "1 2 3 ?"] {
        let mut m = new_core_model();
        let t = tokenise(src.to_string());
        let (e, _) = parse(&t).unwrap();
        assert!(lib::eval_bounded(&e, &mut m, &order, 50).is_none(), "{}", src);
    }
}

#[test]
fn program_without_definition_keeps_the_model() {
    let mut m = new_core_model();
    run("x = 2 .", &mut m).unwrap();
    run("f = (y => (z = y .) fn) .", &mut m).unwrap();
    assert_eq!(shown(run("(x 1 +) f", &mut m)), "z");
    assert_eq!(shown(run("x 0 +", &mut m)), "2");
    assert_eq!(shown(run("z 0 +", &mut m)), "OperatorError(\"Unexpected symbok k='z'\")");
}

#[test]
fn checked_literal() {
    assert!(Num::literal("abc".to_string()).is_none());
    assert!(Num::literal("".to_string()).is_none());
    match Num::literal("-1.5e3".to_string()) {
        Some(n) => assert_eq!(value(&n), -1500.0),
        None => panic!("expected a number"),
    }
}
