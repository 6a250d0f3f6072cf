use monkey::environment::Environment;
use monkey::evaluator::eval;
use monkey::lexer::Lexer;
use monkey::object::Object;
use monkey::parser::{parse, Parser};

fn run(input: &str) -> Result<Object, monkey::error::Error> {
    let program = parse(input).unwrap();
    let mut env = Environment::new();
    eval(program, &mut env)
}

fn shown(input: &str) -> String {
    match run(input) {
        Ok(o) => o.to_string(),
        Err(e) => e.to_string(),
    }
}

#[test]
fn test_eval_integer() {
    let tests = vec![
        ("5", 5),
        ("10", 10),
        ("-10", -10),
        ("5+5+5+5-10", 10),
        ("2 * 2* 2*2*2", 32),
        ("-50 + 100 + -50", 0),
        ("5*2 + 10", 20),
        ("5+2 * 10", 25),
        ("50 / 2 * 2 + 10", 60),
        ("2 * (5+10)", 30),
        ("3 + (5+10) * 2", 33),
    ];

    for (input, expect) in tests {
        let mut l = Lexer::new(input);
        let mut p = Parser::new(&mut l);
        let program = p.parse_program().unwrap();
        let mut env = Environment::new();
        match eval(program, &mut env) {
            Ok(o) => match o {
                Object::Integer(i) => assert_eq!(i, expect),
                o => panic!("Error expect {} but got {:?}", expect, o),
            },
            Err(e) => panic!("{:?}", e),
        }
    }
}

#[test]
fn test_eval_boolean() {
    let tests = vec![("true", true), ("false", false)];
    for (input, expect) in tests {
        let mut l = Lexer::new(input);
        let mut p = Parser::new(&mut l);
        let program = p.parse_program().unwrap();
        let mut env = Environment::new();
        match eval(program, &mut env) {
            Ok(o) => match o {
                Object::Boolean(b) => assert_eq!(b, expect),
                o => panic!("Error expect {} but got {:?}", expect, o),
            },
            Err(e) => panic!("{:?}", e),
        }
    }
}

#[test]
fn test_eval_bang_operator() {
    let tests = vec![
        ("!true", false),
        ("!false", true),
        ("!!true", true),
        ("!!65", true),
        ("!5", false),
        ("1 < 2", true),
        ("1 > 2", false),
        ("1 > 1", false),
        ("1 < 1", false),
        ("1 == 1", true),
        ("1 != 1", false),
        ("1 == 11", false),
        ("1 != 11", true),
        ("true == true", true),
        ("false == false", true),
        ("false == true", false),
        ("false != true", true),
        ("true != false", true),
        ("(1<2) == false", false),
        ("(1>2) == false", true),
        ("(1>2) == true", false),
    ];
    for (input, expect) in tests {
        let mut l = Lexer::new(input);
        let mut p = Parser::new(&mut l);
        let program = p.parse_program().unwrap();
        let mut env = Environment::new();
        match eval(program, &mut env) {
            Ok(o) => match o {
                Object::Boolean(b) => assert_eq!(b, expect),
                o => panic!("Error expect {} but got {:?}", expect, o),
            },
            Err(e) => panic!("{:?}", e),
        }
    }
}

#[test]
fn test_eval_ifelse_expressions() {
    let tests = vec![
        ("if(true){10}", 10),
        ("if(false){10} else {20}", 20),
        ("if(false){10}", -1),
        ("if(1 > 0){10}", 10),
    ];
    for (input, expect) in tests {
        let mut l = Lexer::new(input);
        let mut p = Parser::new(&mut l);
        let program = p.parse_program().unwrap();
        let mut env = Environment::new();
        match eval(program, &mut env) {
            Ok(o) => match o {
                Object::Integer(i) => assert_eq!(i, expect),
                Object::Null => assert_eq!(-1, expect),
                _ => panic!("Error expect {} but got {:?}", expect, o),
            },
            Err(e) => panic!("{:?}", e),
        }
    }
}

#[test]
fn test_eval_return_expressions() {
    let tests = vec![
        ("return 10;9;", 10),
        ("return 2 * 5;", 10),
        ("9; return 5;", 5),
        ("if (true){ if (true) { return 10; } return 1;}", 10),
    ];
    for (input, expect) in tests {
        let mut l = Lexer::new(input);
        let mut p = Parser::new(&mut l);
        let program = p.parse_program().unwrap();
        let mut env = Environment::new();
        match eval(program, &mut env) {
            Ok(o) => match o {
                Object::Integer(i) => assert_eq!(i, expect),
                _ => panic!("Error expect {} but got {:?}", expect, o),
            },
            Err(e) => panic!("{:?}", e),
        }
    }
}

#[test]
fn test_error_handling() {
    let tests = vec![
        ("5 + true", "EvalError: Invalid infix expression"),
        ("5 + true; 5", "EvalError: Invalid infix expression"),
        ("-true", "EvalError: Invalid prefix expression"),
        ("true+false", "EvalError: Invalid infix expression"),
        (
            "if(10>1){true + false;}",
            "EvalError: Invalid infix expression",
        ),
        (
            "if(10>1){if(10>1){true + false;} return 1; }",
            "EvalError: Invalid infix expression",
        ),
    ];
    for (input, expect) in tests {
        let mut l = Lexer::new(input);
        let mut p = Parser::new(&mut l);
        let program = p.parse_program().unwrap();
        let mut env = Environment::new();
        match eval(program, &mut env) {
            Ok(_) => panic!("expect error '{}'", expect),
            Err(e) => assert_eq!(e.to_string(), expect),
        }
    }
}

#[test]
fn test_call() {
    let tests = vec![
        ("let a = fn(b,c) {return b + c;}; a(10, 20)", 30),
        (
            "let f = fn(a){ fn(b){a+b};}; let c = f(10); let d = c(20);",
            30,
        ),
    ];
    for (input, expect) in tests {
        let mut l = Lexer::new(input);
        let mut p = Parser::new(&mut l);
        let program = p.parse_program().unwrap();
        let mut env = Environment::new();
        match eval(program, &mut env) {
            Ok(o) => match o {
                Object::Integer(i) => assert_eq!(i, expect),
                _ => panic!("Error expect {} but got {:?}", expect, o),
            },
            Err(e) => panic!("{:?}", e),
        }
    }
}

#[test]
fn test_builtin_function() {
    let tests = vec![(r#"len("")"#, 0), (r#"len("four")"#, 4)];
    for (input, expect) in tests {
        let mut l = Lexer::new(input);
        let mut p = Parser::new(&mut l);
        let program = p.parse_program().unwrap();
        let mut env = Environment::new();
        match eval(program, &mut env) {
            Ok(o) => match o {
                Object::Integer(i) => assert_eq!(i, expect),
                _ => panic!("Error expect {} but got {:?}", expect, o),
            },
            Err(e) => panic!("{:?}", e),
        }
    }
}

#[test]
fn test_array() {
    let mut l = Lexer::new("[1,2*2,3]");
    let mut p = Parser::new(&mut l);
    let program = p.parse_program().unwrap();
    let mut env = Environment::new();
    match eval(program, &mut env) {
        Ok(o) => match o {
            Object::Array(a) => assert_eq!(
                a,
                vec![Object::Integer(1), Object::Integer(4), Object::Integer(3)]
            ),
            _ => panic!("Error expect array but got {:?}", o),
        },
        Err(e) => panic!("{:?}", e),
    }
}

#[test]
fn test_array_index() {
    let tests = vec![
        ("[1,2*3,3][1]", 6),
        ("[2,3,4][0]", 2),
        ("[2,3,[0,5]][2][1]", 5),
    ];

    for (input, expect) in tests {
        let mut l = Lexer::new(input);
        let mut p = Parser::new(&mut l);
        let program = p.parse_program().unwrap();
        let mut env = Environment::new();
        match eval(program, &mut env) {
            Ok(o) => match o {
                Object::Integer(i) => assert_eq!(i, expect),
                _ => panic!("Error expect array but got {:?}", o),
            },
            Err(e) => panic!("{:?}", e),
        }
    }
}

#[test]
fn test_map() {
    let tests = vec![
        ("let a = {1: 222}; a[1]", 222),
        (r#"let b = {"aa": 345}; b["aa"];"#, 345),
    ];

    for (input, expect) in tests {
        let mut l = Lexer::new(input);
        let mut p = Parser::new(&mut l);
        let program = p.parse_program().unwrap();
        let mut env = Environment::new();
        match eval(program, &mut env) {
            Ok(o) => match o {
                Object::Integer(i) => assert_eq!(i, expect),
                _ => panic!("Error expect `{}` but got {:?}", expect, o),
            },
            Err(e) => panic!("{:?}", e),
        }
    }
}

#[test]
fn test_for() {
    let tests = vec![
        ("let a = 0; for b in [1,2,3] { b }", 3),
        ("let a = 0; for b in [1,2,644] { b }", 644),
    ];

    for (input, expect) in tests {
        let mut l = Lexer::new(input);
        let mut p = Parser::new(&mut l);
        let program = p.parse_program().unwrap();
        let mut env = Environment::new();
        match eval(program, &mut env) {
            Ok(o) => match o {
                Object::Integer(i) => assert_eq!(i, expect),
                _ => panic!("Error expect `{}` but got {:?}", expect, o),
            },
            Err(e) => panic!("{:?}", e),
        }
    }
}

#[test]
fn evaluator_scenarios() {
    let cases = [
        ("-50 + 100 + -50", "0"),
        ("(1 > 2) == false", "true"),
        ("if (1 > 0) { 10 } else { 20 }", "10"),
        ("if (true) { if (true) { return 10; } return 1; }", "10"),
        ("let f = fn(a){ fn(b){ a + b } }; let c = f(10); c(20)", "30"),
        ("len(\"four\")", "4"),
        ("[1, 2*2, 3][1]", "4"),
        ("let m = {\"a\": 1}; m[\"a\"]", "1"),
        ("let a = 0; for b in [1,2,644] { b }", "644"),
        ("5 + true", "EvalError: Invalid infix expression"),
    ];
    for (input, expected) in cases {
        assert_eq!(shown(input), expected, "{}", input);
    }
}

#[test]
fn closures_keep_their_own_bindings() {
    assert_eq!(
        shown("let adder = fn(x){ fn(y){ x + y } }; let a = adder(2); let b = adder(3); a(10) + b(10)"),
        "25"
    );
}

#[test]
fn push_leaves_its_argument_alone() {
    assert_eq!(shown("let a = [1]; push(a, 2); len(a)"), "1");
    assert_eq!(shown("let a = [1]; push(a, 2)"), "[1,2]");
}

#[test]
fn integer_arithmetic_wraps() {
    assert_eq!(shown("2147483647 + 1"), "-2147483648");
    assert_eq!(shown("0 - 2147483647 - 2"), "2147483647");
    assert_eq!(shown("65536 * 65536"), "0");
    assert_eq!(shown("(0 - 2147483647 - 1) / -1"), "-2147483648");
    assert_eq!(shown("-(0 - 2147483647 - 1)"), "-2147483648");
    assert_eq!(shown("7 / 2"), "3");
    assert_eq!(shown("-7 / 2"), "-3");
    let x: i32 = 12345;
    assert_eq!(shown("12345 * 6789 - 100 / 7 + 3"), (x.wrapping_mul(6789) - 100 / 7 + 3).to_string());
}

#[test]
fn division_by_zero_is_an_error() {
    assert_eq!(shown("1 / 0"), "EvalError: division by zero");
}

#[test]
fn strings_concatenate_and_compare() {
    assert_eq!(shown("\"foo\" + \"bar\""), "foobar");
    assert_eq!(shown("\"a\" == \"a\""), "true");
    assert_eq!(shown("\"a\" != \"a\""), "false");
    assert_eq!(shown("\"a\" - \"a\""), "EvalError: Invalid infix expression");
}

#[test]
fn if_needs_a_boolean() {
    assert_eq!(shown("if (1) { 2 }"), "EvalError: If condition must be boolean");
}

#[test]
fn undefined_variable_is_an_error() {
    assert_eq!(shown("foo"), "EvalError: Undefined variable foo");
}

#[test]
fn calling_a_non_function_is_an_error() {
    assert_eq!(shown("5(1)"), "EvalError: 5 Can not be called");
}

#[test]
fn builtins_behave() {
    assert_eq!(shown("first([1, 2, 3])"), "1");
    assert_eq!(shown("first([])"), "null");
    assert_eq!(shown("last([1, 2, 3])"), "3");
    assert_eq!(shown("last([])"), "null");
    assert_eq!(shown("rest([1, 2, 3])"), "[2,3]");
    assert_eq!(shown("rest([])"), "null");
    assert_eq!(shown("len([1, 2])"), "2");
    assert_eq!(shown("len"), "builtin function");
    assert_eq!(shown("len(1)"), "EvalError: argument to `len` not supported, got INTEGER");
    assert_eq!(shown("len(1, 2)"), "EvalError: wrong number of arguments. got=2, want=1");
    assert_eq!(shown("first(1)"), "EvalError: argument to `first` must be Array, got INTEGER");
    assert_eq!(shown("last(true)"), "EvalError: argument to `last` must be Array, got BOOLEAN");
    assert_eq!(shown("rest(\"a\")"), "EvalError: argument to `rest` must be Array, got STRING");
    assert_eq!(shown("push(1, 2)"), "EvalError: first argument to `push` must be Array, got INTEGER");
    assert_eq!(shown("push([1])"), "EvalError: wrong number of arguments. got=1, want=2");
}

#[test]
fn puts_prints_each_argument() {
    let mut env = Environment::new();
    let r = eval(parse("puts(1, \"two\", [3])").unwrap(), &mut env).unwrap();
    assert_eq!(r, Object::Null);
    assert_eq!(env.take_output(), vec!["1".to_string(), "two".to_string(), "[3]".to_string()]);
    assert!(env.take_output().is_empty());
}

#[test]
fn index_out_of_range_is_null() {
    assert_eq!(shown("[1, 2][2]"), "null");
    assert_eq!(shown("[1, 2][-1]"), "null");
    assert_eq!(shown("{1: 2}[3]"), "null");
    assert_eq!(shown("1[0]"), "EvalError: Invalid index expression");
}

#[test]
fn map_keeps_insertion_order_and_later_keys_win() {
    assert_eq!(shown("{2: \"b\", 1: \"a\", 2: \"c\"}"), "{2: c,1: a}");
    assert_eq!(shown("{true: 1, \"k\": 2}[\"k\"]"), "2");
    assert_eq!(shown("{[1]: 5}[[2]]"), "5");
}

#[test]
fn functions_see_later_bindings_of_their_scope() {
    assert_eq!(
        shown("let fact = fn(n) { if (n < 1) { 1 } else { n * fact(n - 1) } }; fact(5)"),
        "120"
    );
}

#[test]
fn assignment_binds_in_the_innermost_scope() {
    assert_eq!(shown("let a = 10; a = 11; a"), "11");
    assert_eq!(shown("let a = 10; let f = fn() { a = 11; a }; f() + a"), "21");
}

#[test]
fn extra_arguments_are_ignored_and_missing_ones_unbound() {
    assert_eq!(shown("let f = fn(a) { a }; f(1, 2)"), "1");
    assert_eq!(shown("let f = fn(a, b) { b }; f(1)"), "EvalError: Undefined variable b");
}

#[test]
fn for_drops_its_variable_afterwards() {
    assert_eq!(shown("for b in [1] { b }; b"), "EvalError: Undefined variable b");
    assert_eq!(shown("for b in [] { b }"), "null");
}

#[test]
fn values_print_canonically() {
    assert_eq!(shown("fn(x) { x }"), "");
    assert_eq!(shown("[1, \"a\", true, [2]]"), "[1,a,true,[2]]");
    assert_eq!(shown("let x = 5"), "5");
    assert_eq!(shown("return -3;"), "-3");
}

#[test]
fn runaway_recursion_is_an_error() {
    assert_eq!(
        shown("let f = fn(x) { x(x) }; f(f)"),
        "EvalError: maximum evaluation depth exceeded"
    );
}

#[test]
fn environment_scopes() {
    let mut env = Environment::new();
    env.set("a".to_string(), Object::Integer(1));
    assert_eq!(env.get(&"a".to_string()), Some(&Object::Integer(1)));
    assert_eq!(env.get(&"zz".to_string()), None);
    let inner = Environment::new_enclosed(&mut env);
    assert_eq!(env.get_from(inner, &"a".to_string()), Some(&Object::Integer(1)));
    env.set_in(inner, "a".to_string(), Object::Integer(2));
    assert_eq!(env.get_from(inner, &"a".to_string()), Some(&Object::Integer(2)));
    assert_eq!(env.get(&"a".to_string()), Some(&Object::Integer(1)));
    env.set("b".to_string(), Object::Integer(3));
    assert_eq!(env.get_from(inner, &"b".to_string()), Some(&Object::Integer(3)));
    assert!(matches!(env.get(&"len".to_string()), Some(Object::Builtin(_))));
}

#[test]
fn len_counts_utf8_bytes() {
    assert_eq!(shown("len(\"\u{e9}\")"), "2");
    assert_eq!(shown("len(\"ab\")"), "2");
}

#[test]
fn return_value_is_never_bound() {
    let mut env = Environment::new();
    let r = eval(parse("let x = if (true) { return 1; };").unwrap(), &mut env);
    assert_eq!(r, Ok(Object::Integer(1)));
    assert_eq!(env.get(&"x".to_string()), None);
    assert_eq!(shown("let f = fn() { let y = if (true) { return 7; }; 0 }; f()"), "7");
    assert_eq!(shown("let f = fn() { [1, if (true) { return 2; }, 3] }; f()"), "2");
}

#[test]
fn return_in_for_leaves_the_function() {
    assert_eq!(shown("let f = fn() { for a in [1, 2, 3] { return a; } }; f()"), "1");
}

#[test]
fn state_persists_across_programs() {
    let mut env = Environment::new();
    eval(parse("let x = 4;").unwrap(), &mut env).unwrap();
    assert_eq!(eval(parse("x * 2").unwrap(), &mut env).unwrap(), Object::Integer(8));
    assert!(eval(parse("y").unwrap(), &mut env).is_err());
    assert_eq!(eval(parse("x").unwrap(), &mut env).unwrap(), Object::Integer(4));
}
