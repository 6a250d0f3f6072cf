use monkey::ast;
use monkey::ast::{InfixOprator, PrefixOprator};
use monkey::token::Token;
use monkey::lexer::Lexer;
use monkey::parser::{parse, Parser};

#[test]
fn test_let_statement() {
    let input = r#"
            let x = 5;
            let y = 10;
            let foobar = 838383;"#;
    let mut lexer = Lexer::new(input);
    let mut parser = Parser::new(&mut lexer);
    let program = parser.parse_program().unwrap();
    assert_eq!(program.statements.len(), 3);
    let tests = vec!["let x = 5;", "let y = 10;", "let foobar = 838383;"];
    for (index, stmt) in program.statements.iter().enumerate() {
        assert_eq!(stmt.to_string(), tests[index]);
    }
}

#[test]
fn test_return_statement() {
    let input = r#"
            return 5;
            return 10;
            return 993322;
            "#;
    let mut lexer = Lexer::new(input);
    let mut parser = Parser::new(&mut lexer);
    let program = parser.parse_program().unwrap();
    assert_eq!(program.statements.len(), 3);
    let tests = vec!["return 5;", "return 10;", "return 993322;"];
    for (index, stmt) in program.statements.iter().enumerate() {
        assert_eq!(stmt.to_string(), tests[index]);
    }
}

#[test]
fn test_identifier_expression() {
    let input = "foobar;";
    let mut lexer = Lexer::new(input);
    let mut parser = Parser::new(&mut lexer);
    let program = parser.parse_program().unwrap();
    assert_eq!(program.statements.len(), 1);
    let ident = match &program.statements[0] {
        ast::Statement::Expression(e) => match e {
            ast::Expression::Identifier(s) => s,
            _ => "unreach",
        },
        e => panic!("expect `Expression` but got {:?}", e),
    };
    assert_eq!(ident, "foobar");
}

#[test]
fn test_int_expression() {
    let input = "5;";
    let mut lexer = Lexer::new(input);
    let mut parser = Parser::new(&mut lexer);
    let program = parser.parse_program().unwrap();
    assert_eq!(program.statements.len(), 1);
    let ident = match &program.statements[0] {
        ast::Statement::Expression(e) => match e {
            ast::Expression::Integer(i) => i,
            _ => &999,
        },
        e => panic!("expect `Expression` but got {:?}", e),
    };
    assert_eq!(ident, &5);
}

#[test]
fn test_bool_expression() {
    let input = r#"
            true;
            false;
        "#;
    let mut lexer = Lexer::new(input);
    let mut parser = Parser::new(&mut lexer);
    let program = parser.parse_program().unwrap();
    assert_eq!(program.statements.len(), 2);

    let tests = [true, false];
    for (index, stmt) in program.statements.iter().enumerate() {
        let exp = match stmt {
            ast::Statement::Expression(e) => match e {
                ast::Expression::Bool(b) => b,
                _ => panic!("expect `Bool` but got {:?}", e),
            },
            e => panic!("expect `Expression` but got {:?}", e),
        };
        assert_eq!(exp, &tests[index]);
    }
}

#[test]
fn test_prefix_expression() {
    let input = r#"
            -5;
            !5;
        "#;
    let mut lexer = Lexer::new(input);
    let mut parser = Parser::new(&mut lexer);
    let program = parser.parse_program().unwrap();
    assert_eq!(program.statements.len(), 2);

    let tests = [
        (ast::PrefixOprator::Minus, 5),
        (ast::PrefixOprator::Bang, 5),
    ];
    for (index, stmt) in program.statements.iter().enumerate() {
        let prefix = match stmt {
            ast::Statement::Expression(e) => match e {
                ast::Expression::Prefix { operator, right } => (
                    operator,
                    match right.as_ref() {
                        ast::Expression::Integer(i) => i,
                        _ => panic!("Invalid Right hand"),
                    },
                ),
                _ => panic!("Invalid Prefix Expression"),
            },
            e => panic!("expect `Expression` but got {:?}", e),
        };
        assert_eq!(*prefix.0, tests[index].0);
        assert_eq!(*prefix.1, tests[index].1);
    }
}

#[test]
fn test_infix_expression() {
    let input = r#"
            5 + 5;
            5 - 5;
            5 * 5;
            5 / 5;
            5 < 5;
            5 > 5;
            5 == 5;
            5 != 5;
        "#;
    let mut lexer = Lexer::new(input);
    let mut parser = Parser::new(&mut lexer);
    let program = parser.parse_program().unwrap();
    assert_eq!(program.statements.len(), 8);

    let tests = [
        (5, ast::InfixOprator::Plus, 5),
        (5, ast::InfixOprator::Minus, 5),
        (5, ast::InfixOprator::Asterisk, 5),
        (5, ast::InfixOprator::Slash, 5),
        (5, ast::InfixOprator::Lt, 5),
        (5, ast::InfixOprator::Gt, 5),
        (5, ast::InfixOprator::Equal, 5),
        (5, ast::InfixOprator::Nequal, 5),
    ];

    for (index, stmt) in program.statements.iter().enumerate() {
        let infix = match stmt {
            ast::Statement::Expression(e) => match e {
                ast::Expression::Infix {
                    left,
                    operator,
                    right,
                } => (
                    match left.as_ref() {
                        ast::Expression::Integer(i) => i,
                        _ => panic!("Invalid left hand"),
                    },
                    operator,
                    match right.as_ref() {
                        ast::Expression::Integer(i) => i,
                        _ => panic!("Invalid right hand"),
                    },
                ),
                e => panic!("Invalid Infix Expression {:?}", e),
            },
            e => panic!("expect `Expression` but got {:?}", e),
        };
        assert_eq!(*infix.0, tests[index].0);
        assert_eq!(*infix.1, tests[index].1);
        assert_eq!(*infix.2, tests[index].2);
    }
}

#[test]
fn test_infix_expression_with_bool() {
    let input = r#"
            true == true;
            true != false;
        "#;
    let mut lexer = Lexer::new(input);
    let mut parser = Parser::new(&mut lexer);
    let program = parser.parse_program().unwrap();
    assert_eq!(program.statements.len(), 2);

    let tests = [
        (true, ast::InfixOprator::Equal, true),
        (true, ast::InfixOprator::Nequal, false),
    ];

    for (index, stmt) in program.statements.iter().enumerate() {
        let infix = match stmt {
            ast::Statement::Expression(e) => match e {
                ast::Expression::Infix {
                    left,
                    operator,
                    right,
                } => (
                    match left.as_ref() {
                        ast::Expression::Bool(b) => b,
                        _ => panic!("Invalid left hand"),
                    },
                    operator,
                    match right.as_ref() {
                        ast::Expression::Bool(b) => b,
                        _ => panic!("Invalid right hand"),
                    },
                ),
                e => panic!("Invalid Infix Expression {:?}", e),
            },
            e => panic!("expect `Expression` but got {:?}", e),
        };
        assert_eq!(*infix.0, tests[index].0);
        assert_eq!(*infix.1, tests[index].1);
        assert_eq!(*infix.2, tests[index].2);
    }
}

#[test]
fn test_if_expression() {
    let input = r#"
          if (x < y){ x };
        "#;
    let mut lexer = Lexer::new(input);
    let mut parser = Parser::new(&mut lexer);
    let program = parser.parse_program().unwrap();
    assert_eq!(program.statements.len(), 1);

    let stmt = &program.statements[0];
    match stmt {
        ast::Statement::Expression(e) => match e {
            ast::Expression::If {
                condition,
                consequence,
                alternative,
            } => {
                assert_eq!(condition.as_ref().to_string(), "(x < y)");
                assert_eq!(consequence.as_ref().to_string(), "x");
                if let Some(a) = alternative {
                    assert_eq!(a.as_ref().to_string(), "y");
                };
            }
            e => panic!("Invalid Infix Expression {:?}", e),
        },
        e => panic!("expect `Expression` but got {:?}", e),
    };
}

#[test]
fn test_if_else_expression() {
    let input = r#"
          if (x < y){ x } else { y };
        "#;
    let mut lexer = Lexer::new(input);
    let mut parser = Parser::new(&mut lexer);
    let program = parser.parse_program().unwrap();
    assert_eq!(program.statements.len(), 1);

    let stmt = &program.statements[0];
    match stmt {
        ast::Statement::Expression(e) => match e {
            ast::Expression::If {
                condition,
                consequence,
                alternative,
            } => {
                assert_eq!(condition.as_ref().to_string(), "(x < y)");
                assert_eq!(consequence.as_ref().to_string(), "x");
                if let Some(a) = alternative {
                    assert_eq!(a.as_ref().to_string(), "y");
                };
            }
            e => panic!("Invalid Infix Expression {:?}", e),
        },
        e => panic!("expect `Expression` but got {:?}", e),
    };
}

#[test]
fn test_function_expression() {
    let input = r#"
          fn (x, y){ x + y; }
        "#;
    let mut lexer = Lexer::new(input);
    let mut parser = Parser::new(&mut lexer);
    let program = parser.parse_program().unwrap();
    assert_eq!(program.statements.len(), 1);

    let stmt = &program.statements[0];
    match stmt {
        ast::Statement::Expression(e) => match e {
            ast::Expression::Function { parameters, body } => {
                assert_eq!(parameters[0].to_string(), "x");
                assert_eq!(parameters[1].to_string(), "y");
                assert_eq!(body.to_string(), "(x + y)");
            }
            e => panic!("Invalid Function Expression {:?}", e),
        },
        e => panic!("expect `Expression` but got {:?}", e),
    };
}

#[test]
fn test_call_expression() {
    let input = r#"
          add(1, 2*3, 4+5);
        "#;
    let mut lexer = Lexer::new(input);
    let mut parser = Parser::new(&mut lexer);
    let program = parser.parse_program().unwrap();
    assert_eq!(program.statements.len(), 1);

    let stmt = &program.statements[0];
    match stmt {
        ast::Statement::Expression(e) => match e {
            ast::Expression::Call {
                function,
                arguments,
            } => {
                assert_eq!(arguments[0].to_string(), "1");
                assert_eq!(arguments[1].to_string(), "(2 * 3)");
                assert_eq!(arguments[2].to_string(), "(4 + 5)");
                assert_eq!(function.to_string(), "add");
                assert_eq!(e.to_string(), "add(1, (2 * 3), (4 + 5))");
            }
            e => panic!("Invalid Function Expression {:?}", e),
        },
        e => panic!("expect `Expression` but got {:?}", e),
    };
}

#[test]
fn test_parse_string() {
    let input = r#""hello world""#;
    let mut lexer = Lexer::new(input);
    let mut parser = Parser::new(&mut lexer);
    let program = parser.parse_program().unwrap();
    assert_eq!(program.statements.len(), 1);
    let stmt = &program.statements[0];
    match stmt {
        ast::Statement::Expression(e) => match e {
            ast::Expression::String(s) => {
                assert_eq!(format!("{}", s), "hello world");
            }
            e => panic!("Invalid String Expression {:?}", e),
        },
        e => panic!("expect `Expression` but got {:?}", e),
    };
}

#[test]
fn test_parse_array() {
    let input = r#"[1, 2]"#;
    let mut lexer = Lexer::new(input);
    let mut parser = Parser::new(&mut lexer);
    let program = parser.parse_program().unwrap();
    assert_eq!(program.statements.len(), 1);
    let stmt = &program.statements[0];
    match stmt {
        ast::Statement::Expression(e) => match e {
            ast::Expression::Array(array) => {
                for (expr, expect) in array.iter().zip(vec![1, 2]) {
                    if let ast::Expression::Integer(i) = expr {
                        assert_eq!(*i, expect);
                    } else {
                        panic!("unexpected expression {:?}", expr)
                    }
                }
            }
            e => panic!("Invalid String Expression {:?}", e),
        },
        e => panic!("expect `Expression` but got {:?}", e),
    };
}

#[test]
fn test_parse_index() {
    let input = "hoge[1+2];";
    let mut lexer = Lexer::new(input);
    let mut parser = Parser::new(&mut lexer);
    let program = parser.parse_program().unwrap();
    let stmt = &program.statements[0];
    match stmt {
        ast::Statement::Expression(e) => match e {
            ast::Expression::Index { .. } => assert_eq!(e.to_string(), "hoge[(1 + 2)]"),
            e => panic!("Invalid String Expression {:?}", e),
        },
        e => panic!("expect `Expression` but got {:?}", e),
    };
}

#[test]
fn test_parse_map() {
    let input = r#"{"one":1, "two": 2}"#;
    let mut lexer = Lexer::new(input);
    let mut parser = Parser::new(&mut lexer);
    let program = parser.parse_program().unwrap_or_else(|e| panic!("{:?}", e));
    let stmt = &program.statements[0];
    match stmt {
        ast::Statement::Expression(e) => match e {
            ast::Expression::Hash(_) => assert_eq!(e.to_string(), "{ one: 1, two: 2 }"),
            e => panic!("Invalid String Expression {:?}", e),
        },
        e => panic!("expect `Expression` but got {:?}", e),
    };
}

#[test]
fn test_parse_for() {
    let input = r#" for a in [1,2,3] { a; }"#;
    let mut lexer = Lexer::new(input);
    let mut parser = Parser::new(&mut lexer);
    let program = parser.parse_program().unwrap_or_else(|e| panic!("{:?}", e));
    let stmt = &program.statements[0];
    match stmt {
        ast::Statement::Expression(e) => match e {
            ast::Expression::For {
                parameter,
                array,
                statement,
            } => {
                assert_eq!(format!("{}", parameter), "a");
                assert_eq!(array.to_string(), "[1, 2, 3]");
                assert_eq!(statement.to_string(), "a");
            }
            e => panic!("Invalid For Expression {:?}", e),
        },
        e => panic!("expect `Expression` but got {:?}", e),
    };
}

#[test]
fn test_parse_assign() {
    let input = r#"let a = 10; a = 11;"#;
    let mut lexer = Lexer::new(input);
    let mut parser = Parser::new(&mut lexer);
    let program = parser.parse_program().unwrap_or_else(|e| panic!("{:?}", e));
    let stmt = &program.statements[1];
    match stmt {
        ast::Statement::Expression(e) => match e {
            ast::Expression::Infix { .. } => {
                assert_eq!(e.to_string(), "(a = 11)");
            }
            e => panic!("Invalid Assign Expression {:?}", e),
        },
        e => panic!(
            "expect `Expression` but got {:?}, statement => {}",
            e,
            stmt.to_string()
        ),
    };
}

fn shown(src: &str) -> String {
    parse(src).unwrap().to_string()
}

#[test]
fn precedence_shows_in_parentheses() {
    assert_eq!(shown("-a * b"), "((-a) * b)");
    assert_eq!(shown("a + b * c"), "(a + (b * c))");
    assert_eq!(shown("a + b + c"), "((a + b) + c)");
    assert_eq!(shown("a == b < c"), "(a == (b < c))");
    assert_eq!(shown("!-a"), "(!(-a))");
    assert_eq!(shown("a * [1, 2][b]"), "(a * [1, 2][b])");
}

#[test]
fn grouping_overrides_precedence() {
    assert_eq!(shown("(a + b) * c"), "((a + b) * c)");
}

#[test]
fn let_and_return_show_as_written() {
    assert_eq!(shown("let x = 5;"), "let x = 5;");
    assert_eq!(shown("return 10;"), "return 10;");
}

#[test]
fn function_literal_has_params_and_body() {
    let program = parse("fn(x,y){x+y;}").unwrap();
    match &program.statements[0] {
        ast::Statement::Expression(ast::Expression::Function { parameters, body }) => {
            assert_eq!(parameters.len(), 2);
            match body.as_ref() {
                ast::Statement::Block(stmts) => assert_eq!(stmts.len(), 1),
                s => panic!("expected a block, got {:?}", s),
            }
        }
        s => panic!("expected a function, got {:?}", s),
    }
}

#[test]
fn parse_errors() {
    for src in ["let = 5;", "let x 5;", "(1 + 2", "[1, 2", "{1: 2", "{1 2}", "fn(1) {}", "if 1 { 2 }", "for 1 in [1] { 1 }", "for a in b { a }", "+", "5 @ 3"] {
        match parse(src) {
            Err(e) => assert!(e.to_string().starts_with("ParseError: "), "{}", src),
            Ok(p) => panic!("{} parsed as {}", src, p.to_string()),
        }
    }
}

#[test]
fn parse_let_statement_alone() {
    let mut lexer = Lexer::new("let x = 1 + 2; x");
    let mut parser = Parser::new(&mut lexer);
    let s = parser.parse_let_statement().unwrap();
    assert_eq!(s.to_string(), "let x = (1 + 2);");
    let mut lexer = Lexer::new("return x;");
    let mut parser = Parser::new(&mut lexer);
    let s = parser.parse_return_statement().unwrap();
    assert_eq!(s.to_string(), "return x;");
}

#[test]
fn display_round_trips() {
    for src in [
        "let x = (1 + (2 * 3));",
        "return add(1, [2, 3][0]);",
        "((a = 3) + (-b))",
        "if (x < y) { x } else { y }",
        "fn(a, b) { (a + b) }",
        "{ one: 1, two: 2 }",
        "for a in [1, 2] { a }",
        "len(\"ab\")",
        "let x = 5;let y = (x + 1);return (-y);",
        "let a = (!true);(a == false)",
    ] {
        let once = shown(src);
        assert_eq!(shown(&once), once, "{}", src);
    }
}

#[test]
fn display_then_parse_gives_the_same_tree() {
    for src in [
        "let x = 5; let y = x + 1; return -y * 2;",
        "let a = !true; a == false",
        "(1 + 2) * 3 - 4 / 5",
        "let f = g(1, [2, 3][0], h()); f[1](x) + -[true][0]",
        "let m = {1: a = 2, x: {}}; m[1]",
    ] {
        let p = parse(src).unwrap();
        let again = parse(&p.to_string()).unwrap();
        assert_eq!(again, p, "{}", src);
    }
}

#[test]
fn parse_errors_name_the_token() {
    assert_eq!(
        parse("*5").unwrap_err().to_string(),
        "ParseError: unexpected token at the start of an expression, got `ASTERISK`"
    );
    assert_eq!(
        parse("let 5 = 1;").unwrap_err().to_string(),
        "ParseError: expected an identifier after `let`, got `5`"
    );
    assert_eq!(
        parse("(1 + 2").unwrap_err().to_string(),
        "ParseError: parentheses are not closed, got `EOF`"
    );
    for src in ["*5", ")", "else", "=", ","] {
        assert!(parse(src).is_err(), "{}", src);
    }
}

#[test]
fn tokens_and_operators_print() {
    assert_eq!(Token::IDENT("abc".to_string()).to_string(), "abc");
    assert_eq!(Token::INT(-3).to_string(), "-3");
    assert_eq!(Token::LPAREN.to_string(), "LPAREN");
    assert_eq!(PrefixOprator::Bang.to_string(), "!");
    assert_eq!(InfixOprator::Nequal.to_string(), "!=");
}
