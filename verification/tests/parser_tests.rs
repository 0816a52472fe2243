use monkey::ast::{Expression, Statement};
use monkey::lexer::Lexer;
use monkey::parser::{Parser, Precedence};
use monkey::token::Token;

#[test]
fn test_let() {
    let src = "let x = 2;".to_string();
    let lex = Lexer::new(src);
    let mut parser = Parser::new(Box::new(lex));
    let statements = parser.parse_program();
    if statements.len() != 1 {
        panic!("expected only one statement got {}", statements.len())
    }
    let node = Statement::Let {
        token: Token::Let,
        ident: Expression::Ident("x".to_string()),
        exprs: Expression::Int(2),
    };
    assert_eq!(statements[0], node)
}

#[test]
fn test_return() {
    let src = "return 12;".to_string();
    let lex = Lexer::new(src);
    let mut parser = Parser::new(Box::new(lex));
    let statements = parser.parse_program();
    if statements.len() != 1 {
        panic!("expected only one statement got {}", statements.len())
    }
    let node = Statement::Return { token: Token::Return, exprs: Expression::Int(12) };
    assert_eq!(statements[0], node)
}

#[test]
fn test_int() {
    let src = "12;".to_string();
    let lex = Lexer::new(src);
    let mut p = Parser::new(Box::new(lex));
    let stmnts = p.parse_program();
    let expected = Statement::ExprsStatement {
        token: Token::Int("12".to_string()),
        exprs: Expression::Int(12),
    };
    if stmnts.len() != 1 {
        panic!("expected 1 statement got {}", stmnts.len())
    }
    assert_eq!(stmnts[0], expected)
}

#[test]
fn test_bool() {
    let src = "false; true;".to_string();
    let lex = Lexer::new(src);
    let mut p = Parser::new(Box::new(lex));
    let stmnts = p.parse_program();
    let expected = [
        Statement::ExprsStatement {
            token: Token::False,
            exprs: Expression::Boolean { token: Token::False, value: false },
        },
        Statement::ExprsStatement {
            token: Token::True,
            exprs: Expression::Boolean { token: Token::True, value: true },
        },
    ];
    if stmnts.len() != 2 {
        panic!("expected 1 statement got {}", stmnts.len())
    }
    assert_eq!(stmnts, expected)
}

#[test]
fn test_prefix_ops() {
    let src = "!true;".to_string();
    let lex = Lexer::new(src);
    let mut p = Parser::new(Box::new(lex));
    let stmnts = p.parse_program();
    if stmnts.len() != 1 {
        panic!("expected 1 got {}", stmnts.len())
    }
    let expected = [Statement::ExprsStatement {
        token: Token::Bang,
        exprs: Expression::PrefixExprsn {
            token: Token::Bang,
            exprsn: Box::new(Expression::Boolean { token: Token::True, value: true }),
        },
    }];
    assert_eq!(stmnts[0], expected[0])
}

#[test]
fn test_infix() {
    let src = "1+1; 1+2*3;".to_string();
    let lex = Lexer::new(src);
    let mut p = Parser::new(Box::new(lex));
    let stmnts = p.parse_program();
    if stmnts.len() != 2 {
        panic!("expected 2 got {}", stmnts.len())
    }
    let expected = [
        Statement::ExprsStatement {
            token: Token::Int("1".to_string()),
            exprs: Expression::InfixExprsn {
                left: Box::new(Expression::Int(1)),
                right: Box::new(Expression::Int(1)),
                oprt: "+".to_string(),
            },
        },
        Statement::ExprsStatement {
            token: Token::Int("1".to_string()),
            exprs: Expression::InfixExprsn {
                left: Box::new(Expression::Int(1)),
                right: Box::new(Expression::InfixExprsn {
                    left: Box::new(Expression::Int(2)),
                    right: Box::new(Expression::Int(3)),
                    oprt: "*".to_string(),
                }),
                oprt: "+".to_string(),
            },
        },
    ];
    for (i, v) in stmnts.iter().enumerate() {
        assert_eq!(*v, expected[i])
    }
}

#[test]
fn test_grouped() {
    let src = "(1 + 1) * 2".to_string();
    let lex = Lexer::new(src);
    let mut p = Parser::new(Box::new(lex));
    let stmnts = p.parse_program();

    if stmnts.len() != 1 {
        panic!("expected 2 got {}", stmnts.len())
    }

    let expected = Statement::ExprsStatement {
        token: Token::Lparen,
        exprs: Expression::InfixExprsn {
            right: Box::new(Expression::Int(2)),
            left: Box::new(Expression::InfixExprsn {
                left: Box::new(Expression::Int(1)),
                right: Box::new(Expression::Int(1)),
                oprt: "+".to_string(),
            }),
            oprt: "*".to_string(),
        },
    };
    assert_eq!(stmnts[0], expected)
}

#[test]
fn test_if() {
    let src = "if x > 1 {
            let x = 2;
            return 12;
        } else {
            let b = 2;
            return 3;
        }
        "
    .to_string();
    let lex = Lexer::new(src);
    let mut p = Parser::new(Box::new(lex));
    let stmnts = p.parse_program();

    if stmnts.len() != 1 {
        panic!("expected 1 got {}", stmnts.len())
    }
    let consq = vec![
        Statement::Let {
            token: Token::Let,
            ident: Expression::Ident("x".to_string()),
            exprs: Expression::Int(2),
        },
        Statement::Return { token: Token::Return, exprs: Expression::Int(12) },
    ];
    let smnts = vec![
        Statement::Let {
            token: Token::Let,
            ident: Expression::Ident("b".to_string()),
            exprs: Expression::Int(2),
        },
        Statement::Return { token: Token::Return, exprs: Expression::Int(3) },
    ];

    let expected = Statement::ExprsStatement {
        token: Token::If,
        exprs: Expression::IfExprsn {
            condt: Box::new(Expression::InfixExprsn {
                left: Box::new(Expression::Ident("x".to_string())),
                right: Box::new(Expression::Int(1)),
                oprt: ">".to_string(),
            }),
            conseq: consq,
            alter: smnts,
        },
    };
    assert_eq!(stmnts[0], expected)
}

#[test]
fn test_fn() {
    let src = "
            fn(param, paramsecond){
                let x = 12;
                return 12;
            }
        "
    .to_string();
    let lex = Lexer::new(src);
    let mut p = Parser::new(Box::new(lex));
    let stmnts = p.parse_program();

    if stmnts.len() != 1 {
        panic!("expected 1 got {}", stmnts.len())
    }
    let expected = Statement::ExprsStatement {
        token: Token::Func,
        exprs: Expression::FnExprsn {
            params: vec![
                Expression::Ident("param".to_string()),
                Expression::Ident("paramsecond".to_string()),
            ],
            body: vec![
                Statement::Let {
                    token: Token::Let,
                    exprs: Expression::Int(12),
                    ident: Expression::Ident("x".to_string()),
                },
                Statement::Return { token: Token::Return, exprs: Expression::Int(12) },
            ],
        },
    };
    assert_eq!(stmnts[0], expected)
}

fn parse(src: &str) -> Vec<Statement> {
    let mut p = Parser::new(Box::new(Lexer::new(src.to_string())));
    p.parse_program()
}

#[test]
fn literal_out_of_range_is_no_expression() {
    assert_eq!(
        parse("2147483648;"),
        vec![Statement::ExprsStatement { token: Token::Int("2147483648".to_string()), exprs: Expression::NoExprsn }]
    );
    assert_eq!(
        parse("2147483647;"),
        vec![Statement::ExprsStatement {
            token: Token::Int("2147483647".to_string()),
            exprs: Expression::Int(2147483647)
        }]
    );
}

#[test]
fn malformed_statements_end_the_program() {
    assert_eq!(parse("let = 5; 1;"), vec![]);
    assert_eq!(parse("let x 5;"), vec![]);
    assert_eq!(parse("1; return 5"), vec![Statement::ExprsStatement {
        token: Token::Int("1".to_string()),
        exprs: Expression::Int(1)
    }]);
}

#[test]
fn prefix_minus_and_left_association() {
    assert_eq!(
        parse("-5;"),
        vec![Statement::ExprsStatement {
            token: Token::Minus,
            exprs: Expression::PrefixExprsn { token: Token::Minus, exprsn: Box::new(Expression::Int(5)) }
        }]
    );
    let a = || Box::new(Expression::Ident("a".to_string()));
    assert_eq!(
        parse("a - b - c"),
        vec![Statement::ExprsStatement {
            token: Token::Ident("a".to_string()),
            exprs: Expression::InfixExprsn {
                left: Box::new(Expression::InfixExprsn {
                    left: a(),
                    right: Box::new(Expression::Ident("b".to_string())),
                    oprt: "-".to_string()
                }),
                right: Box::new(Expression::Ident("c".to_string())),
                oprt: "-".to_string()
            }
        }]
    );
}

#[test]
fn if_without_else_and_fn_without_params() {
    assert_eq!(
        parse("if (x) { 1 }"),
        vec![Statement::ExprsStatement {
            token: Token::If,
            exprs: Expression::IfExprsn {
                condt: Box::new(Expression::Ident("x".to_string())),
                conseq: vec![Statement::ExprsStatement {
                    token: Token::Int("1".to_string()),
                    exprs: Expression::Int(1)
                }],
                alter: vec![]
            }
        }]
    );
    assert_eq!(
        parse("fn() { 1; }"),
        vec![Statement::ExprsStatement {
            token: Token::Func,
            exprs: Expression::FnExprsn {
                params: vec![],
                body: vec![Statement::ExprsStatement {
                    token: Token::Int("1".to_string()),
                    exprs: Expression::Int(1)
                }]
            }
        }]
    );
}

#[test]
fn empty_program() {
    assert_eq!(parse(""), vec![]);
    assert_eq!(parse("   \n"), vec![]);
}

#[test]
fn precedence_text() {
    assert_eq!(Precedence::Lowest.text(), "Lowest: 0");
    assert_eq!(Precedence::Sum.text(), "Sum: 3");
    assert_eq!(Precedence::Product.text(), "Product: 4");
    assert_eq!(Precedence::Product.rank(), 4);
}

#[test]
fn tighter_operator_on_the_left_groups_first() {
    let name = |s: &str| Box::new(Expression::Ident(s.to_string()));
    assert_eq!(
        parse("a * b + c"),
        vec![Statement::ExprsStatement {
            token: Token::Ident("a".to_string()),
            exprs: Expression::InfixExprsn {
                left: Box::new(Expression::InfixExprsn { left: name("a"), right: name("b"), oprt: "*".to_string() }),
                right: name("c"),
                oprt: "+".to_string()
            }
        }]
    );
    assert_eq!(
        parse("a < b * c"),
        vec![Statement::ExprsStatement {
            token: Token::Ident("a".to_string()),
            exprs: Expression::InfixExprsn {
                left: name("a"),
                right: Box::new(Expression::InfixExprsn { left: name("b"), right: name("c"), oprt: "*".to_string() }),
                oprt: "<".to_string()
            }
        }]
    );
}
