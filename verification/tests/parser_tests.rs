use compiler::parser::ast::{Expr, Literal, Op};
use compiler::parser::lexer::tokenizer;
use compiler::parser::token::Token;
use compiler::parser::Parser;

#[test]
fn test_binary_addition() {
    let tokens = vec![
        Token::I32(10),
        Token::Plus,
        Token::I32(20),
        Token::Semicolon,
        Token::EOF,
    ];
    let mut parser = Parser { tokens, current: 0 };
    let result = parser.parse_tokens();

    assert!(result.is_ok());
    let expected = Expr::Block(vec![Expr::BinaryOp {
        left: Box::new(Expr::Literal(Literal::I32(10))),
        op: Op::Add,
        right: Box::new(Expr::Literal(Literal::I32(20))),
    }]);
    assert_eq!(result.unwrap(), expected);
}

#[test]
fn test_binary_subtraction() {
    let tokens = vec![
        Token::I32(30),
        Token::Minus,
        Token::I32(20),
        Token::Semicolon,
        Token::EOF,
    ];
    let mut parser = Parser { tokens, current: 0 };
    let result = parser.parse_tokens();

    assert!(result.is_ok());
    let expected = Expr::Block(vec![Expr::BinaryOp {
        left: Box::new(Expr::Literal(Literal::I32(30))),
        op: Op::Subtract,
        right: Box::new(Expr::Literal(Literal::I32(20))),
    }]);
    assert_eq!(result.unwrap(), expected);
}

#[test]
fn test_binary_multiplication() {
    let tokens = vec![
        Token::I32(5),
        Token::Star,
        Token::I32(4),
        Token::Semicolon,
        Token::EOF,
    ];
    let mut parser = Parser { tokens, current: 0 };
    let result = parser.parse_tokens();

    assert!(result.is_ok());
    let expected = Expr::Block(vec![Expr::BinaryOp {
        left: Box::new(Expr::Literal(Literal::I32(5))),
        op: Op::Multiply,
        right: Box::new(Expr::Literal(Literal::I32(4))),
    }]);
    assert_eq!(result.unwrap(), expected);
}

#[test]
fn test_binary_division() {
    let tokens = vec![
        Token::I32(20),
        Token::Slash,
        Token::I32(5),
        Token::Semicolon,
        Token::EOF,
    ];
    let mut parser = Parser { tokens, current: 0 };
    let result = parser.parse_tokens();

    assert!(result.is_ok());
    let expected = Expr::Block(vec![Expr::BinaryOp {
        left: Box::new(Expr::Literal(Literal::I32(20))),
        op: Op::Divide,
        right: Box::new(Expr::Literal(Literal::I32(5))),
    }]);
    assert_eq!(result.unwrap(), expected);
}

#[test]
fn test_function_call() {
    let tokens = vec![
        Token::Function,
        Token::Ident("add".to_string()),
        Token::LParen,
        Token::TypeDeclaration("x".to_string(), "i32".to_string()),
        Token::Comma,
        Token::TypeDeclaration("y".to_string(), "i32".to_string()),
        Token::RParen,
        Token::LBrace,
        Token::Return,
        Token::Ident("x".to_string()),
        Token::Plus,
        Token::Ident("y".to_string()),
        Token::Semicolon,
        Token::RBrace,
        Token::Ident("add".to_string()),
        Token::LParen,
        Token::I32(100),
        Token::Comma,
        Token::I32(200),
        Token::RParen,
        Token::Semicolon,
        Token::EOF,
    ];
    let mut parser = Parser { tokens, current: 0 };

    let result = parser.parse_tokens();
    assert!(result.is_ok(), "Failed to parse program: {:?}", result.err());
}

#[test]
fn test_if_statement() {
    let tokens = vec![
        Token::If,
        Token::LParen,
        Token::Ident("x".to_string()),
        Token::LessThan,
        Token::I32(10),
        Token::RParen,
        Token::LBrace,
        Token::Ident("x".to_string()),
        Token::Assignment,
        Token::I32(0),
        Token::Semicolon,
        Token::RBrace,
        Token::EOF,
    ];
    let mut parser = Parser { tokens, current: 0 };

    let result = parser.parse_tokens();
    assert!(
        result.is_ok(),
        "Failed to parse if statement: {:?}",
        result.err()
    );
}

#[test]
fn test_while_statement() {
    let tokens = vec![
        Token::While,
        Token::LParen,
        Token::Ident("x".to_string()),
        Token::LessThan,
        Token::I32(10),
        Token::RParen,
        Token::LBrace,
        Token::Ident("x".to_string()),
        Token::Assignment,
        Token::Ident("x".to_string()),
        Token::Plus,
        Token::I32(1),
        Token::Semicolon,
        Token::RBrace,
        Token::EOF,
    ];
    let mut parser = Parser { tokens, current: 0 };
    let result = parser.parse_tokens();
    assert!(
        result.is_ok(),
        "Failed to parse while statement: {:?}",
        result.err()
    );
}

#[test]
fn test_function_definition_and_call() {
    let source = r#"
        function add(x:i32, y:i32) {
            return x + y;
        };

        add(100, 200);
        "#;
    let (_, tokens) = tokenizer(source);
    let mut parser = Parser { tokens, current: 0 };
    let ast = parser.parse_tokens().expect("Failed to parse tokens");

    let expected_ast = Expr::Block(vec![
        Expr::FunctionDef {
            name: "add".to_string(),
            params: vec![
                ("x".to_string(), "i32".to_string()),
                ("y".to_string(), "i32".to_string()),
            ],
            body: Box::new(Expr::Block(vec![Expr::Return(Box::new(Expr::BinaryOp {
                left: Box::new(Expr::Variable("x".to_string())),
                op: Op::Add,
                right: Box::new(Expr::Variable("y".to_string())),
            }))])),
        },
        Expr::FunctionCall {
            name: "add".to_string(),
            args: vec![
                Expr::Literal(Literal::I32(100)),
                Expr::Literal(Literal::I32(200)),
            ],
        },
    ]);

    assert_eq!(ast, expected_ast, "AST did not match the expected output");
}

#[test]
fn test_print_statements() {
    let tests = vec![
        "print(10);",
        "print(x);",
        "print(x + y);",
        "print(\"hello\");",
        "print(10 + 20 * 30);",
        "print((10));",
    ];

    for test in tests {
        let (_, tokens) = tokenizer(test);
        let mut parser = Parser { tokens, current: 0 };
        assert!(parser.parse_tokens().is_ok(), "Failed to parse: {}", test);
    }
}

#[test]
fn test_type_declaration_and_assignment() {
    let input = "x:i32 = 10;";
    let (_, tokens) = tokenizer(input);

    let mut parser = Parser { tokens, current: 0 };
    let result = parser.parse_statement();

    assert!(
        result.is_ok(),
        "Failed to parse type declaration and assignment"
    );
    let expected = Expr::Assignment {
        name: "x".to_string(),
        type_decl: Some("i32".to_string()),
        value: Box::new(Expr::Literal(Literal::I32(10))),
    };

    assert_eq!(
        result.unwrap(),
        expected,
        "Parsed expression does not match expected"
    );
}

#[test]
fn test_i64_widening() {
    let input = "x:i64 = 10;";
    let (_, tokens) = tokenizer(input);
    let mut parser = Parser { tokens, current: 0 };
    let result = parser.parse_statement();

    let expected = Expr::Assignment {
        name: "x".to_string(),
        type_decl: Some("i64".to_string()),
        value: Box::new(Expr::Literal(Literal::I64(10))),
    };
    assert_eq!(result.unwrap(), expected);
}

#[test]
fn test_top_level_block_statement_count() {
    let input = "x:i32 = 1; y:i32 = 2; print(x);";
    let (remaining, tokens) = tokenizer(input);
    assert!(remaining.is_empty());
    let mut parser = Parser { tokens, current: 0 };
    let result = parser.parse_tokens().unwrap();
    match result {
        Expr::Block(statements) => assert_eq!(statements.len(), 3),
        _ => panic!("Top-level parse did not produce a Block"),
    }
}

#[test]
fn test_type_mismatch_is_parse_error() {
    let input = "x:i32 = 2147483648;";
    let (remaining, tokens) = tokenizer(input);
    assert!(remaining.is_empty());
    let mut parser = Parser { tokens, current: 0 };
    let result = parser.parse_tokens();
    assert!(result.is_err());
    let msg = result.unwrap_err();
    assert!(msg.contains("Type mismatch"));
}

#[test]
fn test_string_type_declaration_rejected() {
    let input = "s:string = \"hi\";";
    let (remaining, tokens) = tokenizer(input);
    assert!(remaining.is_empty());
    let mut parser = Parser { tokens, current: 0 };
    assert!(parser.parse_tokens().is_err());
}

#[test]
fn test_untyped_assignment_has_no_type_decl() {
    let input = "x = 3;";
    let (_, tokens) = tokenizer(input);
    let mut parser = Parser { tokens, current: 0 };
    let result = parser.parse_tokens().unwrap();
    let expected = Expr::Block(vec![Expr::Assignment {
        name: "x".to_string(),
        type_decl: None,
        value: Box::new(Expr::Literal(Literal::I32(3))),
    }]);
    assert_eq!(result, expected);
}

#[test]
fn test_left_associative_fold() {
    let input = "1 - 2 - 3;";
    let (_, tokens) = tokenizer(input);
    let mut parser = Parser { tokens, current: 0 };
    let result = parser.parse_tokens().unwrap();
    let expected = Expr::Block(vec![Expr::BinaryOp {
        left: Box::new(Expr::BinaryOp {
            left: Box::new(Expr::Literal(Literal::I32(1))),
            op: Op::Subtract,
            right: Box::new(Expr::Literal(Literal::I32(2))),
        }),
        op: Op::Subtract,
        right: Box::new(Expr::Literal(Literal::I32(3))),
    }]);
    assert_eq!(result, expected);
}

#[test]
fn test_unexpected_token_is_error() {
    let tokens = vec![Token::RParen, Token::EOF];
    let mut parser = Parser { tokens, current: 0 };
    assert!(parser.parse_tokens().is_err());
}

#[test]
fn test_zero_argument_call() {
    let (remaining, tokens) = tokenizer("f();");
    assert!(remaining.is_empty());
    let mut parser = Parser { tokens, current: 0 };
    let result = parser.parse_tokens().unwrap();
    let expected = Expr::Block(vec![Expr::FunctionCall {
        name: "f".to_string(),
        args: vec![],
    }]);
    assert_eq!(result, expected);
}

#[test]
fn test_one_argument_call() {
    let (remaining, tokens) = tokenizer("f(5);");
    assert!(remaining.is_empty());
    let mut parser = Parser { tokens, current: 0 };
    let result = parser.parse_tokens().unwrap();
    let expected = Expr::Block(vec![Expr::FunctionCall {
        name: "f".to_string(),
        args: vec![Expr::Literal(Literal::I32(5))],
    }]);
    assert_eq!(result, expected);
}

#[test]
fn test_expr_clone() {
    let (_, tokens) = tokenizer("x:i32 = 1; print(x + 2);");
    let mut parser = Parser { tokens, current: 0 };
    let ast = parser.parse_tokens().unwrap();
    let copy = ast.clone();
    assert_eq!(ast, copy);
}
