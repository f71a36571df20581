use compiler::parser::lexer::{
    assignment, comma, double_equal, greater_than, identifier, integer, l_brace, l_paren,
    less_than, minus, modulo, plus, r_brace, r_paren, semicolon, slash, star, string_literal,
    tokenizer,
};
use compiler::parser::token::Token;

#[test]
fn test_integer() {
    assert_eq!(integer("123 "), Some((" ".to_string(), Token::I32(123))));
}

#[test]
fn test_identifier() {
    assert_eq!(
        identifier("testVar "),
        Some((" ".to_string(), Token::Ident("testVar".to_string())))
    );
}

#[test]
fn test_string_literal() {
    assert_eq!(
        string_literal("\"hello world\" "),
        Some(("".to_string(), Token::String("hello world".to_string())))
    );
}

#[test]
fn test_operators() {
    assert_eq!(plus("+"), Some(("".to_string(), Token::Plus)));
    assert_eq!(minus("-"), Some(("".to_string(), Token::Minus)));
    assert_eq!(star("*"), Some(("".to_string(), Token::Star)));
    assert_eq!(slash("/"), Some(("".to_string(), Token::Slash)));
    assert_eq!(modulo("%"), Some(("".to_string(), Token::Modulo)));
}

#[test]
fn test_comparison_operators() {
    assert_eq!(less_than("<"), Some(("".to_string(), Token::LessThan)));
    assert_eq!(greater_than(">"), Some(("".to_string(), Token::GreaterThan)));
    assert_eq!(double_equal("=="), Some(("".to_string(), Token::DoubleEqual)));
}

#[test]
fn test_parentheses_and_braces() {
    assert_eq!(l_paren("("), Some(("".to_string(), Token::LParen)));
    assert_eq!(r_paren(")"), Some(("".to_string(), Token::RParen)));
    assert_eq!(l_brace("{"), Some(("".to_string(), Token::LBrace)));
    assert_eq!(r_brace("}"), Some(("".to_string(), Token::RBrace)));
}

#[test]
fn test_semicolon() {
    assert_eq!(semicolon(";"), Some(("".to_string(), Token::Semicolon)));
}

#[test]
fn test_valid_assignment() {
    let input = "hello = 10;";
    let (remaining, tokens) = tokenizer(input);
    if remaining.is_empty() {
        assert_eq!(
            tokens,
            vec![
                Token::Ident("hello".to_string()),
                Token::Assignment,
                Token::I32(10),
                Token::Semicolon,
                Token::EOF,
            ]
        );
    } else {
        panic!("Tokenizer failed to parse the input.");
    }
}

#[test]
fn test_function_def() {
    let input = "
            function add(a:i32, b:i32)
            {
                return a + b;
            };
        ";
    let (remaining, _tokens) = tokenizer(input);
    assert!(remaining.is_empty());
}

#[test]
fn test_print_with_expression() {
    let input = "print(10);";
    let (remaining, tokens) = tokenizer(input);
    if remaining.is_empty() {
        assert_eq!(
            tokens,
            vec![
                Token::Print,
                Token::LParen,
                Token::I32(10),
                Token::RParen,
                Token::Semicolon,
                Token::EOF,
            ]
        );
    } else {
        panic!("Tokenizer failed to parse the input.");
    }
}

#[test]
fn test_integer_i32() {
    assert_eq!(integer("123 "), Some((" ".to_string(), Token::I32(123))));
}

#[test]
fn test_integer_i64() {
    assert_eq!(
        integer("2147483648 "),
        Some((" ".to_string(), Token::I64(2147483648)))
    );
}

#[test]
fn test_type_declaration() {
    let input = "x:i32 = 10;";
    assert_eq!(
        tokenizer(input),
        (
            "".to_string(),
            vec![
                Token::TypeDeclaration("x".to_string(), "i32".to_string()),
                Token::Assignment,
                Token::I32(10),
                Token::Semicolon,
                Token::EOF,
            ]
        )
    );
}

#[test]
fn test_integer_boundary_values() {
    let (rem_max, toks_max) = tokenizer("2147483647");
    assert!(rem_max.is_empty());
    assert_eq!(toks_max, vec![Token::I32(2147483647), Token::EOF]);

    let (rem_over, toks_over) = tokenizer("2147483648");
    assert!(rem_over.is_empty());
    assert_eq!(toks_over, vec![Token::I64(2147483648), Token::EOF]);
}

#[test]
fn test_double_equal_is_one_token() {
    let (remaining, tokens) = tokenizer("==");
    assert!(remaining.is_empty());
    assert_eq!(tokens, vec![Token::DoubleEqual, Token::EOF]);
    assert!(!tokens.contains(&Token::Assignment));
}

#[test]
fn test_string_token_excludes_quotes() {
    let (remaining, tokens) = tokenizer("\"hello world\"");
    assert!(remaining.is_empty());
    assert_eq!(
        tokens,
        vec![Token::String("hello world".to_string()), Token::EOF]
    );
}

#[test]
fn test_keywords_tokenize() {
    let (remaining, tokens) = tokenizer("function if else while return print x");
    assert!(remaining.is_empty());
    assert_eq!(
        tokens,
        vec![
            Token::Function,
            Token::If,
            Token::Else,
            Token::While,
            Token::Return,
            Token::Print,
            Token::Ident("x".to_string()),
            Token::EOF,
        ]
    );
}

#[test]
fn test_keyword_prefix_is_identifier() {
    let (remaining, tokens) = tokenizer("iffy");
    assert!(remaining.is_empty());
    assert_eq!(tokens, vec![Token::Ident("iffy".to_string()), Token::EOF]);
}

#[test]
fn test_unterminated_string_halts() {
    let (remaining, tokens) = tokenizer("x \"oops");
    assert_eq!(remaining, " \"oops");
    assert_eq!(tokens, vec![Token::Ident("x".to_string())]);
}

#[test]
fn test_unrecognized_character_halts() {
    let (remaining, tokens) = tokenizer("x ? y");
    assert_eq!(remaining, " ? y");
    assert_eq!(tokens, vec![Token::Ident("x".to_string())]);
}

#[test]
fn test_huge_literal_halts() {
    let (remaining, tokens) = tokenizer("99999999999999999999");
    assert_eq!(remaining, "99999999999999999999");
    assert!(tokens.is_empty());
}

#[test]
fn test_type_declaration_with_spaces() {
    let (remaining, tokens) = tokenizer("x : i64 = 5;");
    assert!(remaining.is_empty());
    assert_eq!(
        tokens,
        vec![
            Token::TypeDeclaration("x".to_string(), "i64".to_string()),
            Token::Assignment,
            Token::I32(5),
            Token::Semicolon,
            Token::EOF,
        ]
    );
}
