use vstd::prelude::*;

verus! {

/// A lexical token of the source language.
///
/// Integer literals carry their width as chosen by the lexer: a decimal
/// literal whose value fits in a signed 32-bit integer is `I32`, a larger
/// one (up to the signed 64-bit range) is `I64`.  A `TypeDeclaration`
/// carries an identifier together with the declared type name, as in
/// `x:i32`.  `EOF` is the end-of-input sentinel appended when the whole
/// input was consumed.
#[derive(Debug, PartialEq, Clone)]
pub enum Token {
    I32(i32),
    I64(i64),
    String(String),
    Ident(String),
    TypeDeclaration(String, String),
    Assignment,
    Plus,
    Minus,
    Star,
    Slash,
    Modulo,
    LessThan,
    GreaterThan,
    DoubleEqual,
    LParen,
    RParen,
    LBrace,
    RBrace,
    Semicolon,
    Colon,
    Comma,
    Function,
    If,
    Else,
    While,
    Print,
    Return,
    EOF,
}

/// The mathematical model of a `Token`: identical to `Token` except that
/// every owned string is replaced by its character sequence, so that
/// specifications can construct and compare token values directly.
pub enum TokenModel {
    I32(i32),
    I64(i64),
    String(Seq<char>),
    Ident(Seq<char>),
    TypeDeclaration(Seq<char>, Seq<char>),
    Assignment,
    Plus,
    Minus,
    Star,
    Slash,
    Modulo,
    LessThan,
    GreaterThan,
    DoubleEqual,
    LParen,
    RParen,
    LBrace,
    RBrace,
    Semicolon,
    Colon,
    Comma,
    Function,
    If,
    Else,
    While,
    Print,
    Return,
    EOF,
}

impl View for Token {
    type V = TokenModel;

    open spec fn view(&self) -> TokenModel {
        match self {
            Token::I32(v) => TokenModel::I32(*v),
            Token::I64(v) => TokenModel::I64(*v),
            Token::String(s) => TokenModel::String(s@),
            Token::Ident(s) => TokenModel::Ident(s@),
            Token::TypeDeclaration(n, t) => TokenModel::TypeDeclaration(n@, t@),
            Token::Assignment => TokenModel::Assignment,
            Token::Plus => TokenModel::Plus,
            Token::Minus => TokenModel::Minus,
            Token::Star => TokenModel::Star,
            Token::Slash => TokenModel::Slash,
            Token::Modulo => TokenModel::Modulo,
            Token::LessThan => TokenModel::LessThan,
            Token::GreaterThan => TokenModel::GreaterThan,
            Token::DoubleEqual => TokenModel::DoubleEqual,
            Token::LParen => TokenModel::LParen,
            Token::RParen => TokenModel::RParen,
            Token::LBrace => TokenModel::LBrace,
            Token::RBrace => TokenModel::RBrace,
            Token::Semicolon => TokenModel::Semicolon,
            Token::Colon => TokenModel::Colon,
            Token::Comma => TokenModel::Comma,
            Token::Function => TokenModel::Function,
            Token::If => TokenModel::If,
            Token::Else => TokenModel::Else,
            Token::While => TokenModel::While,
            Token::Print => TokenModel::Print,
            Token::Return => TokenModel::Return,
            Token::EOF => TokenModel::EOF,
        }
    }
}

impl DeepView for Token {
    type V = TokenModel;

    open spec fn deep_view(&self) -> TokenModel {
        self.view()
    }
}

} // verus!
