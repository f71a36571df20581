pub mod ast;
pub mod lexer;
pub mod token;

use crate::parser::ast::{expr_wf, Expr, Literal, Op};
use crate::parser::token::{Token, TokenModel};
use vstd::prelude::*;
use vstd::pervasive::trigger;
use vstd::string::StringExecFns;

verus! {

/// Two token values of the same variant, regardless of any payload.
pub open spec fn same_kind(a: TokenModel, b: TokenModel) -> bool {
    match (a, b) {
        (TokenModel::I32(_), TokenModel::I32(_)) => true,
        (TokenModel::I64(_), TokenModel::I64(_)) => true,
        (TokenModel::String(_), TokenModel::String(_)) => true,
        (TokenModel::Ident(_), TokenModel::Ident(_)) => true,
        (TokenModel::TypeDeclaration(_, _), TokenModel::TypeDeclaration(_, _)) => true,
        (TokenModel::Assignment, TokenModel::Assignment) => true,
        (TokenModel::Plus, TokenModel::Plus) => true,
        (TokenModel::Minus, TokenModel::Minus) => true,
        (TokenModel::Star, TokenModel::Star) => true,
        (TokenModel::Slash, TokenModel::Slash) => true,
        (TokenModel::Modulo, TokenModel::Modulo) => true,
        (TokenModel::LessThan, TokenModel::LessThan) => true,
        (TokenModel::GreaterThan, TokenModel::GreaterThan) => true,
        (TokenModel::DoubleEqual, TokenModel::DoubleEqual) => true,
        (TokenModel::LParen, TokenModel::LParen) => true,
        (TokenModel::RParen, TokenModel::RParen) => true,
        (TokenModel::LBrace, TokenModel::LBrace) => true,
        (TokenModel::RBrace, TokenModel::RBrace) => true,
        (TokenModel::Semicolon, TokenModel::Semicolon) => true,
        (TokenModel::Colon, TokenModel::Colon) => true,
        (TokenModel::Comma, TokenModel::Comma) => true,
        (TokenModel::Function, TokenModel::Function) => true,
        (TokenModel::If, TokenModel::If) => true,
        (TokenModel::Else, TokenModel::Else) => true,
        (TokenModel::While, TokenModel::While) => true,
        (TokenModel::Print, TokenModel::Print) => true,
        (TokenModel::Return, TokenModel::Return) => true,
        (TokenModel::EOF, TokenModel::EOF) => true,
        _ => false,
    }
}

/// An owned copy of a token, with the same model as the one given.
pub fn clone_token(t: &Token) -> (r: Token)
    ensures
        r@ == t@,
{
    match t {
        Token::I32(v) => Token::I32(*v),
        Token::I64(v) => Token::I64(*v),
        Token::String(s) => Token::String(s.clone()),
        Token::Ident(s) => Token::Ident(s.clone()),
        Token::TypeDeclaration(n, ty) => Token::TypeDeclaration(n.clone(), ty.clone()),
        Token::Assignment => Token::Assignment,
        Token::Plus => Token::Plus,
        Token::Minus => Token::Minus,
        Token::Star => Token::Star,
        Token::Slash => Token::Slash,
        Token::Modulo => Token::Modulo,
        Token::LessThan => Token::LessThan,
        Token::GreaterThan => Token::GreaterThan,
        Token::DoubleEqual => Token::DoubleEqual,
        Token::LParen => Token::LParen,
        Token::RParen => Token::RParen,
        Token::LBrace => Token::LBrace,
        Token::RBrace => Token::RBrace,
        Token::Semicolon => Token::Semicolon,
        Token::Colon => Token::Colon,
        Token::Comma => Token::Comma,
        Token::Function => Token::Function,
        Token::If => Token::If,
        Token::Else => Token::Else,
        Token::While => Token::While,
        Token::Print => Token::Print,
        Token::Return => Token::Return,
        Token::EOF => Token::EOF,
    }
}

/// Whether two tokens are of the same variant.
fn token_kind_eq(a: &Token, b: &Token) -> (r: bool)
    ensures
        r == same_kind(a@, b@),
{
    match (a, b) {
        (Token::I32(_), Token::I32(_)) => true,
        (Token::I64(_), Token::I64(_)) => true,
        (Token::String(_), Token::String(_)) => true,
        (Token::Ident(_), Token::Ident(_)) => true,
        (Token::TypeDeclaration(_, _), Token::TypeDeclaration(_, _)) => true,
        (Token::Assignment, Token::Assignment) => true,
        (Token::Plus, Token::Plus) => true,
        (Token::Minus, Token::Minus) => true,
        (Token::Star, Token::Star) => true,
        (Token::Slash, Token::Slash) => true,
        (Token::Modulo, Token::Modulo) => true,
        (Token::LessThan, Token::LessThan) => true,
        (Token::GreaterThan, Token::GreaterThan) => true,
        (Token::DoubleEqual, Token::DoubleEqual) => true,
        (Token::LParen, Token::LParen) => true,
        (Token::RParen, Token::RParen) => true,
        (Token::LBrace, Token::LBrace) => true,
        (Token::RBrace, Token::RBrace) => true,
        (Token::Semicolon, Token::Semicolon) => true,
        (Token::Colon, Token::Colon) => true,
        (Token::Comma, Token::Comma) => true,
        (Token::Function, Token::Function) => true,
        (Token::If, Token::If) => true,
        (Token::Else, Token::Else) => true,
        (Token::While, Token::While) => true,
        (Token::Print, Token::Print) => true,
        (Token::Return, Token::Return) => true,
        (Token::EOF, Token::EOF) => true,
        _ => false,
    }
}

/// A short printable name for a token's variant, used in error messages.
fn token_name(t: &Token) -> (r: &'static str) {
    match t {
        Token::I32(_) => "I32",
        Token::I64(_) => "I64",
        Token::String(_) => "String",
        Token::Ident(_) => "Ident",
        Token::TypeDeclaration(_, _) => "TypeDeclaration",
        Token::Assignment => "Assignment",
        Token::Plus => "Plus",
        Token::Minus => "Minus",
        Token::Star => "Star",
        Token::Slash => "Slash",
        Token::Modulo => "Modulo",
        Token::LessThan => "LessThan",
        Token::GreaterThan => "GreaterThan",
        Token::DoubleEqual => "DoubleEqual",
        Token::LParen => "LParen",
        Token::RParen => "RParen",
        Token::LBrace => "LBrace",
        Token::RBrace => "RBrace",
        Token::Semicolon => "Semicolon",
        Token::Colon => "Colon",
        Token::Comma => "Comma",
        Token::Function => "Function",
        Token::If => "If",
        Token::Else => "Else",
        Token::While => "While",
        Token::Print => "Print",
        Token::Return => "Return",
        Token::EOF => "EOF",
    }
}

/// The operator a token stands for, if any.
pub open spec fn op_of(t: TokenModel) -> Option<Op> {
    match t {
        TokenModel::Plus => Some(Op::Add),
        TokenModel::Minus => Some(Op::Subtract),
        TokenModel::Star => Some(Op::Multiply),
        TokenModel::Slash => Some(Op::Divide),
        TokenModel::LessThan => Some(Op::LessThan),
        TokenModel::GreaterThan => Some(Op::GreaterThan),
        _ => None,
    }
}

/// Where a primary expression beginning at `i` ends, or `None` when none
/// starts there: a literal or identifier token, a call, or a
/// parenthesised expression.
pub open spec fn prim_end(ts: Seq<TokenModel>, i: int) -> Option<int>
    decreases ts.len() - i, 1int,
    when 0 <= i <= ts.len()
{
    if i >= ts.len() {
        None
    } else {
        match ts[i] {
            TokenModel::I32(_) => Some(i + 1),
            TokenModel::I64(_) => Some(i + 1),
            TokenModel::String(_) => Some(i + 1),
            TokenModel::Ident(_) => if i + 1 < ts.len() && (ts[i + 1] is LParen) {
                call_end(ts, i)
            } else {
                Some(i + 1)
            },
            TokenModel::LParen => match fold_end(ts, i + 1) {
                Some(j) => if j < ts.len() && (ts[j] is RParen) {
                    Some(j + 1)
                } else {
                    None
                },
                None => None,
            },
            _ => None,
        }
    }
}

/// Where a function call beginning at `i` ends: an identifier, `(`, a
/// possibly empty comma-separated argument list, `)`.
pub open spec fn call_end(ts: Seq<TokenModel>, i: int) -> Option<int>
    decreases ts.len() - i, 0int,
    when 0 <= i <= ts.len()
{
    if i < ts.len() && (ts[i] is Ident) && i + 1 < ts.len() && (ts[i + 1] is LParen) {
        if i + 2 < ts.len() && (ts[i + 2] is RParen) {
            Some(i + 3)
        } else {
            match args_end(ts, i + 2) {
                Some(j) => if j < ts.len() && (ts[j] is RParen) {
                    Some(j + 1)
                } else {
                    None
                },
                None => None,
            }
        }
    } else {
        None
    }
}

/// Where a non-empty comma-separated argument list beginning at `i` ends.
pub open spec fn args_end(ts: Seq<TokenModel>, i: int) -> Option<int>
    decreases ts.len() - i, 4int,
    when 0 <= i <= ts.len()
{
    match fold_end(ts, i) {
        Some(j) => if i < j <= ts.len() {
            if j < ts.len() && (ts[j] is Comma) {
                args_end(ts, j + 1)
            } else {
                Some(j)
            }
        } else {
            None
        },
        None => None,
    }
}

/// Where the left-associative operator fold beginning at `i` ends.
pub open spec fn fold_end(ts: Seq<TokenModel>, i: int) -> Option<int>
    decreases ts.len() - i, 2int,
    when 0 <= i <= ts.len()
{
    match prim_end(ts, i) {
        Some(j) => if i < j <= ts.len() {
            fold_tail(ts, j)
        } else {
            None
        },
        None => None,
    }
}

/// Continues the operator fold from position `j`: while an operator
/// token follows, one more primary is consumed.
pub open spec fn fold_tail(ts: Seq<TokenModel>, j: int) -> Option<int>
    decreases ts.len() - j, 3int,
    when 0 <= j <= ts.len()
{
    if j < ts.len() && op_of(ts[j]) is Some {
        match prim_end(ts, j + 1) {
            Some(j2) => if j < j2 <= ts.len() {
                fold_tail(ts, j2)
            } else {
                None
            },
            None => None,
        }
    } else {
        Some(j)
    }
}

/// The literal shape of a parsed value: a 32-bit literal, a 64-bit
/// literal, or anything else.
pub enum LitShape {
    I32V(i32),
    I64V(i64),
    Other,
}

/// The literal shape of an expression value.
pub open spec fn lit_shape_of(e: Expr) -> LitShape {
    match e {
        Expr::Literal(Literal::I32(v)) => LitShape::I32V(v),
        Expr::Literal(Literal::I64(v)) => LitShape::I64V(v),
        _ => LitShape::Other,
    }
}

/// The literal shape of the primary beginning at `i`: a lone literal
/// token, or whatever a parenthesised expression wraps.
pub open spec fn prim_shape(ts: Seq<TokenModel>, i: int) -> LitShape
    decreases ts.len() - i, 1int,
    when 0 <= i <= ts.len()
{
    if i >= ts.len() {
        LitShape::Other
    } else {
        match ts[i] {
            TokenModel::I32(v) => LitShape::I32V(v),
            TokenModel::I64(v) => LitShape::I64V(v),
            TokenModel::LParen => fold_shape(ts, i + 1),
            _ => LitShape::Other,
        }
    }
}

/// The literal shape of the operator fold beginning at `i`: its
/// primary's shape when no operator follows, otherwise not a literal.
pub open spec fn fold_shape(ts: Seq<TokenModel>, i: int) -> LitShape
    decreases ts.len() - i, 2int,
    when 0 <= i <= ts.len()
{
    match prim_end(ts, i) {
        Some(j) => if j < ts.len() && op_of(ts[j]) is Some {
            LitShape::Other
        } else {
            prim_shape(ts, i)
        },
        None => LitShape::Other,
    }
}

/// Where a typed assignment beginning at `i` ends: the combined
/// type-declaration token, `=`, and a literal initializer whose width
/// matches the declared type (a 32-bit literal is accepted under an
/// `i64` declaration and widened).
pub open spec fn tydecl_end(ts: Seq<TokenModel>, i: int) -> Option<int>
    decreases ts.len() - i, 5int,
    when 0 <= i <= ts.len()
{
    if i < ts.len() && (ts[i] is TypeDeclaration) && i + 1 < ts.len() && (ts[i + 1]
        is Assignment) {
        match ts[i] {
            TokenModel::TypeDeclaration(n, t) => match fold_end(ts, i + 2) {
                Some(j) => match fold_shape(ts, i + 2) {
                    LitShape::I32V(_) => if t == "i64"@ || t == "i32"@ {
                        Some(j)
                    } else {
                        None
                    },
                    LitShape::I64V(_) => if t == "i64"@ {
                        Some(j)
                    } else {
                        None
                    },
                    LitShape::Other => None,
                },
                None => None,
            },
            _ => None,
        }
    } else {
        None
    }
}

/// Where an untyped assignment beginning at `i` ends: an identifier,
/// `=`, and an expression.
pub open spec fn assign_end(ts: Seq<TokenModel>, i: int) -> Option<int>
    decreases ts.len() - i, 5int,
    when 0 <= i <= ts.len()
{
    if i < ts.len() && (ts[i] is Ident) && i + 1 < ts.len() && (ts[i + 1] is Assignment) {
        fold_end(ts, i + 2)
    } else {
        None
    }
}

/// Where a print statement beginning at `i` ends.
pub open spec fn print_end(ts: Seq<TokenModel>, i: int) -> Option<int>
    decreases ts.len() - i, 5int,
    when 0 <= i <= ts.len()
{
    if i < ts.len() && (ts[i] is Print) && i + 1 < ts.len() && (ts[i + 1] is LParen) {
        match fold_end(ts, i + 2) {
            Some(j) => if j < ts.len() && (ts[j] is RParen) {
                Some(j + 1)
            } else {
                None
            },
            None => None,
        }
    } else {
        None
    }
}

/// Where a return statement beginning at `i` ends, its own semicolon
/// included.
pub open spec fn ret_end(ts: Seq<TokenModel>, i: int) -> Option<int>
    decreases ts.len() - i, 5int,
    when 0 <= i <= ts.len()
{
    if i < ts.len() && (ts[i] is Return) {
        match fold_end(ts, i + 1) {
            Some(j) => if j < ts.len() && (ts[j] is Semicolon) {
                Some(j + 1)
            } else {
                None
            },
            None => None,
        }
    } else {
        None
    }
}

/// Where a conditional beginning at `i` ends: `if ( expr ) block` with
/// an optional `else block`.
pub open spec fn if_end(ts: Seq<TokenModel>, i: int) -> Option<int>
    decreases ts.len() - i, 5int,
    when 0 <= i <= ts.len()
{
    if i < ts.len() && (ts[i] is If) && i + 1 < ts.len() && (ts[i + 1] is LParen) {
        match fold_end(ts, i + 2) {
            Some(m) => if i + 2 <= m && m < ts.len() && (ts[m] is RParen) {
                match block_end(ts, m + 1) {
                    Some(b) => if m + 1 <= b && b < ts.len() && (ts[b] is Else) {
                        block_end(ts, b + 1)
                    } else {
                        Some(b)
                    },
                    None => None,
                }
            } else {
                None
            },
            None => None,
        }
    } else {
        None
    }
}

/// Where a while loop beginning at `i` ends: `while ( expr ) block`.
pub open spec fn while_end(ts: Seq<TokenModel>, i: int) -> Option<int>
    decreases ts.len() - i, 5int,
    when 0 <= i <= ts.len()
{
    if i < ts.len() && (ts[i] is While) && i + 1 < ts.len() && (ts[i + 1] is LParen) {
        match fold_end(ts, i + 2) {
            Some(m) => if i + 2 <= m && m < ts.len() && (ts[m] is RParen) {
                block_end(ts, m + 1)
            } else {
                None
            },
            None => None,
        }
    } else {
        None
    }
}

/// Where a function definition beginning at `i` ends:
/// `function name ( parameters ) block`.
pub open spec fn fndef_end(ts: Seq<TokenModel>, i: int) -> Option<int>
    decreases ts.len() - i, 5int,
    when 0 <= i <= ts.len()
{
    if i < ts.len() && (ts[i] is Function) && i + 1 < ts.len() && (ts[i + 1] is Ident) {
        match params_end(ts, i + 2) {
            Some(p) => if i + 2 < p <= ts.len() {
                block_end(ts, p)
            } else {
                None
            },
            None => None,
        }
    } else {
        None
    }
}

/// Where a parenthesised parameter list beginning at `i` ends.
pub open spec fn params_end(ts: Seq<TokenModel>, i: int) -> Option<int>
    decreases ts.len() - i, 0int,
    when 0 <= i <= ts.len()
{
    if i < ts.len() && (ts[i] is LParen) {
        params_tail(ts, i + 1)
    } else {
        None
    }
}

/// Continues a parameter list: type-declaration tokens, each with an
/// optional trailing comma, up to the closing parenthesis.
pub open spec fn params_tail(ts: Seq<TokenModel>, k: int) -> Option<int>
    decreases ts.len() - k, 1int,
    when 0 <= k <= ts.len()
{
    if k >= ts.len() {
        None
    } else if ts[k] is RParen {
        Some(k + 1)
    } else if ts[k] is TypeDeclaration {
        if k + 1 < ts.len() && (ts[k + 1] is Comma) {
            params_tail(ts, k + 2)
        } else {
            params_tail(ts, k + 1)
        }
    } else {
        None
    }
}

/// Where a braced block beginning at `i` ends.
pub open spec fn block_end(ts: Seq<TokenModel>, i: int) -> Option<int>
    decreases ts.len() - i, 5int,
    when 0 <= i <= ts.len()
{
    if i < ts.len() && (ts[i] is LBrace) {
        block_tail(ts, i + 1)
    } else {
        None
    }
}

/// Continues a block: statements up to the closing brace.
pub open spec fn block_tail(ts: Seq<TokenModel>, i: int) -> Option<int>
    decreases ts.len() - i, 7int,
    when 0 <= i <= ts.len()
{
    if i >= ts.len() {
        None
    } else if ts[i] is RBrace {
        Some(i + 1)
    } else {
        match stmt_end(ts, i) {
            Some(j) => if i < j <= ts.len() {
                block_tail(ts, j)
            } else {
                None
            },
            None => None,
        }
    }
}

/// Where one statement beginning at `i` ends, one trailing semicolon
/// included when present.  The grammar dispatches on the token under
/// the cursor, exactly as the parser does.
pub open spec fn stmt_end(ts: Seq<TokenModel>, i: int) -> Option<int>
    decreases ts.len() - i, 6int,
    when 0 <= i <= ts.len()
{
    let base = if i >= ts.len() {
        fold_end(ts, i)
    } else {
        match ts[i] {
            TokenModel::TypeDeclaration(_, _) => tydecl_end(ts, i),
            TokenModel::While => while_end(ts, i),
            TokenModel::Function => fndef_end(ts, i),
            TokenModel::If => if_end(ts, i),
            TokenModel::Return => ret_end(ts, i),
            TokenModel::Ident(_) => if i + 1 < ts.len() && (ts[i + 1] is LParen) {
                call_end(ts, i)
            } else if i + 1 < ts.len() && (ts[i + 1] is Assignment) {
                assign_end(ts, i)
            } else {
                fold_end(ts, i)
            },
            TokenModel::Print => print_end(ts, i),
            _ => fold_end(ts, i),
        }
    };
    match base {
        Some(j) => if j < ts.len() && (ts[j] is Semicolon) {
            Some(j + 1)
        } else {
            Some(j)
        },
        None => None,
    }
}

/// Where the whole program ends: statements up to the `EOF` sentinel or
/// the end of the stream.  The parser succeeds exactly when this is
/// `Some`.
pub open spec fn prog_end(ts: Seq<TokenModel>, i: int) -> Option<int>
    decreases ts.len() - i, 8int,
    when 0 <= i <= ts.len()
{
    if i >= ts.len() || (ts[i] is EOF) {
        Some(i)
    } else {
        match stmt_end(ts, i) {
            Some(j) => if i < j <= ts.len() {
                prog_end(ts, j)
            } else {
                None
            },
            None => None,
        }
    }
}

/// The grammar relation for a primary: `e` is the expression the tokens
/// `[i, j)` denote in primary position.
pub open spec fn prim_rel(ts: Seq<TokenModel>, i: int, e: Expr, j: int) -> bool
    decreases e, j - i, 1int,
    when 0 <= i <= j <= ts.len()
{
    if i >= ts.len() {
        false
    } else {
        match ts[i] {
            TokenModel::I32(v) => e == Expr::Literal(Literal::I32(v)) && j == i + 1,
            TokenModel::I64(v) => e == Expr::Literal(Literal::I64(v)) && j == i + 1,
            TokenModel::String(sv) => (e matches Expr::Literal(Literal::String(x)) && x@ == sv)
                && j == i + 1,
            TokenModel::Ident(nm) => if i + 1 < ts.len() && (ts[i + 1] is LParen) {
                call_rel(ts, i, e, j)
            } else {
                (e matches Expr::Variable(x) && x@ == nm) && j == i + 1
            },
            TokenModel::LParen => j >= i + 2 && (ts[j - 1] is RParen) && fold_rel(
                ts,
                i + 1,
                e,
                j - 1,
            ),
            _ => false,
        }
    }
}

/// The grammar relation for the operator fold: either a lone primary, or
/// a left-nested operation whose right operand is the last primary.
pub open spec fn fold_rel(ts: Seq<TokenModel>, i: int, e: Expr, j: int) -> bool
    decreases e, j - i, 2int,
    when 0 <= i <= j <= ts.len()
{
    ||| prim_rel(ts, i, e, j)
    ||| (match e {
        Expr::BinaryOp { left, op, right } => exists|m: int|
            #![trigger trigger(m)]
            trigger(m) && i <= m && m < j && fold_rel(ts, i, *left, m) && op_of(ts[m]) == Some(op) && prim_rel(
                ts,
                m + 1,
                *right,
                j,
            ),
        _ => false,
    })
}

/// The grammar relation for a function call.
pub open spec fn call_rel(ts: Seq<TokenModel>, i: int, e: Expr, j: int) -> bool
    decreases e, j - i, 0int,
    when 0 <= i <= j <= ts.len()
{
    match e {
        Expr::FunctionCall { name, args } => {
            &&& i + 1 < ts.len()
            &&& ts[i] == TokenModel::Ident(name@)
            &&& ts[i + 1] is LParen
            &&& if i + 2 < ts.len() && (ts[i + 2] is RParen) {
                args@.len() == 0 && j == i + 3
            } else {
                j >= i + 4 && (ts[j - 1] is RParen) && args@.len() >= 1 && args_chain(
                    ts,
                    i + 2,
                    args@,
                    j - 1,
                )
            }
        },
        _ => false,
    }
}

/// The grammar relation for a comma-separated expression list: each
/// element is one operator fold, with a comma between elements.
pub open spec fn args_chain(ts: Seq<TokenModel>, i: int, es: Seq<Expr>, j: int) -> bool
    decreases es, j - i, 3int,
    when 0 <= i <= j <= ts.len()
{
    if es.len() == 0 {
        j == i
    } else {
        exists|m: int|
            #![trigger trigger(m)]
            trigger(m) && i <= m <= j && fold_rel(ts, i, es[0], m) && if es.len() >= 2 {
                m + 1 <= j && m < ts.len() && (ts[m] is Comma) && args_chain(
                    ts,
                    m + 1,
                    es.drop_first(),
                    j,
                )
            } else {
                j == m
            }
    }
}

/// The grammar relation for a typed assignment: the produced node names
/// the declared variable and type, and its value is the literal the
/// initializer denotes, widened to 64 bits under an `i64` declaration.
pub open spec fn tydecl_rel(ts: Seq<TokenModel>, i: int, e: Expr, j: int) -> bool
    decreases e, j - i, 4int,
    when 0 <= i <= j <= ts.len()
{
    match e {
        Expr::Assignment { name, type_decl: Some(t2), value } => {
            &&& i + 1 < ts.len()
            &&& ts[i] == TokenModel::TypeDeclaration(name@, t2@)
            &&& ts[i + 1] is Assignment
            &&& fold_end(ts, i + 2) == Some(j)
            &&& match fold_shape(ts, i + 2) {
                LitShape::I32V(k) => if t2@ == "i64"@ {
                    *value == Expr::Literal(Literal::I64(k as i64))
                } else {
                    t2@ == "i32"@ && *value == Expr::Literal(Literal::I32(k))
                },
                LitShape::I64V(k) => t2@ == "i64"@ && *value == Expr::Literal(Literal::I64(k)),
                LitShape::Other => false,
            }
        },
        _ => false,
    }
}

/// The grammar relation for an untyped assignment.
pub open spec fn assign_rel(ts: Seq<TokenModel>, i: int, e: Expr, j: int) -> bool
    decreases e, j - i, 4int,
    when 0 <= i <= j <= ts.len()
{
    match e {
        Expr::Assignment { name, type_decl: None, value } => {
            &&& i + 1 < ts.len()
            &&& ts[i] == TokenModel::Ident(name@)
            &&& ts[i + 1] is Assignment
            &&& i + 2 <= j
            &&& fold_rel(ts, i + 2, *value, j)
        },
        _ => false,
    }
}

/// The grammar relation for a print statement.
pub open spec fn print_rel(ts: Seq<TokenModel>, i: int, e: Expr, j: int) -> bool
    decreases e, j - i, 4int,
    when 0 <= i <= j <= ts.len()
{
    match e {
        Expr::Print(inner) => {
            &&& i + 1 < ts.len()
            &&& ts[i] is Print
            &&& ts[i + 1] is LParen
            &&& j >= i + 3
            &&& ts[j - 1] is RParen
            &&& fold_rel(ts, i + 2, *inner, j - 1)
        },
        _ => false,
    }
}

/// The grammar relation for a return statement (its own semicolon
/// consumed).
pub open spec fn ret_rel(ts: Seq<TokenModel>, i: int, e: Expr, j: int) -> bool
    decreases e, j - i, 4int,
    when 0 <= i <= j <= ts.len()
{
    match e {
        Expr::Return(inner) => {
            &&& i < ts.len()
            &&& ts[i] is Return
            &&& j >= i + 2
            &&& ts[j - 1] is Semicolon
            &&& fold_rel(ts, i + 1, *inner, j - 1)
        },
        _ => false,
    }
}

/// The grammar relation for a conditional.
pub open spec fn if_rel(ts: Seq<TokenModel>, i: int, e: Expr, j: int) -> bool
    decreases e, j - i, 4int,
    when 0 <= i <= j <= ts.len()
{
    match e {
        Expr::IfExpr { condition, consequence, alternative } => {
            &&& i + 1 < ts.len()
            &&& ts[i] is If
            &&& ts[i + 1] is LParen
            &&& exists|m: int, b: int|
                #![trigger trigger(m), trigger(b)]
                {
                    &&& trigger(m) && trigger(b)
                    &&& i + 2 <= m
                    &&& m < ts.len()
                    &&& m + 1 <= b <= j
                    &&& fold_rel(ts, i + 2, *condition, m)
                    &&& ts[m] is RParen
                    &&& block_rel(ts, m + 1, *consequence, b)
                    &&& match alternative {
                        Some(a) => b < ts.len() && (ts[b] is Else) && b + 1 <= j && block_rel(
                            ts,
                            b + 1,
                            *a,
                            j,
                        ),
                        None => !(b < ts.len() && (ts[b] is Else)) && j == b,
                    }
                }
        },
        _ => false,
    }
}

/// The grammar relation for a while loop.
pub open spec fn while_rel(ts: Seq<TokenModel>, i: int, e: Expr, j: int) -> bool
    decreases e, j - i, 4int,
    when 0 <= i <= j <= ts.len()
{
    match e {
        Expr::WhileLoop { condition, body } => {
            &&& i + 1 < ts.len()
            &&& ts[i] is While
            &&& ts[i + 1] is LParen
            &&& exists|m: int|
                #![trigger trigger(m)]
                {
                    &&& trigger(m)
                    &&& i + 2 <= m
                    &&& m < ts.len()
                    &&& m + 1 <= j
                    &&& fold_rel(ts, i + 2, *condition, m)
                    &&& ts[m] is RParen
                    &&& block_rel(ts, m + 1, *body, j)
                }
        },
        _ => false,
    }
}

/// The grammar relation for a function definition.
pub open spec fn fndef_rel(ts: Seq<TokenModel>, i: int, e: Expr, j: int) -> bool
    decreases e, j - i, 4int,
    when 0 <= i <= j <= ts.len()
{
    match e {
        Expr::FunctionDef { name, params, body } => {
            &&& i + 1 < ts.len()
            &&& ts[i] is Function
            &&& ts[i + 1] == TokenModel::Ident(name@)
            &&& exists|p: int|
                #![trigger trigger(p)]
                trigger(p) && i + 2 <= p <= j && params_rel(ts, i + 2, params@, p) && block_rel(
                    ts,
                    p,
                    *body,
                    j,
                )
        },
        _ => false,
    }
}

/// The grammar relation for a parenthesised parameter list.
pub open spec fn params_rel(ts: Seq<TokenModel>, i: int, ps: Seq<(String, String)>, j: int) -> bool {
    i < ts.len() && (ts[i] is LParen) && exists|k1: int|
        #![trigger trigger(k1)]
        trigger(k1) && i + 1 <= k1 && k1 < ts.len() && ptail_chain(ts, i + 1, ps, k1) && (ts[k1] is RParen) && j
            == k1 + 1
}

/// The chain of type-declaration tokens a parameter list consumes, each
/// with an optional trailing comma, ending before the closing
/// parenthesis.
pub open spec fn ptail_chain(ts: Seq<TokenModel>, k: int, ps: Seq<(String, String)>, j: int) -> bool
    decreases ps.len(),
{
    if ps.len() == 0 {
        j == k
    } else {
        &&& 0 <= k < ts.len()
        &&& match ts[k] {
            TokenModel::TypeDeclaration(n, t) => ps[0].0@ == n && ps[0].1@ == t && ptail_chain(
                ts,
                if k + 1 < ts.len() && (ts[k + 1] is Comma) {
                    k + 2
                } else {
                    k + 1
                },
                ps.drop_first(),
                j,
            ),
            _ => false,
        }
    }
}

/// The grammar relation for a braced block.
pub open spec fn block_rel(ts: Seq<TokenModel>, i: int, e: Expr, j: int) -> bool
    decreases e, j - i, 5int,
    when 0 <= i <= j <= ts.len()
{
    match e {
        Expr::Block(stmts) => {
            &&& i < ts.len()
            &&& ts[i] is LBrace
            &&& j >= i + 2
            &&& ts[j - 1] is RBrace
            &&& stmts_rel(ts, i + 1, stmts@, j - 1)
        },
        _ => false,
    }
}

/// The grammar relation for a statement sequence: each element is one
/// statement, parsed back to back.
pub open spec fn stmts_rel(ts: Seq<TokenModel>, k: int, ss: Seq<Expr>, j: int) -> bool
    decreases ss, j - k, 6int,
    when 0 <= k <= j <= ts.len()
{
    if ss.len() == 0 {
        j == k
    } else {
        exists|m: int|
            #![trigger trigger(m)]
            trigger(m) && k <= m <= j && stmt_rel(ts, k, ss[0], m) && stmts_rel(ts, m, ss.drop_first(), j)
    }
}

/// The statement-level grammar relation before the optional trailing
/// semicolon, dispatching on the token under the cursor exactly as the
/// parser does.
pub open spec fn stmt_core_rel(ts: Seq<TokenModel>, i: int, e: Expr, m: int) -> bool
    decreases e, m - i, 5int,
    when 0 <= i <= m <= ts.len()
{
    if i >= ts.len() {
        false
    } else {
        match ts[i] {
            TokenModel::TypeDeclaration(_, _) => tydecl_rel(ts, i, e, m),
            TokenModel::While => while_rel(ts, i, e, m),
            TokenModel::Function => fndef_rel(ts, i, e, m),
            TokenModel::If => if_rel(ts, i, e, m),
            TokenModel::Return => ret_rel(ts, i, e, m),
            TokenModel::Ident(_) => if i + 1 < ts.len() && (ts[i + 1] is LParen) {
                call_rel(ts, i, e, m)
            } else if i + 1 < ts.len() && (ts[i + 1] is Assignment) {
                assign_rel(ts, i, e, m)
            } else {
                fold_rel(ts, i, e, m)
            },
            TokenModel::Print => print_rel(ts, i, e, m),
            _ => fold_rel(ts, i, e, m),
        }
    }
}

/// The grammar relation for one whole statement, one trailing semicolon
/// included when present.
pub open spec fn stmt_rel(ts: Seq<TokenModel>, i: int, e: Expr, j: int) -> bool
    decreases e, j - i, 6int,
    when 0 <= i <= j <= ts.len()
{
    exists|m: int|
        #![trigger trigger(m)]
        trigger(m) && i <= m <= j && stmt_core_rel(ts, i, e, m) && j == (if m < ts.len() && (ts[m] is Semicolon) {
            m + 1
        } else {
            m as int
        })
}


/// The deep view of a token vector indexes to each token's model.
pub proof fn lemma_toks_index(v: Vec<Token>)
    ensures
        v.deep_view().len() == v@.len(),
        forall|k: int| 0 <= k < v@.len() ==> v.deep_view()[k] == #[trigger] v@[k]@,
{
}

/// The parser's type-mismatch diagnostic text for a declared name and
/// type.
pub open spec fn type_mismatch_text(nm: Seq<char>, ty: Seq<char>) -> Seq<char> {
    "Type mismatch: variable '"@ + nm + "' declared as '"@ + ty
        + "' cannot be initialized with this value"@
}

/// Prepending one expression onto an argument chain.
pub proof fn lemma_args_chain_cons(
    ts: Seq<TokenModel>,
    i: int,
    x: Expr,
    m: int,
    rest: Seq<Expr>,
    j: int,
)
    requires
        0 <= i <= m <= j <= ts.len(),
        fold_rel(ts, i, x, m),
        rest.len() >= 1 ==> m < ts.len() && (ts[m] is Comma) && m + 1 <= j && args_chain(
            ts,
            m + 1,
            rest,
            j,
        ),
        rest.len() == 0 ==> j == m,
    ensures
        args_chain(ts, i, seq![x] + rest, j),
{
    let es = seq![x] + rest;
    assert(es[0] == x);
    assert(es.drop_first() =~= rest);
    assert(trigger(m));
    assert(fold_rel(ts, i, es[0], m));
    if rest.len() >= 1 {
        assert(args_chain(ts, m + 1, es.drop_first(), j));
    }
}

/// Prepending one parameter onto a parameter chain.
pub proof fn lemma_ptail_chain_cons(
    ts: Seq<TokenModel>,
    k: int,
    p: (String, String),
    k2: int,
    rest: Seq<(String, String)>,
    j: int,
)
    requires
        0 <= k < ts.len(),
        ts[k] == TokenModel::TypeDeclaration(p.0@, p.1@),
        k2 == if k + 1 < ts.len() && (ts[k + 1] is Comma) {
            k + 2
        } else {
            k + 1
        },
        ptail_chain(ts, k2, rest, j),
    ensures
        ptail_chain(ts, k, seq![p] + rest, j),
{
    let ps = seq![p] + rest;
    assert(ps[0] == p);
    assert(ps.drop_first() =~= rest);
}

/// Prepending one statement onto a statement sequence.
pub proof fn lemma_stmts_rel_cons(
    ts: Seq<TokenModel>,
    k: int,
    x: Expr,
    m: int,
    rest: Seq<Expr>,
    j: int,
)
    requires
        0 <= k <= m <= j <= ts.len(),
        stmt_rel(ts, k, x, m),
        stmts_rel(ts, m, rest, j),
    ensures
        stmts_rel(ts, k, seq![x] + rest, j),
{
    let ss = seq![x] + rest;
    assert(ss[0] == x);
    assert(ss.drop_first() =~= rest);
    assert(trigger(m));
    assert(stmt_rel(ts, k, ss[0], m));
}

/// A recursive-descent parser over a lexed token stream.  `current` is a
/// monotonically advancing cursor into `tokens`; parsing fails with a
/// message naming the expected and observed tokens and never recovers.
pub struct Parser {
    pub tokens: Vec<Token>,
    pub current: usize,
}

impl Parser {
    /// The cursor never runs past the end of the token stream.
    pub open spec fn wf(&self) -> bool {
        self.current <= self.tokens@.len()
    }

    /// The model of the token under the cursor.
    pub open spec fn cur(&self) -> TokenModel
        recommends
            self.current < self.tokens@.len(),
    {
        self.tokens@[self.current as int]@
    }

    fn current_token(&self) -> (r: Option<&Token>)
        ensures
            match r {
                Some(t) => self.current < self.tokens@.len() && t@ == self.cur(),
                None => self.current >= self.tokens@.len(),
            },
    {
        if self.current < self.tokens.len() {
            Some(&self.tokens[self.current])
        } else {
            None
        }
    }

    fn next_token(&mut self) -> (r: Option<&Token>)
        requires
            old(self).current < old(self).tokens@.len(),
        ensures
            final(self).tokens@ == old(self).tokens@,
            final(self).current == old(self).current + 1,
            final(self).wf(),
    {
        // binds the stream length to a machine word, so the cursor bump below cannot overflow
        let _n = self.tokens.len();
        self.current = self.current + 1;
        self.current_token()
    }

    fn peek_token(&self) -> (r: Option<&Token>)
        requires
            self.wf(),
        ensures
            match r {
                Some(t) => self.current + 1 < self.tokens@.len() && t@ == self.tokens@[self.current
                    + 1]@,
                None => self.current + 1 >= self.tokens@.len(),
            },
    {
        if self.current >= self.tokens.len() {
            None
        } else if self.tokens.len() - self.current > 1 {
            Some(&self.tokens[self.current + 1])
        } else {
            None
        }
    }

    fn consume_token(&mut self, expected: Token) -> (r: Result<Token, String>)
        requires
            old(self).wf(),
        ensures
            final(self).tokens@ == old(self).tokens@,
            final(self).wf(),
            match r {
                Ok(t) => {
                    &&& old(self).current < old(self).tokens@.len()
                    &&& same_kind(old(self).cur(), expected@)
                    &&& t@ == old(self).cur()
                    &&& final(self).current == old(self).current + 1
                },
                Err(_) => {
                    &&& final(self).current == old(self).current
                    &&& (old(self).current < old(self).tokens@.len() ==> !same_kind(
                        old(self).cur(),
                        expected@,
                    ))
                },
            },
    {
        if self.current < self.tokens.len() {
            let is_expected = token_kind_eq(&self.tokens[self.current], &expected);
            if is_expected {
                let token_to_return = clone_token(&self.tokens[self.current]);
                self.next_token();
                return Ok(token_to_return);
            }
        }
        let mut msg = "Expected ".to_owned();
        msg.append(token_name(&expected));
        msg.append(", found ");
        match self.current_token() {
            Some(t) => {
                let name = token_name(t);
                msg.append(name);
            },
            None => {
                msg.append("end of input");
            },
        }
        Err(msg)
    }

    /// Whether the token under the cursor exists and has the variant of
    /// `proto`.
    fn at_kind(&self, proto: &Token) -> (b: bool)
        requires
            self.wf(),
        ensures
            b == (self.current < self.tokens@.len() && same_kind(self.cur(), proto@)),
    {
        if self.current < self.tokens.len() {
            token_kind_eq(&self.tokens[self.current], proto)
        } else {
            false
        }
    }

    /// The binary operator under the cursor, if any.
    fn peek_op(&self) -> (r: Option<Op>)
        requires
            self.wf(),
        ensures
            r is Some ==> self.current < self.tokens@.len(),
            self.current < self.tokens@.len() ==> r == op_of(self.cur()),
            self.current >= self.tokens@.len() ==> r is None,
    {
        if self.current >= self.tokens.len() {
            return None;
        }
        match &self.tokens[self.current] {
            Token::Plus => Some(Op::Add),
            Token::Minus => Some(Op::Subtract),
            Token::Star => Some(Op::Multiply),
            Token::Slash => Some(Op::Divide),
            Token::LessThan => Some(Op::LessThan),
            Token::GreaterThan => Some(Op::GreaterThan),
            _ => None,
        }
    }

    /// Parses one statement, dispatching on the token under the cursor,
    /// and consumes one trailing semicolon when present.
    pub fn parse_statement(&mut self) -> (r: Result<Expr, String>)
        requires
            old(self).wf(),
        ensures
            final(self).tokens@ == old(self).tokens@,
            final(self).wf(),
            final(self).current >= old(self).current,
            r matches Ok(e) ==> final(self).current > old(self).current && expr_wf(e),
            (r is Ok) == (stmt_end(old(self).tokens.deep_view(), old(self).current as int) is Some),
            r is Ok ==> Some(final(self).current as int) == stmt_end(old(self).tokens.deep_view(), old(self).current as int),
            r matches Ok(e) ==> stmt_rel(old(self).tokens.deep_view(), old(self).current as int, e, final(self).current as int),
            r matches Err(m) ==> (old(self).current < old(self).tokens@.len() ==> (old(
                self,
            ).cur() matches TokenModel::TypeDeclaration(nm, ty) ==> ((old(self).current + 1
                < old(self).tokens@.len() && old(self).tokens.deep_view()[old(self).current + 1]
                is Assignment && fold_end(
                old(self).tokens.deep_view(),
                old(self).current as int + 2,
            ) is Some) ==> m@ == type_mismatch_text(nm, ty)))),
        decreases self.tokens@.len() - self.current, 6int,
    {
        proof {
            lemma_toks_index(old(self).tokens);
        }
        let dispatch: u8 = if self.current >= self.tokens.len() {
            8
        } else {
            match &self.tokens[self.current] {
                Token::TypeDeclaration(_, _) => 0,
                Token::While => 1,
                Token::Function => 2,
                Token::If => 3,
                Token::Return => 4,
                Token::Ident(_) => {
                    match self.peek_token() {
                        Some(Token::LParen) => 5,
                        Some(Token::Assignment) => 6,
                        _ => 8,
                    }
                },
                Token::Print => 7,
                _ => 8,
            }
        };
        let stmt = if dispatch == 0 {
            self.parse_type_declaration()
        } else if dispatch == 1 {
            self.parse_while_loop()
        } else if dispatch == 2 {
            self.parse_function_def()
        } else if dispatch == 3 {
            self.parse_if_expr()
        } else if dispatch == 4 {
            self.parse_return_statement()
        } else if dispatch == 5 {
            self.parse_function_call()
        } else if dispatch == 6 {
            self.parse_assignment()
        } else if dispatch == 7 {
            self.parse_print_statement()
        } else {
            self.parse_expression()
        };
        let ghost base_end = self.current as int;
        if stmt.is_ok() {
            if self.at_kind(&Token::Semicolon) {
                self.next_token();
            }
        }
        proof {
            assert(trigger(base_end));
        }
        stmt
    }

    /// Parses `{ statement* }` into a `Block`.
    #[verifier::loop_isolation(false)]
    fn parse_block(&mut self) -> (r: Result<Expr, String>)
        requires
            old(self).wf(),
        ensures
            final(self).tokens@ == old(self).tokens@,
            final(self).wf(),
            final(self).current >= old(self).current,
            r matches Ok(e) ==> final(self).current > old(self).current && (e matches Expr::Block(_)) && expr_wf(e),
            (r is Ok) == (block_end(old(self).tokens.deep_view(), old(self).current as int) is Some),
            r is Ok ==> Some(final(self).current as int) == block_end(old(self).tokens.deep_view(), old(self).current as int),
            r matches Ok(e) ==> block_rel(old(self).tokens.deep_view(), old(self).current as int, e, final(self).current as int),
        decreases self.tokens@.len() - self.current, 4int,
    {
        proof {
            lemma_toks_index(old(self).tokens);
        }
        let ghost t = old(self).tokens.deep_view();
        let ghost oc = old(self).current as int;
        let mut statements: Vec<Expr> = Vec::new();

        self.consume_token(Token::LBrace)?;

        while !(self.current >= self.tokens.len() || self.at_kind(&Token::RBrace))
            invariant
                self.wf(),
                self.tokens@ == old(self).tokens@,
                self.tokens.deep_view() == t,
                t.len() == self.tokens@.len(),
                oc + 1 <= self.current <= self.tokens@.len(),
                forall|i: int| 0 <= i < statements@.len() ==> expr_wf(#[trigger] statements@[i]),
                block_end(t, oc) == block_tail(t, self.current as int),
                forall|rest: Seq<Expr>, jj: int|
                    #![trigger trigger(rest), trigger(jj)]
                    ({
                        &&& trigger(rest) && trigger(jj)
                        &&& self.current as int <= jj <= t.len()
                        &&& stmts_rel(t, self.current as int, rest, jj)
                    }) ==> stmts_rel(t, oc + 1, statements@ + rest, jj),
            decreases self.tokens@.len() - self.current,
        {
            let ghost ch = self.current as int;
            let stmt = match self.parse_statement() {
                Ok(v) => v,
                Err(e) => {
                    return Err(e);
                },
            };
            let ghost x = stmt;
            let ghost j2 = self.current as int;
            let ghost pre_stmts = statements@;
            statements.push(stmt);
            proof {
                lemma_toks_index(self.tokens);
                assert(self.tokens.deep_view() =~= t);
                assert forall|rest: Seq<Expr>, jj: int|
                    #![trigger trigger(rest), trigger(jj)]
                    ({
                        &&& trigger(rest) && trigger(jj)
                        &&& j2 <= jj <= t.len()
                        &&& stmts_rel(t, j2, rest, jj)
                    }) implies stmts_rel(t, oc + 1, statements@ + rest, jj) by {
                    lemma_stmts_rel_cons(t, ch, x, j2, rest, jj);
                    assert(trigger(seq![x] + rest) && trigger(jj));
                    assert(stmts_rel(t, oc + 1, pre_stmts + (seq![x] + rest), jj));
                    assert(pre_stmts + (seq![x] + rest) =~= statements@ + rest);
                }
            }
        }

        self.consume_token(Token::RBrace)?;
        proof {
            lemma_toks_index(self.tokens);
            assert(trigger(Seq::<Expr>::empty()) && trigger(final(self).current as int - 1));
            assert(stmts_rel(t, final(self).current as int - 1, Seq::<Expr>::empty(), final(self).current as int - 1));
            assert(statements@ + Seq::<Expr>::empty() =~= statements@);
        }
        Ok(Expr::Block(statements))
    }

    /// Parses the identifier under the cursor and hands back its name.
    fn parse_identifier(&mut self) -> (r: Result<String, String>)
        requires
            old(self).wf(),
        ensures
            final(self).tokens@ == old(self).tokens@,
            final(self).wf(),
            final(self).current >= old(self).current,
            r matches Ok(name) ==> {
                &&& old(self).current < old(self).tokens@.len()
                &&& old(self).cur() == TokenModel::Ident(name@)
                &&& final(self).current == old(self).current + 1
            },
            (r is Ok) == (old(self).current < old(self).tokens@.len() && old(self).cur()
                is Ident),
            r is Err ==> final(self).current == old(self).current,
    {
        if self.current >= self.tokens.len() {
            return Err("Expected identifier".to_owned());
        }
        let name_opt: Option<String> = match &self.tokens[self.current] {
            Token::Ident(name) => Some(name.clone()),
            _ => None,
        };
        match name_opt {
            Some(name) => {
                self.next_token();
                Ok(name)
            },
            None => Err("Expected identifier".to_owned()),
        }
    }

    /// Parses a comma-separated list of type-declaration tokens between
    /// parentheses, as the parameter list of a function definition.
    #[verifier::loop_isolation(false)]
    fn parse_parameters(&mut self) -> (r: Result<Vec<(String, String)>, String>)
        requires
            old(self).wf(),
        ensures
            final(self).tokens@ == old(self).tokens@,
            final(self).wf(),
            final(self).current >= old(self).current,
            r is Ok ==> final(self).current > old(self).current,
            (r is Ok) == (params_end(old(self).tokens.deep_view(), old(self).current as int) is Some),
            r is Ok ==> Some(final(self).current as int) == params_end(old(self).tokens.deep_view(), old(self).current as int),
            r matches Ok(ps) ==> params_rel(old(self).tokens.deep_view(), old(self).current as int, ps@, final(self).current as int),
        decreases self.tokens@.len() - self.current, 0int,
    {
        proof {
            lemma_toks_index(old(self).tokens);
        }
        let ghost t = old(self).tokens.deep_view();
        let ghost oc = old(self).current as int;
        let mut parameters: Vec<(String, String)> = Vec::new();
        self.consume_token(Token::LParen)?;

        while !self.at_kind(&Token::RParen)
            invariant
                self.wf(),
                self.tokens@ == old(self).tokens@,
                self.tokens.deep_view() == t,
                t.len() == self.tokens@.len(),
                oc + 1 <= self.current <= self.tokens@.len(),
                params_end(t, oc) == params_tail(t, self.current as int),
                forall|rest: Seq<(String, String)>, jj: int|
                    #![trigger trigger(rest), trigger(jj)]
                    ({
                        &&& trigger(rest) && trigger(jj)
                        &&& ptail_chain(t, self.current as int, rest, jj)
                    }) ==> ptail_chain(t, oc + 1, parameters@ + rest, jj),
            decreases self.tokens@.len() - self.current,
        {
            if self.current >= self.tokens.len() {
                return Err("Expected type declaration in function parameters".to_owned());
            }
            let param_opt: Option<(String, String)> = match &self.tokens[self.current] {
                Token::TypeDeclaration(ident, var_type) => Some(
                    (ident.clone(), var_type.clone()),
                ),
                _ => None,
            };
            match param_opt {
                Some(param) => {
                    let ghost ch = self.current as int;
                    let ghost p = param;
                    let ghost pre_ps = parameters@;
                    self.next_token();
                    parameters.push(param);
                    if self.at_kind(&Token::Comma) {
                        self.consume_token(Token::Comma)?;
                    }
                    proof {
                        lemma_toks_index(self.tokens);
                        assert(self.tokens.deep_view() =~= t);
                        let k2 = self.current as int;
                        assert forall|rest: Seq<(String, String)>, jj: int|
                            #![trigger trigger(rest), trigger(jj)]
                            ({
                                &&& trigger(rest) && trigger(jj)
                                &&& ptail_chain(t, k2, rest, jj)
                            }) implies ptail_chain(t, oc + 1, parameters@ + rest, jj) by {
                            assert(t[ch] == TokenModel::TypeDeclaration(p.0@, p.1@));
                            lemma_ptail_chain_cons(t, ch, p, k2, rest, jj);
                            assert(trigger(seq![p] + rest) && trigger(jj));
                            assert(ptail_chain(t, oc + 1, pre_ps + (seq![p] + rest), jj));
                            assert(pre_ps + (seq![p] + rest) =~= parameters@ + rest);
                        }
                    }
                },
                None => {
                    return Err("Expected type declaration in function parameters".to_owned());
                },
            }
        }

        self.consume_token(Token::RParen)?;
        proof {
            lemma_toks_index(self.tokens);
            assert(trigger(Seq::<(String, String)>::empty()) && trigger(
                final(self).current as int - 1,
            ));
            assert(ptail_chain(
                t,
                final(self).current as int - 1,
                Seq::<(String, String)>::empty(),
                final(self).current as int - 1,
            ));
            assert(parameters@ + Seq::<(String, String)>::empty() =~= parameters@);
            assert(trigger(final(self).current as int - 1));
        }
        Ok(parameters)
    }

    /// Parses one expression: a left-associative fold of primaries over a
    /// single precedence level.
    fn parse_expression(&mut self) -> (r: Result<Expr, String>)
        requires
            old(self).wf(),
        ensures
            final(self).tokens@ == old(self).tokens@,
            final(self).wf(),
            final(self).current >= old(self).current,
            r matches Ok(e) ==> final(self).current > old(self).current && expr_wf(e),
            (r is Ok) == (fold_end(old(self).tokens.deep_view(), old(self).current as int) is Some),
            r is Ok ==> Some(final(self).current as int) == fold_end(old(self).tokens.deep_view(), old(self).current as int),
            r matches Ok(e) ==> fold_rel(old(self).tokens.deep_view(), old(self).current as int, e, final(self).current as int),
            r matches Ok(e) ==> lit_shape_of(e) == fold_shape(old(self).tokens.deep_view(), old(self).current as int),
        decreases self.tokens@.len() - self.current, 3int,
    {
        self.parse_binary_operator()
    }

    /// Parses `print ( expression )`.
    fn parse_print_statement(&mut self) -> (r: Result<Expr, String>)
        requires
            old(self).wf(),
        ensures
            final(self).tokens@ == old(self).tokens@,
            final(self).wf(),
            final(self).current >= old(self).current,
            r matches Ok(e) ==> final(self).current > old(self).current && (e matches Expr::Print(_)) && expr_wf(e),
            (r is Ok) == (print_end(old(self).tokens.deep_view(), old(self).current as int) is Some),
            r is Ok ==> Some(final(self).current as int) == print_end(old(self).tokens.deep_view(), old(self).current as int),
            r matches Ok(e) ==> print_rel(old(self).tokens.deep_view(), old(self).current as int, e, final(self).current as int),
        decreases self.tokens@.len() - self.current, 4int,
    {
        self.consume_token(Token::Print)?;
        self.consume_token(Token::LParen)?;
        let expr = self.parse_expression()?;
        self.consume_token(Token::RParen)?;
        Ok(Expr::Print(Box::new(expr)))
    }

    /// Folds primaries into left-nested `BinaryOp` nodes while an operator
    /// token is under the cursor.
    #[verifier::loop_isolation(false)]
    fn parse_binary_operator(&mut self) -> (r: Result<Expr, String>)
        requires
            old(self).wf(),
        ensures
            final(self).tokens@ == old(self).tokens@,
            final(self).wf(),
            final(self).current >= old(self).current,
            r matches Ok(e) ==> final(self).current > old(self).current && expr_wf(e),
            (r is Ok) == (fold_end(old(self).tokens.deep_view(), old(self).current as int) is Some),
            r is Ok ==> Some(final(self).current as int) == fold_end(old(self).tokens.deep_view(), old(self).current as int),
            r matches Ok(e) ==> fold_rel(old(self).tokens.deep_view(), old(self).current as int, e, final(self).current as int),
            r matches Ok(e) ==> lit_shape_of(e) == fold_shape(old(self).tokens.deep_view(), old(self).current as int),
        decreases self.tokens@.len() - self.current, 2int,
    {
        proof {
            lemma_toks_index(old(self).tokens);
        }
        let ghost t = old(self).tokens.deep_view();
        let ghost oc = old(self).current as int;
        let mut expr = self.parse_primary()?;
        let ghost j0 = self.current as int;

        loop
            invariant
                self.wf(),
                self.tokens@ == old(self).tokens@,
                self.tokens.deep_view() == t,
                t == old(self).tokens.deep_view(),
                t.len() == self.tokens@.len(),
                oc == old(self).current as int,
                oc < j0 <= self.current <= self.tokens@.len(),
                expr_wf(expr),
                prim_end(t, oc) == Some(j0),
                fold_end(t, oc) == fold_tail(t, self.current as int),
                fold_rel(t, oc, expr, self.current as int),
                self.current > j0 ==> lit_shape_of(expr) == LitShape::Other,
                self.current == j0 ==> lit_shape_of(expr) == prim_shape(t, oc),
                self.current > j0 ==> op_of(t[j0]) is Some,
            decreases self.tokens@.len() - self.current,
        {
            proof {
                lemma_toks_index(self.tokens);
            }
            if let Some(op) = self.peek_op() {
                let ghost cpre = self.current as int;
                self.next_token();
                let right = match self.parse_primary() {
                    Ok(v) => v,
                    Err(e) => {
                        proof {
                            assert(self.tokens.deep_view() =~= t);
                            assert(fold_tail(t, cpre) is None);
                        }
                        return Err(e);
                    },
                };
                proof {
                    assert(self.tokens.deep_view() =~= t);
                    assert(trigger(cpre));
                    assert(prim_end(t, cpre + 1) == Some(self.current as int));
                    assert(fold_tail(t, cpre) == fold_tail(t, self.current as int));
                }
                let ghost prev = expr;
                expr = Expr::BinaryOp { left: Box::new(expr), op, right: Box::new(right) };
                proof {
                    assert(fold_rel(t, oc, prev, cpre));
                    assert(op_of(t[cpre]) == Some(op));
                    assert(fold_rel(t, oc, expr, self.current as int));
                }
            } else {
                break;
            }
        }
        proof {
            lemma_toks_index(old(self).tokens);
        }
        Ok(expr)
    }

    /// Parses `name = expression` into an untyped assignment.
    fn parse_assignment(&mut self) -> (r: Result<Expr, String>)
        requires
            old(self).wf(),
        ensures
            final(self).tokens@ == old(self).tokens@,
            final(self).wf(),
            final(self).current >= old(self).current,
            r matches Ok(e) ==> final(self).current > old(self).current && (e matches Expr::Assignment { type_decl: None, .. }) && expr_wf(e),
            (r is Ok) == (assign_end(old(self).tokens.deep_view(), old(self).current as int) is Some),
            r is Ok ==> Some(final(self).current as int) == assign_end(old(self).tokens.deep_view(), old(self).current as int),
            r matches Ok(e) ==> assign_rel(old(self).tokens.deep_view(), old(self).current as int, e, final(self).current as int),
        decreases self.tokens@.len() - self.current, 4int,
    {
        let ident = self.parse_identifier()?;
        self.consume_token(Token::Assignment)?;
        let value = self.parse_expression()?;
        Ok(Expr::Assignment { name: ident, type_decl: None, value: Box::new(value) })
    }

    /// Parses a comma-separated, non-empty argument list.
    #[verifier::loop_isolation(false)]
    fn parse_arguments(&mut self) -> (r: Result<Vec<Expr>, String>)
        requires
            old(self).wf(),
        ensures
            final(self).tokens@ == old(self).tokens@,
            final(self).wf(),
            final(self).current >= old(self).current,
            r matches Ok(args) ==> final(self).current > old(self).current && forall|i: int|
                0 <= i < args@.len() ==> expr_wf(#[trigger] args@[i]),
            (r is Ok) == (args_end(old(self).tokens.deep_view(), old(self).current as int) is Some),
            r is Ok ==> Some(final(self).current as int) == args_end(old(self).tokens.deep_view(), old(self).current as int),
            r matches Ok(v) ==> v@.len() >= 1 && args_chain(old(self).tokens.deep_view(), old(self).current as int, v@, final(self).current as int),
        decreases self.tokens@.len() - self.current, 4int,
    {
        proof {
            lemma_toks_index(old(self).tokens);
        }
        let ghost t = old(self).tokens.deep_view();
        let ghost oc = old(self).current as int;
        let mut args: Vec<Expr> = Vec::new();

        let expr = self.parse_expression()?;
        let ghost e1 = expr;
        args.push(expr);
        proof {
            lemma_toks_index(self.tokens);
            assert(self.tokens.deep_view() =~= t);
            assert(args@ =~= seq![e1]);
            assert forall|rest: Seq<Expr>, jj: int|
                #![trigger trigger(rest), trigger(jj)]
                ({
                    &&& trigger(rest) && trigger(jj)
                    &&& self.current as int <= jj <= t.len()
                    &&& (rest.len() >= 1 ==> (self.current as int) < t.len() && (t[self.current as int] is Comma) && self.current as int + 1 <= jj && args_chain(t, self.current as int + 1, rest, jj))
                    &&& (rest.len() == 0 ==> jj == self.current as int)
                }) implies args_chain(t, oc, args@ + rest, jj) by {
                lemma_args_chain_cons(t, oc, e1, self.current as int, rest, jj);
                assert(seq![e1] + rest =~= args@ + rest);
            }
        }

        while self.at_kind(&Token::Comma)
            invariant
                self.wf(),
                self.tokens@ == old(self).tokens@,
                self.tokens.deep_view() == t,
                t.len() == self.tokens@.len(),
                oc < self.current <= self.tokens@.len(),
                args@.len() >= 1,
                forall|i: int| 0 <= i < args@.len() ==> expr_wf(#[trigger] args@[i]),
                args_end(t, oc) == (if (self.current as int) < t.len() && (t[self.current as int] is Comma) {
                    args_end(t, self.current as int + 1)
                } else {
                    Some(self.current as int)
                }),
                forall|rest: Seq<Expr>, jj: int|
                    #![trigger trigger(rest), trigger(jj)]
                    ({
                        &&& trigger(rest) && trigger(jj)
                        &&& self.current as int <= jj <= t.len()
                        &&& (rest.len() >= 1 ==> (self.current as int) < t.len() && (t[self.current as int] is Comma) && self.current as int + 1 <= jj && args_chain(t, self.current as int + 1, rest, jj))
                        &&& (rest.len() == 0 ==> jj == self.current as int)
                    }) ==> args_chain(t, oc, args@ + rest, jj),
            decreases self.tokens@.len() - self.current,
        {
            let ghost ch = self.current as int;
            self.consume_token(Token::Comma)?;
            let expr = self.parse_expression()?;
            let ghost x = expr;
            let ghost j2 = self.current as int;
            let ghost pre_args = args@;
            args.push(expr);
            proof {
                lemma_toks_index(self.tokens);
                assert(self.tokens.deep_view() =~= t);
                assert forall|rest: Seq<Expr>, jj: int|
                    #![trigger trigger(rest), trigger(jj)]
                    ({
                        &&& trigger(rest) && trigger(jj)
                        &&& j2 <= jj <= t.len()
                        &&& (rest.len() >= 1 ==> j2 < t.len() && (t[j2] is Comma) && j2 + 1 <= jj && args_chain(t, j2 + 1, rest, jj))
                        &&& (rest.len() == 0 ==> jj == j2)
                    }) implies args_chain(t, oc, args@ + rest, jj) by {
                    assert(ch < t.len() && (t[ch] is Comma));
                    lemma_args_chain_cons(t, ch + 1, x, j2, rest, jj);
                    assert(trigger(seq![x] + rest) && trigger(jj));
                    assert(args_chain(t, oc, pre_args + (seq![x] + rest), jj));
                    assert(pre_args + (seq![x] + rest) =~= args@ + rest);
                }
            }
        }
        proof {
            lemma_toks_index(self.tokens);
            assert(trigger(Seq::<Expr>::empty()) && trigger(self.current as int));
            assert(args@ + Seq::<Expr>::empty() =~= args@);
        }
        Ok(args)
    }

    /// Parses `function name ( parameters ) block`.
    fn parse_function_def(&mut self) -> (r: Result<Expr, String>)
        requires
            old(self).wf(),
        ensures
            final(self).tokens@ == old(self).tokens@,
            final(self).wf(),
            final(self).current >= old(self).current,
            r matches Ok(e) ==> final(self).current > old(self).current && (e matches Expr::FunctionDef { .. }) && expr_wf(e),
            (r is Ok) == (fndef_end(old(self).tokens.deep_view(), old(self).current as int) is Some),
            r is Ok ==> Some(final(self).current as int) == fndef_end(old(self).tokens.deep_view(), old(self).current as int),
            r matches Ok(e) ==> fndef_rel(old(self).tokens.deep_view(), old(self).current as int, e, final(self).current as int),
        decreases self.tokens@.len() - self.current, 4int,
    {
        proof {
            lemma_toks_index(old(self).tokens);
        }
        self.consume_token(Token::Function)?;

        let name = self.parse_identifier()?;

        let parameters = self.parse_parameters()?;
        let ghost p_end = self.current as int;
        let body = self.parse_block()?;

        proof {
            assert(trigger(p_end));
        }
        Ok(Expr::FunctionDef { name, params: parameters, body: Box::new(body) })
    }

    /// Parses `name ( arguments? )` into a function call.
    fn parse_function_call(&mut self) -> (r: Result<Expr, String>)
        requires
            old(self).wf(),
        ensures
            final(self).tokens@ == old(self).tokens@,
            final(self).wf(),
            final(self).current >= old(self).current,
            r matches Ok(e) ==> final(self).current > old(self).current && (e matches Expr::FunctionCall { .. }) && expr_wf(e),
            (r is Ok) == (call_end(old(self).tokens.deep_view(), old(self).current as int) is Some),
            r is Ok ==> Some(final(self).current as int) == call_end(old(self).tokens.deep_view(), old(self).current as int),
            r matches Ok(e) ==> call_rel(old(self).tokens.deep_view(), old(self).current as int, e, final(self).current as int),
        decreases self.tokens@.len() - self.current, 0int,
    {
        let name = self.parse_identifier()?;
        self.consume_token(Token::LParen)?;
        let args = if !self.at_kind(&Token::RParen) {
            self.parse_arguments()?
        } else {
            Vec::new()
        };
        self.consume_token(Token::RParen)?;
        Ok(Expr::FunctionCall { name, args })
    }

    /// Parses `if ( condition ) block ( else block )?`.
    fn parse_if_expr(&mut self) -> (r: Result<Expr, String>)
        requires
            old(self).wf(),
        ensures
            final(self).tokens@ == old(self).tokens@,
            final(self).wf(),
            final(self).current >= old(self).current,
            r matches Ok(e) ==> final(self).current > old(self).current && (e matches Expr::IfExpr { .. }) && expr_wf(e),
            (r is Ok) == (if_end(old(self).tokens.deep_view(), old(self).current as int) is Some),
            r is Ok ==> Some(final(self).current as int) == if_end(old(self).tokens.deep_view(), old(self).current as int),
            r matches Ok(e) ==> if_rel(old(self).tokens.deep_view(), old(self).current as int, e, final(self).current as int),
        decreases self.tokens@.len() - self.current, 4int,
    {
        proof {
            lemma_toks_index(old(self).tokens);
        }
        self.consume_token(Token::If)?;
        self.consume_token(Token::LParen)?;
        let condition = self.parse_expression()?;
        let ghost m_end = self.current as int;
        self.consume_token(Token::RParen)?;
        let consequence = self.parse_block()?;
        let ghost b_end = self.current as int;
        proof {
            assert(trigger(m_end) && trigger(b_end));
        }
        let alternative = if self.at_kind(&Token::Else) {
            self.consume_token(Token::Else)?;
            Some(Box::new(self.parse_block()?))
        } else {
            None
        };
        Ok(Expr::IfExpr {
            condition: Box::new(condition),
            consequence: Box::new(consequence),
            alternative,
        })
    }

    /// Parses `while ( condition ) block`.
    fn parse_while_loop(&mut self) -> (r: Result<Expr, String>)
        requires
            old(self).wf(),
        ensures
            final(self).tokens@ == old(self).tokens@,
            final(self).wf(),
            final(self).current >= old(self).current,
            r matches Ok(e) ==> final(self).current > old(self).current && (e matches Expr::WhileLoop { .. }) && expr_wf(e),
            (r is Ok) == (while_end(old(self).tokens.deep_view(), old(self).current as int) is Some),
            r is Ok ==> Some(final(self).current as int) == while_end(old(self).tokens.deep_view(), old(self).current as int),
            r matches Ok(e) ==> while_rel(old(self).tokens.deep_view(), old(self).current as int, e, final(self).current as int),
        decreases self.tokens@.len() - self.current, 4int,
    {
        proof {
            lemma_toks_index(old(self).tokens);
        }
        self.consume_token(Token::While)?;
        self.consume_token(Token::LParen)?;
        let condition = self.parse_expression()?;
        let ghost m_end = self.current as int;
        self.consume_token(Token::RParen)?;
        let body = self.parse_block()?;
        proof {
            assert(trigger(m_end));
        }
        Ok(Expr::WhileLoop { condition: Box::new(condition), body: Box::new(body) })
    }

    /// Parses `return expression ;`.
    fn parse_return_statement(&mut self) -> (r: Result<Expr, String>)
        requires
            old(self).wf(),
        ensures
            final(self).tokens@ == old(self).tokens@,
            final(self).wf(),
            final(self).current >= old(self).current,
            r matches Ok(e) ==> final(self).current > old(self).current && (e matches Expr::Return(_)) && expr_wf(e),
            (r is Ok) == (ret_end(old(self).tokens.deep_view(), old(self).current as int) is Some),
            r is Ok ==> Some(final(self).current as int) == ret_end(old(self).tokens.deep_view(), old(self).current as int),
            r matches Ok(e) ==> ret_rel(old(self).tokens.deep_view(), old(self).current as int, e, final(self).current as int),
        decreases self.tokens@.len() - self.current, 4int,
    {
        self.consume_token(Token::Return)?;
        let value = self.parse_expression()?;
        self.consume_token(Token::Semicolon)?;
        Ok(Expr::Return(Box::new(value)))
    }

    /// Parses `name : type = expression` into a typed assignment.  The
    /// declared type must match the literal initializer; an `I32` literal
    /// under an `i64` declaration is widened to `I64`; everything else is
    /// a type mismatch.
    fn parse_type_declaration(&mut self) -> (r: Result<Expr, String>)
        requires
            old(self).wf(),
        ensures
            final(self).tokens@ == old(self).tokens@,
            final(self).wf(),
            final(self).current >= old(self).current,
            r matches Ok(e) ==> final(self).current > old(self).current && (e matches Expr::Assignment { type_decl: Some(_), .. }) && expr_wf(e),
            r matches Ok(e) ==> (e matches Expr::Assignment { name, type_decl: Some(t), value }
                ==> old(self).current < old(self).tokens@.len() && old(self).cur()
                == TokenModel::TypeDeclaration(name@, t@)),
            (r is Ok) == (tydecl_end(old(self).tokens.deep_view(), old(self).current as int) is Some),
            r is Ok ==> Some(final(self).current as int) == tydecl_end(old(self).tokens.deep_view(), old(self).current as int),
            r matches Ok(e) ==> tydecl_rel(old(self).tokens.deep_view(), old(self).current as int, e, final(self).current as int),
            r matches Err(m) ==> (old(self).current < old(self).tokens@.len() ==> (old(
                self,
            ).cur() matches TokenModel::TypeDeclaration(nm, ty) ==> ((old(self).current + 1
                < old(self).tokens@.len() && old(self).tokens.deep_view()[old(self).current + 1]
                is Assignment && fold_end(
                old(self).tokens.deep_view(),
                old(self).current as int + 2,
            ) is Some) ==> m@ == type_mismatch_text(nm, ty)))),
        decreases self.tokens@.len() - self.current, 4int,
    {
        proof {
            reveal_with_fuel(expr_wf, 3);
        }
        if self.current >= self.tokens.len() {
            return Err("Expected a type declaration".to_owned());
        }
        let decl_opt: Option<(String, String)> = match &self.tokens[self.current] {
            Token::TypeDeclaration(ident, var_type) => Some((ident.clone(), var_type.clone())),
            _ => None,
        };
        match decl_opt {
            Some((ident, var_type)) => {
                self.next_token();

                if self.at_kind(&Token::Assignment) {
                    self.next_token();
                    let value = self.parse_expression()?;

                    let is_i32 = crate::parser::lexer::str_eq(var_type.as_str(), "i32");
                    let is_i64 = crate::parser::lexer::str_eq(var_type.as_str(), "i64");
                    match value {
                        Expr::Literal(Literal::I32(num)) => {
                            if is_i64 {
                                Ok(Expr::Assignment {
                                    name: ident,
                                    type_decl: Some(var_type),
                                    value: Box::new(Expr::Literal(Literal::I64(num as i64))),
                                })
                            } else if is_i32 {
                                Ok(Expr::Assignment {
                                    name: ident,
                                    type_decl: Some(var_type),
                                    value: Box::new(Expr::Literal(Literal::I32(num))),
                                })
                            } else {
                                Err(type_mismatch_message(&ident, &var_type))
                            }
                        },
                        Expr::Literal(Literal::I64(num)) => {
                            if is_i64 {
                                Ok(Expr::Assignment {
                                    name: ident,
                                    type_decl: Some(var_type),
                                    value: Box::new(Expr::Literal(Literal::I64(num))),
                                })
                            } else {
                                Err(type_mismatch_message(&ident, &var_type))
                            }
                        },
                        _ => Err(type_mismatch_message(&ident, &var_type)),
                    }
                } else {
                    let mut msg = "Expected an assignment after type declaration for '".to_owned();
                    msg.append(ident.as_str());
                    msg.append("'");
                    Err(msg)
                }
            },
            None => Err("Expected a type declaration".to_owned()),
        }
    }

    /// Parses a primary expression: a literal, a variable, or a
    /// parenthesised expression.
    fn parse_primary(&mut self) -> (r: Result<Expr, String>)
        requires
            old(self).wf(),
        ensures
            final(self).tokens@ == old(self).tokens@,
            final(self).wf(),
            final(self).current >= old(self).current,
            r matches Ok(e) ==> final(self).current > old(self).current && expr_wf(e),
            old(self).current < old(self).tokens@.len() ==> (old(self).cur()
                matches TokenModel::I32(v) ==> r == Ok::<Expr, String>(
                Expr::Literal(Literal::I32(v)),
            ) && final(self).current == old(self).current + 1),
            old(self).current < old(self).tokens@.len() ==> (old(self).cur()
                matches TokenModel::I64(v) ==> r == Ok::<Expr, String>(
                Expr::Literal(Literal::I64(v)),
            ) && final(self).current == old(self).current + 1),
            old(self).current < old(self).tokens@.len() ==> (old(self).cur()
                matches TokenModel::String(sv) ==> r matches Ok(e) && (e matches Expr::Literal(
                Literal::String(x),
            ) && x@ == sv) && final(self).current == old(self).current + 1),
            (r is Ok) == (prim_end(old(self).tokens.deep_view(), old(self).current as int) is Some),
            r is Ok ==> Some(final(self).current as int) == prim_end(old(self).tokens.deep_view(), old(self).current as int),
            r matches Ok(e) ==> prim_rel(old(self).tokens.deep_view(), old(self).current as int, e, final(self).current as int),
            r matches Ok(e) ==> lit_shape_of(e) == prim_shape(old(self).tokens.deep_view(), old(self).current as int),
        decreases self.tokens@.len() - self.current, 1int,
    {
        if self.current >= self.tokens.len() {
            return Err("Unexpected end of tokens".to_owned());
        }
        let token_clone = clone_token(&self.tokens[self.current]);

        match token_clone {
            Token::I32(value) => {
                self.next_token();
                Ok(Expr::Literal(Literal::I32(value)))
            },
            Token::I64(value) => {
                self.next_token();
                Ok(Expr::Literal(Literal::I64(value)))
            },
            Token::String(value) => {
                self.next_token();
                Ok(Expr::Literal(Literal::String(value)))
            },
            Token::Ident(_) => {
                let is_call = match self.peek_token() {
                    Some(t) => matches!(t, Token::LParen),
                    None => false,
                };
                if is_call {
                    self.parse_function_call()
                } else {
                    let ident = self.parse_identifier()?;
                    Ok(Expr::Variable(ident))
                }
            },
            Token::LParen => {
                self.next_token();
                let expr = self.parse_expression()?;
                self.consume_token(Token::RParen)?;
                Ok(expr)
            },
            _ => Err("Unexpected token in primary expression".to_owned()),
        }
    }

    /// Parses the whole token stream into the single top-level `Block`:
    /// statements are parsed until the `EOF` sentinel or the end of the
    /// stream, and the first failure aborts parsing.
    #[verifier::loop_isolation(false)]
    #[verifier::rlimit(100)]
    #[verifier::spinoff_prover]
    pub fn parse_tokens(&mut self) -> (r: Result<Expr, String>)
        requires
            old(self).wf(),
        ensures
            final(self).tokens@ == old(self).tokens@,
            final(self).wf(),
            final(self).current >= old(self).current,
            r matches Ok(e) ==> (e matches Expr::Block(_)) && expr_wf(e),
            r is Ok ==> final(self).current == final(self).tokens@.len() || final(self).cur()
                == TokenModel::EOF,
            (r is Ok) == (prog_end(old(self).tokens.deep_view(), old(self).current as int) is Some),
            r is Ok ==> Some(final(self).current as int) == prog_end(old(self).tokens.deep_view(), old(self).current as int),
            r matches Ok(e) ==> (e matches Expr::Block(ss) && stmts_rel(old(self).tokens.deep_view(), old(self).current as int, ss@, final(self).current as int)),
            r matches Err(m) ==> exists|k: int|
                #![trigger trigger(k)]
                {
                    &&& trigger(k)
                    &&& old(self).current <= k <= old(self).tokens@.len()
                    &&& prog_end(old(self).tokens.deep_view(), old(self).current as int)
                        == prog_end(old(self).tokens.deep_view(), k)
                    &&& stmt_end(old(self).tokens.deep_view(), k) is None
                    &&& (k < old(self).tokens@.len() ==> (old(self).tokens@[k]@
                        matches TokenModel::TypeDeclaration(nm, ty) ==> ((k + 1 < old(
                        self,
                    ).tokens@.len() && old(self).tokens.deep_view()[k + 1] is Assignment
                        && fold_end(old(self).tokens.deep_view(), k + 2) is Some) ==> m@
                        == type_mismatch_text(nm, ty))))
                },
        decreases self.tokens@.len() - self.current, 7int,
    {
        proof {
            lemma_toks_index(old(self).tokens);
        }
        let ghost t = old(self).tokens.deep_view();
        let ghost oc = old(self).current as int;
        let mut statements: Vec<Expr> = Vec::new();

        while !(self.current >= self.tokens.len() || self.at_kind(&Token::EOF))
            invariant
                self.wf(),
                self.tokens@ == old(self).tokens@,
                self.tokens.deep_view() == t,
                t.len() == self.tokens@.len(),
                oc <= self.current <= self.tokens@.len(),
                forall|i: int| 0 <= i < statements@.len() ==> expr_wf(#[trigger] statements@[i]),
                prog_end(t, oc) == prog_end(t, self.current as int),
                forall|rest: Seq<Expr>, jj: int|
                    #![trigger trigger(rest), trigger(jj)]
                    ({
                        &&& trigger(rest) && trigger(jj)
                        &&& self.current as int <= jj <= t.len()
                        &&& stmts_rel(t, self.current as int, rest, jj)
                    }) ==> stmts_rel(t, oc, statements@ + rest, jj),
            decreases self.tokens@.len() - self.current,
        {
            let ghost ch = self.current as int;
            proof {
                lemma_toks_index(self.tokens);
            }
            let stmt = self.parse_statement();

            match stmt {
                Ok(expr) => {
                    let ghost x = expr;
                    let ghost j2 = self.current as int;
                    let ghost pre_stmts = statements@;
                    statements.push(expr);
                    proof {
                        lemma_toks_index(self.tokens);
                        assert(self.tokens.deep_view() =~= t);
                        assert forall|rest: Seq<Expr>, jj: int|
                            #![trigger trigger(rest), trigger(jj)]
                            ({
                                &&& trigger(rest) && trigger(jj)
                                &&& j2 <= jj <= t.len()
                                &&& stmts_rel(t, j2, rest, jj)
                            }) implies stmts_rel(t, oc, statements@ + rest, jj) by {
                            lemma_stmts_rel_cons(t, ch, x, j2, rest, jj);
                            assert(trigger(seq![x] + rest) && trigger(jj));
                            assert(stmts_rel(t, oc, pre_stmts + (seq![x] + rest), jj));
                            assert(pre_stmts + (seq![x] + rest) =~= statements@ + rest);
                        }
                    }
                },
                Err(e) => {
                    proof {
                        assert(trigger(ch));
                    }
                    return Err(e);
                },
            }
        }

        proof {
            lemma_toks_index(self.tokens);
            assert(trigger(Seq::<Expr>::empty()) && trigger(self.current as int));
            assert(stmts_rel(t, self.current as int, Seq::<Expr>::empty(), self.current as int));
            assert(statements@ + Seq::<Expr>::empty() =~= statements@);
        }
        Ok(Expr::Block(statements))
    }
}

/// The parser's type-mismatch diagnostic for a typed assignment.
fn type_mismatch_message(ident: &String, var_type: &String) -> (r: String)
    ensures
        r@ == type_mismatch_text(ident@, var_type@),
{
    let mut msg = "Type mismatch: variable '".to_owned();
    msg.append(ident.as_str());
    msg.append("' declared as '");
    msg.append(var_type.as_str());
    msg.append("' cannot be initialized with this value");
    proof {
        assert(msg@ =~= type_mismatch_text(ident@, var_type@));
    }
    msg
}

} // verus!
