use vstd::prelude::*;

verus! {

/// An expression of the abstract syntax tree.  `Block` is the only
/// container; a whole program parses to a single top-level `Block`.
/// Function bodies, `if` branches and `while` bodies are always `Block`s.
#[derive(Debug, PartialEq)]
pub enum Expr {
    FunctionDef { name: String, params: Vec<(String, String)>, body: Box<Expr> },
    FunctionCall { name: String, args: Vec<Expr> },
    IfExpr { condition: Box<Expr>, consequence: Box<Expr>, alternative: Option<Box<Expr>> },
    WhileLoop { condition: Box<Expr>, body: Box<Expr> },
    Assignment { name: String, type_decl: Option<String>, value: Box<Expr> },
    BinaryOp { left: Box<Expr>, op: Op, right: Box<Expr> },
    Literal(Literal),
    Variable(String),
    Block(Vec<Expr>),
    Return(Box<Expr>),
    Print(Box<Expr>),
}

/// A literal value appearing in the source program.
#[derive(Clone, Debug, PartialEq)]
pub enum Literal {
    I32(i32),
    I64(i64),
    String(String),
    Unit,
}

/// A binary operator.  All operators share a single precedence level and
/// associate to the left.
#[derive(Clone, Debug, PartialEq)]
pub enum Op {
    Add,
    Subtract,
    Multiply,
    Divide,
    LessThan,
    GreaterThan,
}

impl Clone for Expr {
    /// A deep copy of the expression tree.  (Written by hand: a derived
    /// `Clone` on this recursive enum trips the verifier's trait-cycle
    /// check.)
    #[verifier::loop_isolation(false)]
    fn clone(&self) -> (r: Self)
        decreases *self,
    {
        broadcast use vstd::std_specs::vec::group_vec_axioms;

        match self {
            Expr::FunctionDef { name, params, body } => {
                let mut ps: Vec<(String, String)> = Vec::new();
                let mut i: usize = 0;
                while i < params.len()
                    invariant
                        i <= params@.len(),
                    decreases params@.len() - i,
                {
                    ps.push((params[i].0.clone(), params[i].1.clone()));
                    i = i + 1;
                }
                Expr::FunctionDef {
                    name: name.clone(),
                    params: ps,
                    body: Box::new((**body).clone()),
                }
            },
            Expr::FunctionCall { name, args } => {
                let mut cloned_args: Vec<Expr> = Vec::new();
                let mut i: usize = 0;
                while i < args.len()
                    invariant
                        i <= args@.len(),
                    decreases args@.len() - i,
                {
                    proof {
                        assert(decreases_to!(*self => args@[i as int]));
                    }
                    cloned_args.push(args[i].clone());
                    i = i + 1;
                }
                Expr::FunctionCall { name: name.clone(), args: cloned_args }
            },
            Expr::IfExpr { condition, consequence, alternative } => Expr::IfExpr {
                condition: Box::new((**condition).clone()),
                consequence: Box::new((**consequence).clone()),
                alternative: match alternative {
                    Some(a) => Some(Box::new((**a).clone())),
                    None => None,
                },
            },
            Expr::WhileLoop { condition, body } => Expr::WhileLoop {
                condition: Box::new((**condition).clone()),
                body: Box::new((**body).clone()),
            },
            Expr::Assignment { name, type_decl, value } => Expr::Assignment {
                name: name.clone(),
                type_decl: match type_decl {
                    Some(t) => Some(t.clone()),
                    None => None,
                },
                value: Box::new((**value).clone()),
            },
            Expr::BinaryOp { left, op, right } => Expr::BinaryOp {
                left: Box::new((**left).clone()),
                op: op.clone(),
                right: Box::new((**right).clone()),
            },
            Expr::Literal(lit) => Expr::Literal(lit.clone()),
            Expr::Variable(name) => Expr::Variable(name.clone()),
            Expr::Block(es) => {
                let mut cloned: Vec<Expr> = Vec::new();
                let mut i: usize = 0;
                while i < es.len()
                    invariant
                        i <= es@.len(),
                    decreases es@.len() - i,
                {
                    proof {
                        assert(decreases_to!(*self => es@[i as int]));
                    }
                    cloned.push(es[i].clone());
                    i = i + 1;
                }
                Expr::Block(cloned)
            },
            Expr::Return(inner) => Expr::Return(Box::new((**inner).clone())),
            Expr::Print(inner) => Expr::Print(Box::new((**inner).clone())),
        }
    }
}

/// Well-formedness of a parser-produced expression tree:
/// - the body of a `FunctionDef`, both branches of an `IfExpr` and the
///   body of a `WhileLoop` are `Block`s;
/// - an `Assignment` carrying a type declaration matches its value: a
///   literal initializer is `I32` under an `i32` declaration and `I64`
///   under an `i64` declaration (the parser widens an `I32` literal to
///   `I64` when the declaration says `i64`).
pub open spec fn expr_wf(e: Expr) -> bool
    decreases e,
{
    match e {
        Expr::FunctionDef { name, params, body } => (*body) matches Expr::Block(_) && expr_wf(
            *body,
        ),
        Expr::FunctionCall { name, args } => forall|i: int|
            0 <= i < args@.len() ==> expr_wf(#[trigger] args@[i]),
        Expr::IfExpr { condition, consequence, alternative } => {
            &&& expr_wf(*condition)
            &&& (*consequence) matches Expr::Block(_)
            &&& expr_wf(*consequence)
            &&& match alternative {
                Some(alt) => (*alt) matches Expr::Block(_) && expr_wf(*alt),
                None => true,
            }
        },
        Expr::WhileLoop { condition, body } => {
            &&& expr_wf(*condition)
            &&& (*body) matches Expr::Block(_)
            &&& expr_wf(*body)
        },
        Expr::Assignment { name, type_decl, value } => {
            &&& expr_wf(*value)
            &&& match type_decl {
                Some(t) => typed_literal_ok(t@, *value),
                None => true,
            }
        },
        Expr::BinaryOp { left, op, right } => expr_wf(*left) && expr_wf(*right),
        Expr::Literal(_) => true,
        Expr::Variable(_) => true,
        Expr::Block(es) => forall|i: int| 0 <= i < es@.len() ==> expr_wf(#[trigger] es@[i]),
        Expr::Return(inner) => expr_wf(*inner),
        Expr::Print(inner) => expr_wf(*inner),
    }
}

/// The type-declaration invariant for a typed assignment: the initializer
/// is an integer literal whose width agrees with the declared type name
/// (the parser rejects every other typed initializer).
pub open spec fn typed_literal_ok(ty: Seq<char>, value: Expr) -> bool {
    match value {
        Expr::Literal(Literal::I32(_)) => ty == "i32"@,
        Expr::Literal(Literal::I64(_)) => ty == "i64"@,
        _ => false,
    }
}

} // verus!
