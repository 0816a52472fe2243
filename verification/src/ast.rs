use vstd::prelude::*;

use crate::text::{append_int, int_text};
use crate::token::{Token, TokenView};

verus! {

/// An expression of the language.
#[derive(Debug, PartialEq)]
pub enum Expression {
    Ident(String),
    Int(i32),
    Boolean { token: Token, value: bool },
    PrefixExprsn { token: Token, exprsn: Box<Expression> },
    InfixExprsn { left: Box<Expression>, right: Box<Expression>, oprt: String },
    FnExprsn { params: Vec<Expression>, body: Vec<Statement> },
    IfExprsn { condt: Box<Expression>, conseq: Vec<Statement>, alter: Vec<Statement> },
    /// Where no expression could be read.
    NoExprsn,
}

/// A statement of the language.
#[derive(Debug, PartialEq)]
pub enum Statement {
    Let { token: Token, ident: Expression, exprs: Expression },
    Return { token: Token, exprs: Expression },
    ExprsStatement { token: Token, exprs: Expression },
}

/// The mathematical value of an [`Expression`].
pub enum ExprView {
    Ident(Seq<char>),
    Int(i32),
    Boolean { token: TokenView, value: bool },
    PrefixExprsn { token: TokenView, exprsn: Box<ExprView> },
    InfixExprsn { left: Box<ExprView>, right: Box<ExprView>, oprt: Seq<char> },
    FnExprsn { params: Seq<ExprView>, body: Seq<StmtView> },
    IfExprsn { condt: Box<ExprView>, conseq: Seq<StmtView>, alter: Seq<StmtView> },
    NoExprsn,
}

/// The mathematical value of a [`Statement`].
pub enum StmtView {
    Let { token: TokenView, ident: ExprView, exprs: ExprView },
    Return { token: TokenView, exprs: ExprView },
    ExprsStatement { token: TokenView, exprs: ExprView },
}

/// The value of an expression.
pub open spec fn expr_view(e: Expression) -> ExprView
    decreases e,
{
    match e {
        Expression::Ident(s) => ExprView::Ident(s@),
        Expression::Int(v) => ExprView::Int(v),
        Expression::Boolean { token, value } => ExprView::Boolean { token: token@, value },
        Expression::PrefixExprsn { token, exprsn } => ExprView::PrefixExprsn {
            token: token@,
            exprsn: Box::new(expr_view(*exprsn)),
        },
        Expression::InfixExprsn { left, right, oprt } => ExprView::InfixExprsn {
            left: Box::new(expr_view(*left)),
            right: Box::new(expr_view(*right)),
            oprt: oprt@,
        },
        Expression::FnExprsn { params, body } => ExprView::FnExprsn {
            params: exprs_view(params@),
            body: stmts_view(body@),
        },
        Expression::IfExprsn { condt, conseq, alter } => ExprView::IfExprsn {
            condt: Box::new(expr_view(*condt)),
            conseq: stmts_view(conseq@),
            alter: stmts_view(alter@),
        },
        Expression::NoExprsn => ExprView::NoExprsn,
    }
}

/// The value of a statement.
pub open spec fn stmt_view(s: Statement) -> StmtView
    decreases s,
{
    match s {
        Statement::Let { token, ident, exprs } => StmtView::Let {
            token: token@,
            ident: expr_view(ident),
            exprs: expr_view(exprs),
        },
        Statement::Return { token, exprs } => StmtView::Return { token: token@, exprs: expr_view(exprs) },
        Statement::ExprsStatement { token, exprs } => StmtView::ExprsStatement {
            token: token@,
            exprs: expr_view(exprs),
        },
    }
}

/// The values of a sequence of expressions.
pub open spec fn exprs_view(s: Seq<Expression>) -> Seq<ExprView>
    decreases s,
{
    if s.len() == 0 {
        Seq::empty()
    } else {
        exprs_view(s.drop_last()).push(expr_view(s.last()))
    }
}

/// The values of a sequence of statements.
pub open spec fn stmts_view(s: Seq<Statement>) -> Seq<StmtView>
    decreases s,
{
    if s.len() == 0 {
        Seq::empty()
    } else {
        stmts_view(s.drop_last()).push(stmt_view(s.last()))
    }
}

/// Appending an expression appends its value.
pub proof fn lemma_exprs_view_push(s: Seq<Expression>, x: Expression)
    ensures
        exprs_view(s.push(x)) == exprs_view(s).push(expr_view(x)),
{
    assert(s.push(x).drop_last() =~= s);
}

/// Appending a statement appends its value.
pub proof fn lemma_stmts_view_push(s: Seq<Statement>, x: Statement)
    ensures
        stmts_view(s.push(x)) == stmts_view(s).push(stmt_view(x)),
{
    assert(s.push(x).drop_last() =~= s);
}

/// The text of an expression used as a name: a name itself, the decimal text of
/// an integer, `true` or `false`; empty for the other expressions.
pub open spec fn expr_text(e: ExprView) -> Seq<char> {
    match e {
        ExprView::Ident(n) => n,
        ExprView::Int(v) => int_text(v as int),
        ExprView::Boolean { value, .. } => if value {
            "true"@
        } else {
            "false"@
        },
        _ => Seq::empty(),
    }
}

impl Expression {
    /// The text of the expression used as a name (see [`expr_text`]).
    pub fn text(&self) -> (res: String)
        ensures
            res@ == expr_text(self@),
    {
        match self {
            Expression::Ident(n) => n.clone(),
            Expression::Int(v) => {
                let mut s = String::new();
                append_int(&mut s, *v);
                assert(s@ =~= int_text(*v as int));
                s
            },
            Expression::Boolean { value, .. } => if *value {
                String::from_str("true")
            } else {
                String::from_str("false")
            },
            _ => String::new(),
        }
    }
}

/// The values of a sequence of statements, one by one.
pub proof fn lemma_stmts_view_index(s: Seq<Statement>)
    ensures
        stmts_view(s).len() == s.len(),
        forall|i: int| 0 <= i < s.len() ==> #[trigger] stmts_view(s)[i] == stmt_view(s[i]),
    decreases s.len(),
{
    if s.len() > 0 {
        lemma_stmts_view_index(s.drop_last());
        assert forall|i: int| 0 <= i < s.len() implies #[trigger] stmts_view(s)[i] == stmt_view(s[i]) by {
            if i < s.len() - 1 {
                assert(s.drop_last()[i] == s[i]);
            }
        }
    }
}

/// The values of a prefix are the prefix of the values.
pub proof fn lemma_stmts_view_take(s: Seq<Statement>, n: int)
    requires
        0 <= n <= s.len(),
    ensures
        stmts_view(s.take(n)) == stmts_view(s).take(n),
{
    lemma_stmts_view_index(s);
    lemma_stmts_view_index(s.take(n));
    assert(stmts_view(s.take(n)) =~= stmts_view(s).take(n));
}

impl View for Expression {
    type V = ExprView;

    open spec fn view(&self) -> ExprView {
        expr_view(*self)
    }
}

impl View for Statement {
    type V = StmtView;

    open spec fn view(&self) -> StmtView {
        stmt_view(*self)
    }
}

} // verus!
