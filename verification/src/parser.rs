use vstd::prelude::*;

use crate::ast::{exprs_view, stmts_view, Expression, ExprView, Statement, StmtView};
use crate::lexer::{first_token, rest_tokens, Lexer};
use crate::text::{parse_i32, parse_i32_text};
use crate::token::{token_text, Token, TokenView};

verus! {

/// How tightly an operator binds, from loosest to tightest.
#[derive(Debug, PartialEq, PartialOrd)]
pub enum Precedence {
    Lowest,
    Equals,
    LessGreater,
    Sum,
    Product,
}

/// The rank of a precedence: 0 for the loosest up to 4 for the tightest.
pub open spec fn prec_rank(p: Precedence) -> nat {
    match p {
        Precedence::Lowest => 0,
        Precedence::Equals => 1,
        Precedence::LessGreater => 2,
        Precedence::Sum => 3,
        Precedence::Product => 4,
    }
}

/// The precedence of a token when it stands as an infix operator.
pub open spec fn token_precedence(t: TokenView) -> Precedence {
    match t {
        TokenView::Slash => Precedence::Product,
        TokenView::Asterisk => Precedence::Product,
        TokenView::Gt => Precedence::LessGreater,
        TokenView::Lt => Precedence::LessGreater,
        TokenView::Eq => Precedence::Equals,
        TokenView::NotEq => Precedence::Equals,
        TokenView::Plus => Precedence::Sum,
        TokenView::Minus => Precedence::Sum,
        _ => Precedence::Lowest,
    }
}

/// The tokens that join two operands.
pub open spec fn is_infix_op(t: TokenView) -> bool {
    t is Plus || t is Minus || t is Asterisk || t is Slash || t is Gt || t is Lt || t is Eq || t is NotEq
}

/// The second token of a stream, or `Eof`.
pub open spec fn peek_token(s: Seq<TokenView>) -> TokenView {
    if s.len() > 1 {
        s[1]
    } else {
        TokenView::Eof
    }
}

/// The expression of an integer literal: its value, or no expression when it
/// does not fit in an `i32`.
pub open spec fn int_expr(lit: Seq<char>) -> ExprView {
    match parse_i32(lit) {
        Some(n) => ExprView::Int(n),
        None => ExprView::NoExprsn,
    }
}

// The grammar. Each function takes the token stream at the token it starts on
// and gives what it reads and the stream after it. Where a function goes on from
// the stream that another one gave back, it checks that this stream is no longer
// than its own: that is always so (`lemma_*_suffix` below), and the check makes
// the recursion visibly decreasing.

/// An expression whose operators bind tighter than `prec`.
pub open spec fn expression(s: Seq<TokenView>, prec: Precedence) -> (ExprView, Seq<TokenView>)
    decreases s.len(), 5nat,
{
    let (left, s1) = prefix(s);
    if s1.len() <= s.len() {
        infix_loop(left, s1, prec)
    } else {
        (left, s1)
    }
}

/// The operand that starts an expression.
pub open spec fn prefix(s: Seq<TokenView>) -> (ExprView, Seq<TokenView>)
    decreases s.len(), 4nat,
{
    match first_token(s) {
        TokenView::Int(lit) => (int_expr(lit), s),
        TokenView::True => (ExprView::Boolean { token: TokenView::True, value: true }, s),
        TokenView::False => (ExprView::Boolean { token: TokenView::False, value: false }, s),
        TokenView::Func => func(rest_tokens(s)),
        TokenView::Minus => prefix_op(TokenView::Minus, rest_tokens(s)),
        TokenView::Bang => prefix_op(TokenView::Bang, rest_tokens(s)),
        TokenView::Lparen => grouped(rest_tokens(s)),
        TokenView::If => if_expr(rest_tokens(s)),
        TokenView::Ident(name) => (ExprView::Ident(name), s),
        _ => (ExprView::NoExprsn, s),
    }
}

/// Extends `left` by the infix operators that follow, while they bind tighter
/// than `prec` and the current token is not `;`.
pub open spec fn infix_loop(left: ExprView, s: Seq<TokenView>, prec: Precedence) -> (
    ExprView,
    Seq<TokenView>,
)
    decreases s.len(), 4nat,
{
    if !(first_token(s) is Semicolon) && prec_rank(token_precedence(peek_token(s))) > prec_rank(
        prec,
    ) {
        if is_infix_op(peek_token(s)) {
            let (next, s2) = infix(left, rest_tokens(s));
            if s2.len() < s.len() {
                infix_loop(next, s2, prec)
            } else {
                (next, s2)
            }
        } else {
            (ExprView::NoExprsn, s)
        }
    } else {
        (left, s)
    }
}

/// `left`, the operator at the start of `s`, and the operand after it.
pub open spec fn infix(left: ExprView, s: Seq<TokenView>) -> (ExprView, Seq<TokenView>)
    decreases s.len(), 6nat,
{
    let opr = first_token(s);
    let (right, s1) = expression(rest_tokens(s), token_precedence(opr));
    (
        ExprView::InfixExprsn {
            left: Box::new(left),
            right: Box::new(right),
            oprt: token_text(opr),
        },
        s1,
    )
}

/// A prefix operator `tok` applied to the expression at the start of `s`.
pub open spec fn prefix_op(tok: TokenView, s: Seq<TokenView>) -> (ExprView, Seq<TokenView>)
    decreases s.len(), 6nat,
{
    let (right, s1) = expression(s, Precedence::Lowest);
    (ExprView::PrefixExprsn { token: tok, exprsn: Box::new(right) }, s1)
}

/// A parenthesised expression, after its `(`; the `)` is passed over when it follows.
pub open spec fn grouped(s: Seq<TokenView>) -> (ExprView, Seq<TokenView>)
    decreases s.len(), 6nat,
{
    let (node, s1) = expression(s, Precedence::Lowest);
    if peek_token(s1) is Rparen {
        (node, rest_tokens(s1))
    } else {
        (node, s1)
    }
}

/// An `if` expression, after its `if`.
pub open spec fn if_expr(s: Seq<TokenView>) -> (ExprView, Seq<TokenView>)
    decreases s.len(), 6nat,
{
    let (condt, s1) = expression(s, Precedence::Lowest);
    if !(peek_token(s1) is Lbrace) {
        (ExprView::NoExprsn, s1)
    } else if s1.len() > s.len() {
        (ExprView::NoExprsn, s1)
    } else {
        let (consq, s3) = block(rest_tokens(s1));
        let s4 = rest_tokens(s3);
        if first_token(s4) is Else {
            if s3.len() < s1.len() {
                let (altr, s6) = block(rest_tokens(s4));
                (ExprView::IfExprsn { condt: Box::new(condt), conseq: consq, alter: altr }, s6)
            } else {
                (ExprView::NoExprsn, s4)
            }
        } else {
            (
                ExprView::IfExprsn {
                    condt: Box::new(condt),
                    conseq: consq,
                    alter: Seq::empty(),
                },
                s4,
            )
        }
    }
}

/// A function literal, after its `fn`.
pub open spec fn func(s: Seq<TokenView>) -> (ExprView, Seq<TokenView>)
    decreases s.len(), 6nat,
{
    let (params, s1) = params_from(s);
    let s2 = rest_tokens(rest_tokens(s1));
    if s2.len() < s.len() {
        let (body, s3) = block(s2);
        (ExprView::FnExprsn { params, body }, s3)
    } else {
        (ExprView::FnExprsn { params, body: Seq::empty() }, s2)
    }
}

/// A block: the statements after its first token, up to a `}` or the end.
pub open spec fn block(s: Seq<TokenView>) -> (Seq<StmtView>, Seq<TokenView>)
    decreases s.len(), 9nat,
{
    block_loop(rest_tokens(s), Seq::empty())
}

/// The statements of a block from `s` on, after those in `acc`; a statement that
/// cannot be read ends the block.
pub open spec fn block_loop(s: Seq<TokenView>, acc: Seq<StmtView>) -> (Seq<StmtView>, Seq<TokenView>)
    decreases s.len(), 8nat,
{
    if !(first_token(s) is Rbrace) && !(first_token(s) is Eof) {
        let (st, s1) = statement(s);
        match st {
            Some(x) => {
                let s2 = rest_tokens(s1);
                if s2.len() < s.len() {
                    block_loop(s2, acc.push(x))
                } else {
                    (acc.push(x), s2)
                }
            },
            None => (acc, s1),
        }
    } else {
        (acc, s)
    }
}

/// A statement, or `None` where a `let` or `return` statement is malformed.
pub open spec fn statement(s: Seq<TokenView>) -> (Option<StmtView>, Seq<TokenView>)
    decreases s.len(), 7nat,
{
    match first_token(s) {
        TokenView::Let => let_statement(s),
        TokenView::Return => return_statement(s),
        _ => expression_statement(s),
    }
}

/// An expression used as a statement; a `;` after it is passed over.
pub open spec fn expression_statement(s: Seq<TokenView>) -> (Option<StmtView>, Seq<TokenView>)
    decreases s.len(), 6nat,
{
    let tok = first_token(s);
    let (e, s1) = expression(s, Precedence::Lowest);
    let s2 = if peek_token(s1) is Semicolon {
        rest_tokens(s1)
    } else {
        s1
    };
    (Some(StmtView::ExprsStatement { token: tok, exprs: e }), s2)
}

/// `return` and an expression; it must be followed by `;`.
pub open spec fn return_statement(s: Seq<TokenView>) -> (Option<StmtView>, Seq<TokenView>)
    decreases s.len(), 6nat,
{
    let tok = first_token(s);
    let (v, s1) = expression(rest_tokens(s), Precedence::Lowest);
    if !(peek_token(s1) is Semicolon) {
        (None, s1)
    } else {
        (Some(StmtView::Return { token: tok, exprs: v }), rest_tokens(s1))
    }
}

/// `let`, a name, `=` and an expression; the token after the expression is
/// passed over.
pub open spec fn let_statement(s: Seq<TokenView>) -> (Option<StmtView>, Seq<TokenView>)
    decreases s.len(), 6nat,
{
    let tok = first_token(s);
    if !(peek_token(s) is Ident) {
        (None, s)
    } else {
        let s1 = rest_tokens(s);
        let name = token_text(first_token(s1));
        if !(peek_token(s1) is Assing) {
            (None, s1)
        } else {
            let (val, s3) = expression(rest_tokens(rest_tokens(s1)), Precedence::Lowest);
            (
                Some(
                    StmtView::Let { token: tok, ident: ExprView::Ident(name), exprs: val },
                ),
                rest_tokens(s3),
            )
        }
    }
}

/// The parameter names of a function literal, from its `(` on: empty when `)`
/// follows, else the token after `(` and each token after a `,`.
pub open spec fn params_from(s: Seq<TokenView>) -> (Seq<ExprView>, Seq<TokenView>) {
    if peek_token(s) is Rparen {
        (Seq::empty(), s)
    } else {
        let s2 = rest_tokens(s);
        params_loop(s2, seq![ExprView::Ident(token_text(first_token(s2)))])
    }
}

/// The names after each `,` that follows, after those in `acc`.
pub open spec fn params_loop(s: Seq<TokenView>, acc: Seq<ExprView>) -> (Seq<ExprView>, Seq<TokenView>)
    decreases s.len(),
{
    if peek_token(s) is Comma {
        let s2 = rest_tokens(rest_tokens(s));
        params_loop(s2, acc.push(ExprView::Ident(token_text(first_token(s2)))))
    } else {
        (acc, s)
    }
}

/// The statements of a program from `s` on, after those in `acc`, up to the end
/// or the first statement that cannot be read.
pub open spec fn program_loop(s: Seq<TokenView>, acc: Seq<StmtView>) -> (Seq<StmtView>, Seq<TokenView>)
    decreases s.len(),
{
    if first_token(s) is Eof {
        (acc, s)
    } else {
        let (st, s1) = statement(s);
        match st {
            Some(x) => {
                let s2 = rest_tokens(s1);
                if s2.len() < s.len() {
                    program_loop(s2, acc.push(x))
                } else {
                    (acc.push(x), s2)
                }
            },
            None => (acc, s1),
        }
    }
}

/// The statements of a whole program, and the tokens left after them.
pub open spec fn program(s: Seq<TokenView>) -> (Seq<StmtView>, Seq<TokenView>) {
    program_loop(s, Seq::empty())
}


/// `r` is what is left of `s` after some of its first tokens.
pub open spec fn is_suffix(r: Seq<TokenView>, s: Seq<TokenView>) -> bool {
    r.len() <= s.len() && r == s.skip(s.len() - r.len())
}

proof fn lemma_suffix_refl(s: Seq<TokenView>)
    ensures
        is_suffix(s, s),
{
    assert(s.skip(0) =~= s);
}

proof fn lemma_suffix_rest(s: Seq<TokenView>)
    ensures
        is_suffix(rest_tokens(s), s),
{
    if s.len() > 0 {
        assert(s.drop_first() =~= s.skip(1));
    } else {
        assert(s.skip(0) =~= s);
    }
}

proof fn lemma_suffix_trans(a: Seq<TokenView>, b: Seq<TokenView>, c: Seq<TokenView>)
    requires
        is_suffix(a, b),
        is_suffix(b, c),
    ensures
        is_suffix(a, c),
{
    assert(c.skip(c.len() - b.len()).skip(b.len() - a.len()) =~= c.skip(c.len() - a.len()));
}

/// Reading an expression only moves forward through the tokens.
pub proof fn lemma_expression_suffix(s: Seq<TokenView>, prec: Precedence)
    ensures
        is_suffix(expression(s, prec).1, s),
    decreases s.len(), 5nat,
{
    lemma_prefix_suffix(s);
    let (left, s1) = prefix(s);
    if s1.len() <= s.len() {
        lemma_infix_loop_suffix(left, s1, prec);
        lemma_suffix_trans(expression(s, prec).1, s1, s);
    }
}

/// Reading an operand only moves forward through the tokens.
pub proof fn lemma_prefix_suffix(s: Seq<TokenView>)
    ensures
        is_suffix(prefix(s).1, s),
    decreases s.len(), 4nat,
{
    lemma_suffix_refl(s);
    lemma_suffix_rest(s);
    let r = rest_tokens(s);
    match first_token(s) {
        TokenView::Func => {
            lemma_func_suffix(r);
            lemma_suffix_trans(prefix(s).1, r, s);
        },
        TokenView::Minus => {
            lemma_prefix_op_suffix(TokenView::Minus, r);
            lemma_suffix_trans(prefix(s).1, r, s);
        },
        TokenView::Bang => {
            lemma_prefix_op_suffix(TokenView::Bang, r);
            lemma_suffix_trans(prefix(s).1, r, s);
        },
        TokenView::Lparen => {
            lemma_grouped_suffix(r);
            lemma_suffix_trans(prefix(s).1, r, s);
        },
        TokenView::If => {
            lemma_if_expr_suffix(r);
            lemma_suffix_trans(prefix(s).1, r, s);
        },
        _ => {},
    }
}

/// Extending an expression by infix operators only moves forward through the tokens.
pub proof fn lemma_infix_loop_suffix(left: ExprView, s: Seq<TokenView>, prec: Precedence)
    ensures
        is_suffix(infix_loop(left, s, prec).1, s),
    decreases s.len(), 4nat,
{
    lemma_suffix_refl(s);
    if !(first_token(s) is Semicolon) && prec_rank(token_precedence(peek_token(s))) > prec_rank(
        prec,
    ) {
        if is_infix_op(peek_token(s)) {
            lemma_suffix_rest(s);
            lemma_infix_suffix(left, rest_tokens(s));
            let (next, s2) = infix(left, rest_tokens(s));
            lemma_suffix_trans(s2, rest_tokens(s), s);
            if s2.len() < s.len() {
                lemma_infix_loop_suffix(next, s2, prec);
                lemma_suffix_trans(infix_loop(next, s2, prec).1, s2, s);
            }
        }
    }
}

/// Reading an operator and its right operand only moves forward through the tokens.
pub proof fn lemma_infix_suffix(left: ExprView, s: Seq<TokenView>)
    ensures
        is_suffix(infix(left, s).1, s),
    decreases s.len(), 6nat,
{
    lemma_suffix_rest(s);
    let opr = first_token(s);
    lemma_expression_suffix(rest_tokens(s), token_precedence(opr));
    lemma_suffix_trans(infix(left, s).1, rest_tokens(s), s);
}

/// Reading the operand of a prefix operator only moves forward through the tokens.
pub proof fn lemma_prefix_op_suffix(tok: TokenView, s: Seq<TokenView>)
    ensures
        is_suffix(prefix_op(tok, s).1, s),
    decreases s.len(), 6nat,
{
    lemma_expression_suffix(s, Precedence::Lowest);
}

/// Reading a parenthesised expression only moves forward through the tokens.
pub proof fn lemma_grouped_suffix(s: Seq<TokenView>)
    ensures
        is_suffix(grouped(s).1, s),
    decreases s.len(), 6nat,
{
    lemma_expression_suffix(s, Precedence::Lowest);
    let (node, s1) = expression(s, Precedence::Lowest);
    lemma_suffix_rest(s1);
    lemma_suffix_trans(rest_tokens(s1), s1, s);
}

/// Reading an `if` expression only moves forward through the tokens.
pub proof fn lemma_if_expr_suffix(s: Seq<TokenView>)
    ensures
        is_suffix(if_expr(s).1, s),
    decreases s.len(), 6nat,
{
    lemma_expression_suffix(s, Precedence::Lowest);
    let (condt, s1) = expression(s, Precedence::Lowest);
    if (peek_token(s1) is Lbrace) && s1.len() <= s.len() {
        let s2 = rest_tokens(s1);
        lemma_suffix_rest(s1);
        lemma_suffix_trans(s2, s1, s);
        lemma_block_suffix(s2);
        let (consq, s3) = block(s2);
        lemma_suffix_trans(s3, s2, s);
        let s4 = rest_tokens(s3);
        lemma_suffix_rest(s3);
        lemma_suffix_trans(s4, s3, s);
        if first_token(s4) is Else {
            if s3.len() < s1.len() {
                let s5 = rest_tokens(s4);
                lemma_suffix_rest(s4);
                lemma_suffix_trans(s5, s4, s);
                lemma_block_suffix(s5);
                lemma_suffix_trans(block(s5).1, s5, s);
            }
        }
    }
}

/// Reading a function literal only moves forward through the tokens.
pub proof fn lemma_func_suffix(s: Seq<TokenView>)
    ensures
        is_suffix(func(s).1, s),
    decreases s.len(), 6nat,
{
    lemma_params_from_suffix(s);
    let (params, s1) = params_from(s);
    lemma_suffix_rest(s1);
    lemma_suffix_rest(rest_tokens(s1));
    lemma_suffix_trans(rest_tokens(s1), s1, s);
    let s2 = rest_tokens(rest_tokens(s1));
    lemma_suffix_trans(s2, rest_tokens(s1), s);
    if s2.len() < s.len() {
        lemma_block_suffix(s2);
        lemma_suffix_trans(block(s2).1, s2, s);
    }
}

/// Reading a block only moves forward through the tokens.
pub proof fn lemma_block_suffix(s: Seq<TokenView>)
    ensures
        is_suffix(block(s).1, s),
    decreases s.len(), 9nat,
{
    lemma_suffix_rest(s);
    lemma_block_loop_suffix(rest_tokens(s), Seq::empty());
    lemma_suffix_trans(block(s).1, rest_tokens(s), s);
}

/// Reading the statements of a block only moves forward through the tokens.
pub proof fn lemma_block_loop_suffix(s: Seq<TokenView>, acc: Seq<StmtView>)
    ensures
        is_suffix(block_loop(s, acc).1, s),
    decreases s.len(), 8nat,
{
    lemma_suffix_refl(s);
    if !(first_token(s) is Rbrace) && !(first_token(s) is Eof) {
        lemma_statement_suffix(s);
        let (st, s1) = statement(s);
        lemma_suffix_rest(s1);
        let s2 = rest_tokens(s1);
        lemma_suffix_trans(s2, s1, s);
        match st {
            Some(x) => {
                if s2.len() < s.len() {
                    lemma_block_loop_suffix(s2, acc.push(x));
                    lemma_suffix_trans(block_loop(s2, acc.push(x)).1, s2, s);
                }
            },
            None => {},
        }
    }
}

/// Reading a statement only moves forward through the tokens.
pub proof fn lemma_statement_suffix(s: Seq<TokenView>)
    ensures
        is_suffix(statement(s).1, s),
    decreases s.len(), 7nat,
{
    match first_token(s) {
        TokenView::Let => lemma_let_statement_suffix(s),
        TokenView::Return => lemma_return_statement_suffix(s),
        _ => lemma_expression_statement_suffix(s),
    }
}

/// Reading an expression statement only moves forward through the tokens.
pub proof fn lemma_expression_statement_suffix(s: Seq<TokenView>)
    ensures
        is_suffix(expression_statement(s).1, s),
    decreases s.len(), 6nat,
{
    lemma_expression_suffix(s, Precedence::Lowest);
    let (e, s1) = expression(s, Precedence::Lowest);
    lemma_suffix_rest(s1);
    lemma_suffix_trans(rest_tokens(s1), s1, s);
}

/// Reading a `return` statement only moves forward through the tokens.
pub proof fn lemma_return_statement_suffix(s: Seq<TokenView>)
    ensures
        is_suffix(return_statement(s).1, s),
    decreases s.len(), 6nat,
{
    lemma_suffix_rest(s);
    lemma_expression_suffix(rest_tokens(s), Precedence::Lowest);
    let (v, s1) = expression(rest_tokens(s), Precedence::Lowest);
    lemma_suffix_trans(s1, rest_tokens(s), s);
    lemma_suffix_rest(s1);
    lemma_suffix_trans(rest_tokens(s1), s1, s);
}

/// Reading a `let` statement only moves forward through the tokens.
pub proof fn lemma_let_statement_suffix(s: Seq<TokenView>)
    ensures
        is_suffix(let_statement(s).1, s),
    decreases s.len(), 6nat,
{
    lemma_suffix_refl(s);
    lemma_suffix_rest(s);
    let s1 = rest_tokens(s);
    lemma_suffix_rest(s1);
    lemma_suffix_trans(rest_tokens(s1), s1, s);
    let s2 = rest_tokens(rest_tokens(s1));
    lemma_suffix_rest(rest_tokens(s1));
    lemma_suffix_trans(s2, rest_tokens(s1), s);
    lemma_expression_suffix(s2, Precedence::Lowest);
    let (val, s3) = expression(s2, Precedence::Lowest);
    lemma_suffix_trans(s3, s2, s);
    lemma_suffix_rest(s3);
    lemma_suffix_trans(rest_tokens(s3), s3, s);
}

/// Reading the parameter names after each `,` only moves forward through the tokens.
pub proof fn lemma_params_loop_suffix(s: Seq<TokenView>, acc: Seq<ExprView>)
    ensures
        is_suffix(params_loop(s, acc).1, s),
    decreases s.len(),
{
    lemma_suffix_refl(s);
    if peek_token(s) is Comma {
        let s2 = rest_tokens(rest_tokens(s));
        lemma_suffix_rest(s);
        lemma_suffix_rest(rest_tokens(s));
        lemma_suffix_trans(s2, rest_tokens(s), s);
        lemma_params_loop_suffix(s2, acc.push(ExprView::Ident(token_text(first_token(s2)))));
        lemma_suffix_trans(params_loop(s, acc).1, s2, s);
    }
}

/// Reading parameter names only moves forward through the tokens.
pub proof fn lemma_params_from_suffix(s: Seq<TokenView>)
    ensures
        is_suffix(params_from(s).1, s),
{
    lemma_suffix_refl(s);
    if !(peek_token(s) is Rparen) {
        let s2 = rest_tokens(s);
        lemma_suffix_rest(s);
        lemma_params_loop_suffix(s2, seq![ExprView::Ident(token_text(first_token(s2)))]);
        lemma_suffix_trans(params_from(s).1, s2, s);
    }
}

/// Reading a program only moves forward through the tokens.
pub proof fn lemma_program_loop_suffix(s: Seq<TokenView>, acc: Seq<StmtView>)
    ensures
        is_suffix(program_loop(s, acc).1, s),
    decreases s.len(),
{
    lemma_suffix_refl(s);
    if !(first_token(s) is Eof) {
        lemma_statement_suffix(s);
        let (st, s1) = statement(s);
        lemma_suffix_rest(s1);
        let s2 = rest_tokens(s1);
        lemma_suffix_trans(s2, s1, s);
        match st {
            Some(x) => {
                if s2.len() < s.len() {
                    lemma_program_loop_suffix(s2, acc.push(x));
                    lemma_suffix_trans(program_loop(s2, acc.push(x)).1, s2, s);
                }
            },
            None => {},
        }
    }
}

} // verus!

verus! {

/// The value of an optional statement.
pub open spec fn opt_stmt_view(o: Option<Statement>) -> Option<StmtView> {
    match o {
        Some(x) => Some(x@),
        None => None,
    }
}

impl Precedence {
    /// The rank of the precedence (see [`prec_rank`]).
    pub fn rank(&self) -> (r: u8)
        ensures
            r == prec_rank(*self),
    {
        match self {
            Precedence::Lowest => 0,
            Precedence::Equals => 1,
            Precedence::LessGreater => 2,
            Precedence::Sum => 3,
            Precedence::Product => 4,
        }
    }

    /// The name and rank of the precedence, as text.
    pub fn text(&self) -> (res: String)
        ensures
            res@ == precedence_text(*self),
    {
        match self {
            Precedence::Lowest => String::from_str("Lowest: 0"),
            Precedence::Equals => String::from_str("Equals: 1"),
            Precedence::LessGreater => String::from_str("LessGreater: 2"),
            Precedence::Sum => String::from_str("Sum: 3"),
            Precedence::Product => String::from_str("Product: 4"),
        }
    }
}

/// The name and rank of a precedence, as text.
pub open spec fn precedence_text(p: Precedence) -> Seq<char> {
    match p {
        Precedence::Lowest => "Lowest: 0"@,
        Precedence::Equals => "Equals: 1"@,
        Precedence::LessGreater => "LessGreater: 2"@,
        Precedence::Sum => "Sum: 3"@,
        Precedence::Product => "Product: 4"@,
    }
}

/// Reads a program from the tokens of a [`Lexer`].
pub struct Parser {
    cur_tok: Token,
    peek_tok: Token,
    lexer: Lexer,
}

impl View for Parser {
    type V = Seq<TokenView>;

    /// The tokens from the current one on, up to the end.
    closed spec fn view(&self) -> Seq<TokenView> {
        if self.cur_tok@ is Eof {
            Seq::empty()
        } else if self.peek_tok@ is Eof {
            seq![self.cur_tok@]
        } else {
            seq![self.cur_tok@, self.peek_tok@] + self.lexer@
        }
    }
}

impl Parser {
    /// The current and next tokens come before the lexer's, and nothing comes
    /// after the end.
    pub closed spec fn wf(&self) -> bool {
        &&& self.parts_wf()
        &&& (self.cur_tok@ is Eof) == (self@.len() == 0)
        &&& (self.peek_tok@ is Eof) == (self@.len() <= 1)
        &&& first_token(self@) == self.cur_tok@
        &&& peek_token(self@) == self.peek_tok@
    }

    /// The current and next tokens come before the lexer's, and nothing comes
    /// after the end.
    closed spec fn parts_wf(&self) -> bool {
        &&& self.lexer.wf()
        &&& (self.cur_tok@ is Eof ==> self.peek_tok@ is Eof)
        &&& (self.peek_tok@ is Eof ==> self.lexer@ == Seq::<TokenView>::empty())
    }

    proof fn lemma_parts_wf(&self)
        requires
            self.parts_wf(),
        ensures
            self.wf(),
    {
    }

    /// A parser over the tokens of `lexer`, at its first token.
    pub fn new(lexer: Box<Lexer>) -> (res: Self)
        requires
            lexer.wf(),
        ensures
            res.wf(),
            res@ == lexer@,
    {
        let ghost l0 = lexer@;
        let mut lx = *lexer;
        let cur_tok = lx.next_token();
        let peek_tok = lx.next_token();
        let res = Parser { lexer: lx, cur_tok, peek_tok };
        assert(l0.len() >= 2 ==> l0 =~= seq![l0[0], l0[1]] + l0.drop_first().drop_first());
        assert(res@ =~= l0);
        assert(res.lexer.wf());
        assert(res.cur_tok@ is Eof ==> res.peek_tok@ is Eof);
        assert(res.peek_tok@ is Eof ==> res.lexer@ == Seq::<TokenView>::empty());
        assert((res.cur_tok@ is Eof) == (res@.len() == 0));
        res
    }
}

impl Parser {
    /// Moves to the next token.
    fn next_token(&mut self)
        requires
            old(self).wf(),
        ensures
            final(self).wf(),
            final(self)@ == rest_tokens(old(self)@),
    {
        let ghost s = self@;
        let ghost l = self.lexer@;
        let ghost p = self.peek_tok@;
        self.cur_tok = self.peek_tok.clone();
        assert(self.cur_tok@ == p);
        self.peek_tok = self.lexer.next_token();
        proof {
            assert(self.lexer@ == rest_tokens(l));
            assert((self.peek_tok@ is Eof) == (l.len() == 0));
            if s.len() >= 2 {
                let l = old(self).lexer@;
                assert(s =~= seq![s[0], s[1]] + l);
                if l.len() > 0 {
                    assert(self@ =~= seq![s[1], l[0]] + l.drop_first());
                    assert(self@ =~= s.drop_first());
                } else {
                    assert(self@ =~= s.drop_first());
                }
            } else if s.len() == 1 {
                assert(self@ =~= s.drop_first());
            }
            assert(self.lexer.wf());
            assert(self.cur_tok@ is Eof ==> self.peek_tok@ is Eof);
            assert(self.peek_tok@ is Eof ==> self.lexer@ == Seq::<TokenView>::empty());
            self.lemma_parts_wf();
        }
    }

    /// The name that the current token stands for.
    fn parse_ident(&self) -> (res: Expression)
        ensures
            res@ == ExprView::Ident(token_text(first_token(self@))),
    {
        Expression::Ident(self.cur_tok.text())
    }

    /// The truth value of the current `true` or `false`.
    fn parse_bool(&self) -> (res: Expression)
        requires
            self.wf(),
            (first_token(self@) is True) || (first_token(self@) is False),
        ensures
            res@ == (ExprView::Boolean { token: first_token(self@), value: (first_token(self@) is True) }),
    {
        Expression::Boolean { token: self.cur_tok.clone(), value: matches!(self.cur_tok, Token::True) }
    }

    /// The integer of the current literal.
    fn parse_int(&self) -> (res: Expression)
        requires
            self.wf(),
        ensures
            res@ == (match first_token(self@) {
                TokenView::Int(lit) => int_expr(lit),
                _ => ExprView::NoExprsn,
            }),
    {
        let literal = match &self.cur_tok {
            Token::Int(s) => s,
            _ => return Expression::NoExprsn,
        };
        match parse_i32_text(literal) {
            Some(n) => Expression::Int(n),
            None => Expression::NoExprsn,
        }
    }

    /// The precedence of `tok` as an infix operator.
    fn token_to_precedence(&self, tok: Token) -> (res: Precedence)
        ensures
            res == token_precedence(tok@),
    {
        match tok {
            Token::Slash => Precedence::Product,
            Token::Gt => Precedence::LessGreater,
            Token::Lt => Precedence::LessGreater,
            Token::Asterisk => Precedence::Product,
            Token::Eq => Precedence::Equals,
            Token::NotEq => Precedence::Equals,
            Token::Plus => Precedence::Sum,
            Token::Minus => Precedence::Sum,
            _ => Precedence::Lowest,
        }
    }

    /// An expression whose operators bind tighter than `prec`.
    fn parse_expression(&mut self, prec: Precedence) -> (res: Expression)
        requires
            old(self).wf(),
        ensures
            final(self).wf(),
            (res@, final(self)@) == expression(old(self)@, prec),
            final(self)@.len() <= old(self)@.len(),
        decreases old(self)@.len(), 5nat,
    {
        let ghost s = self@;
        let mut left = match &self.cur_tok {
            Token::Int(_) => self.parse_int(),
            Token::True => self.parse_bool(),
            Token::Func => self.parse_func(),
            Token::False => self.parse_bool(),
            Token::Minus => self.parse_prefix_ops(),
            Token::Bang => self.parse_prefix_ops(),
            Token::Lparen => self.parse_grouped_expression(),
            Token::If => self.parse_if(),
            Token::Ident(_) => self.parse_ident(),
            _ => Expression::NoExprsn,
        };
        assert((left@, self@) == prefix(s));
        let ghost target = infix_loop(left@, self@, prec);
        while !matches!(self.cur_tok, Token::Semicolon) && self.token_to_precedence(
            self.peek_tok.clone(),
        ).rank() > prec.rank()
            invariant
                self.wf(),
                s == old(self)@,
                self@.len() <= s.len(),
                infix_loop(left@, self@, prec) == target,
                target == expression(s, prec),
            decreases self@.len(),
        {
            match &self.peek_tok {
                Token::Plus
                | Token::Minus
                | Token::Asterisk
                | Token::Slash
                | Token::Gt
                | Token::Lt
                | Token::Eq
                | Token::NotEq => {
                    self.next_token();
                    assert(self@.len() < s.len());
                    left = self.parse_infix(left);
                },
                _ => return Expression::NoExprsn,
            }
        }
        left
    }

    /// The names of a function's parameters.
    fn parse_params(&mut self) -> (res: Vec<Expression>)
        requires
            old(self).wf(),
        ensures
            final(self).wf(),
            (exprs_view(res@), final(self)@) == params_from(rest_tokens(old(self)@)),
            final(self)@.len() <= old(self)@.len(),
            old(self)@.len() > 0 ==> final(self)@.len() < old(self)@.len(),
    {
        let mut params: Vec<Expression> = Vec::new();
        self.next_token();
        if matches!(self.peek_tok, Token::Rparen) {
            return params;
        }
        self.next_token();
        let ident = Expression::Ident(self.cur_tok.text());
        params.push(ident);
        proof {
            crate::ast::lemma_exprs_view_push(Seq::empty(), ident);
            assert(exprs_view(Seq::<Expression>::empty()) =~= Seq::empty());
        }
        let ghost target = params_loop(self@, exprs_view(params@));
        while matches!(self.peek_tok, Token::Comma)
            invariant
                self.wf(),
                self@.len() <= rest_tokens(old(self)@).len(),
                params_loop(self@, exprs_view(params@)) == target,
                params_from(rest_tokens(old(self)@)) == target,
            decreases self@.len(),
        {
            self.next_token();
            self.next_token();
            let ident = self.parse_ident();
            proof {
                crate::ast::lemma_exprs_view_push(params@, ident);
            }
            params.push(ident);
        }
        params
    }

    /// A function literal.
    fn parse_func(&mut self) -> (res: Expression)
        requires
            old(self).wf(),
            old(self)@.len() > 0,
        ensures
            final(self).wf(),
            (res@, final(self)@) == func(rest_tokens(old(self)@)),
            final(self)@.len() <= old(self)@.len(),
        decreases old(self)@.len(), 4nat,
    {
        let params = self.parse_params();
        self.next_token();
        self.next_token();
        let body = self.parse_block();
        Expression::FnExprsn { params, body }
    }

    /// A prefix operator and its operand.
    fn parse_prefix_ops(&mut self) -> (res: Expression)
        requires
            old(self).wf(),
            old(self)@.len() > 0,
        ensures
            final(self).wf(),
            (res@, final(self)@) == prefix_op(first_token(old(self)@), rest_tokens(old(self)@)),
            final(self)@.len() <= old(self)@.len(),
        decreases old(self)@.len(), 4nat,
    {
        let tok = self.cur_tok.clone();
        self.next_token();
        let right = self.parse_expression(Precedence::Lowest);
        Expression::PrefixExprsn { token: tok, exprsn: Box::new(right) }
    }

    /// A parenthesised expression.
    fn parse_grouped_expression(&mut self) -> (res: Expression)
        requires
            old(self).wf(),
            old(self)@.len() > 0,
        ensures
            final(self).wf(),
            (res@, final(self)@) == grouped(rest_tokens(old(self)@)),
            final(self)@.len() <= old(self)@.len(),
        decreases old(self)@.len(), 4nat,
    {
        self.next_token();
        let node = self.parse_expression(Precedence::Lowest);
        if matches!(self.peek_tok, Token::Rparen) {
            self.next_token();
        }
        node
    }

    /// The operator at the current token and the operand after it, joined to `left`.
    fn parse_infix(&mut self, left: Expression) -> (res: Expression)
        requires
            old(self).wf(),
        ensures
            final(self).wf(),
            (res@, final(self)@) == infix(left@, old(self)@),
            final(self)@.len() <= old(self)@.len(),
        decreases old(self)@.len(), 6nat,
    {
        let opr = self.cur_tok.clone();
        self.next_token();
        let p = self.token_to_precedence(opr.clone());
        let right = self.parse_expression(p);
        Expression::InfixExprsn { left: Box::new(left), right: Box::new(right), oprt: opr.text() }
    }

    /// The statements of a block, up to a `}` or the end.
    fn parse_block(&mut self) -> (res: Vec<Statement>)
        requires
            old(self).wf(),
        ensures
            final(self).wf(),
            (stmts_view(res@), final(self)@) == block(old(self)@),
            final(self)@.len() <= old(self)@.len(),
        decreases old(self)@.len(), 9nat,
    {
        self.next_token();
        let mut stmnts: Vec<Statement> = Vec::new();
        assert(stmts_view(stmnts@) =~= Seq::<StmtView>::empty());
        let ghost target = block(old(self)@);
        while !matches!(self.cur_tok, Token::Rbrace) && !matches!(self.cur_tok, Token::Eof)
            invariant
                self.wf(),
                self@.len() <= old(self)@.len(),
                block_loop(self@, stmts_view(stmnts@)) == target,
                target == block(old(self)@),
            decreases self@.len(),
        {
            match self.parse_statemnt() {
                Some(s) => {
                    proof {
                        crate::ast::lemma_stmts_view_push(stmnts@, s);
                    }
                    stmnts.push(s);
                },
                None => return stmnts,
            };
            self.next_token();
        }
        stmnts
    }

    /// An `if` expression.
    fn parse_if(&mut self) -> (res: Expression)
        requires
            old(self).wf(),
            old(self)@.len() > 0,
        ensures
            final(self).wf(),
            (res@, final(self)@) == if_expr(rest_tokens(old(self)@)),
            final(self)@.len() <= old(self)@.len(),
        decreases old(self)@.len(), 4nat,
    {
        self.next_token();
        let condt = self.parse_expression(Precedence::Lowest);
        if !matches!(self.peek_tok, Token::Lbrace) {
            return Expression::NoExprsn;
        }
        self.next_token();
        let consq = self.parse_block();
        self.next_token();
        if matches!(self.cur_tok, Token::Else) {
            self.next_token();
            let altr = self.parse_block();
            let node = Expression::IfExprsn { condt: Box::new(condt), conseq: consq, alter: altr };
            return node;
        }
        let alter: Vec<Statement> = Vec::new();
        assert(stmts_view(alter@) =~= Seq::<StmtView>::empty());
        Expression::IfExprsn { condt: Box::new(condt), conseq: consq, alter }
    }

    /// A statement, or `None` where a `let` or `return` statement is malformed.
    fn parse_statemnt(&mut self) -> (res: Option<Statement>)
        requires
            old(self).wf(),
        ensures
            final(self).wf(),
            (opt_stmt_view(res), final(self)@) == statement(old(self)@),
            final(self)@.len() <= old(self)@.len(),
        decreases old(self)@.len(), 7nat,
    {
        match self.cur_tok {
            Token::Let => self.parse_let(),
            Token::Return => self.parse_return(),
            _ => self.parse_expression_statement(),
        }
    }

    /// An expression used as a statement.
    fn parse_expression_statement(&mut self) -> (res: Option<Statement>)
        requires
            old(self).wf(),
        ensures
            final(self).wf(),
            (opt_stmt_view(res), final(self)@) == expression_statement(old(self)@),
            final(self)@.len() <= old(self)@.len(),
        decreases old(self)@.len(), 6nat,
    {
        let tok = self.cur_tok.clone();
        let exprs = self.parse_expression(Precedence::Lowest);
        if matches!(self.peek_tok, Token::Semicolon) {
            self.next_token();
        }
        Some(Statement::ExprsStatement { token: tok, exprs })
    }

    /// A `return` statement.
    fn parse_return(&mut self) -> (res: Option<Statement>)
        requires
            old(self).wf(),
        ensures
            final(self).wf(),
            (opt_stmt_view(res), final(self)@) == return_statement(old(self)@),
            final(self)@.len() <= old(self)@.len(),
        decreases old(self)@.len(), 6nat,
    {
        let return_tok = self.cur_tok.clone();
        self.next_token();
        let return_value = self.parse_expression(Precedence::Lowest);
        if !matches!(self.peek_tok, Token::Semicolon) {
            return None;
        }
        self.next_token();
        Some(Statement::Return { token: return_tok, exprs: return_value })
    }

    /// A `let` statement.
    fn parse_let(&mut self) -> (res: Option<Statement>)
        requires
            old(self).wf(),
        ensures
            final(self).wf(),
            (opt_stmt_view(res), final(self)@) == let_statement(old(self)@),
            final(self)@.len() <= old(self)@.len(),
        decreases old(self)@.len(), 6nat,
    {
        let let_tok = self.cur_tok.clone();
        match &self.peek_tok {
            Token::Ident(_) => self.next_token(),
            _ => return None,
        }
        let name = self.cur_tok.text();
        if !matches!(self.peek_tok, Token::Assing) {
            return None;
        }
        self.next_token();
        self.next_token();
        let val = self.parse_expression(Precedence::Lowest);
        self.next_token();
        Some(Statement::Let { token: let_tok, ident: Expression::Ident(name), exprs: val })
    }

    /// Reads statements up to the end, or up to the first that cannot be read.
    pub fn parse_program(&mut self) -> (res: Vec<Statement>)
        requires
            old(self).wf(),
        ensures
            final(self).wf(),
            stmts_view(res@) == program(old(self)@).0,
            final(self)@ == program(old(self)@).1,
    {
        let mut statements: Vec<Statement> = Vec::new();
        assert(stmts_view(statements@) =~= Seq::<StmtView>::empty());
        let ghost target = program(old(self)@);
        while !matches!(self.cur_tok, Token::Eof)
            invariant
                self.wf(),
                program_loop(self@, stmts_view(statements@)) == target,
                target == program(old(self)@),
            decreases self@.len(),
        {
            let stmnt = self.parse_statemnt();
            match stmnt {
                Some(n) => {
                    proof {
                        crate::ast::lemma_stmts_view_push(statements@, n);
                    }
                    statements.push(n)
                },
                None => return statements,
            }
            self.next_token();
        }
        statements
    }
}

/// A name or an integer literal: a token that is a whole operand by itself.
pub open spec fn is_atom(t: TokenView) -> bool {
    t is Ident || t is Int
}

/// The expression of a name or an integer literal.
pub open spec fn atom_expr(t: TokenView) -> ExprView {
    match t {
        TokenView::Ident(n) => ExprView::Ident(n),
        TokenView::Int(lit) => int_expr(lit),
        _ => ExprView::NoExprsn,
    }
}

/// `a o1 b o2 c`, for operands that are names or integer literals and infix
/// operators `o1` and `o2`, is read as `a o1 (b o2 c)` when `o2` binds tighter
/// than `o1`, and as `(a o1 b) o2 c` otherwise (operators of equal precedence
/// associate to the left). The reading stops at `c`, the last token it uses.
pub proof fn law_precedence(a: TokenView, o1: TokenView, b: TokenView, o2: TokenView, c: TokenView)
    requires
        is_atom(a),
        is_atom(b),
        is_atom(c),
        is_infix_op(o1),
        is_infix_op(o2),
    ensures
        expression(seq![a, o1, b, o2, c], Precedence::Lowest) == (if prec_rank(token_precedence(o2))
            > prec_rank(token_precedence(o1)) {
            (
                ExprView::InfixExprsn {
                    left: Box::new(atom_expr(a)),
                    right: Box::new(
                        ExprView::InfixExprsn {
                            left: Box::new(atom_expr(b)),
                            right: Box::new(atom_expr(c)),
                            oprt: token_text(o2),
                        },
                    ),
                    oprt: token_text(o1),
                },
                seq![c],
            )
        } else {
            (
                ExprView::InfixExprsn {
                    left: Box::new(
                        ExprView::InfixExprsn {
                            left: Box::new(atom_expr(a)),
                            right: Box::new(atom_expr(b)),
                            oprt: token_text(o1),
                        },
                    ),
                    right: Box::new(atom_expr(c)),
                    oprt: token_text(o2),
                },
                seq![c],
            )
        }),
{
    let s0 = seq![a, o1, b, o2, c];
    let s1 = seq![o1, b, o2, c];
    let s2 = seq![b, o2, c];
    let s3 = seq![o2, c];
    let s4 = seq![c];
    let p1 = token_precedence(o1);
    let p2 = token_precedence(o2);
    assert(rest_tokens(s0) =~= s1);
    assert(rest_tokens(s1) =~= s2);
    assert(rest_tokens(s2) =~= s3);
    assert(rest_tokens(s3) =~= s4);
    assert(prec_rank(p1) > 0 && prec_rank(p2) > 0);
    // The last operand, read at either precedence.
    assert forall|pr: Precedence| #[trigger] expression(s4, pr) == (atom_expr(c), s4) by {
        assert(prefix(s4) == (atom_expr(c), s4));
        assert(peek_token(s4) is Eof);
        assert(infix_loop(atom_expr(c), s4, pr) == (atom_expr(c), s4));
    }
    let bc = ExprView::InfixExprsn {
        left: Box::new(atom_expr(b)),
        right: Box::new(atom_expr(c)),
        oprt: token_text(o2),
    };
    assert(infix(atom_expr(b), s3) == (bc, s4));
    assert(prefix(s2) == (atom_expr(b), s2));
    assert(prefix(s0) == (atom_expr(a), s0));
    assert(peek_token(s0) == o1);
    assert(peek_token(s2) == o2);
    assert(peek_token(s4) is Eof);
    if prec_rank(p2) > prec_rank(p1) {
        assert(infix_loop(bc, s4, p1) == (bc, s4));
        assert(infix_loop(atom_expr(b), s2, p1) == (bc, s4));
        assert(expression(s2, p1) == (bc, s4));
        let whole = ExprView::InfixExprsn {
            left: Box::new(atom_expr(a)),
            right: Box::new(bc),
            oprt: token_text(o1),
        };
        assert(infix(atom_expr(a), s1) == (whole, s4));
        assert(infix_loop(whole, s4, Precedence::Lowest) == (whole, s4));
        assert(infix_loop(atom_expr(a), s0, Precedence::Lowest) == (whole, s4));
    } else {
        assert(infix_loop(atom_expr(b), s2, p1) == (atom_expr(b), s2));
        assert(expression(s2, p1) == (atom_expr(b), s2));
        let ab = ExprView::InfixExprsn {
            left: Box::new(atom_expr(a)),
            right: Box::new(atom_expr(b)),
            oprt: token_text(o1),
        };
        assert(infix(atom_expr(a), s1) == (ab, s2));
        let whole = ExprView::InfixExprsn {
            left: Box::new(ab),
            right: Box::new(atom_expr(c)),
            oprt: token_text(o2),
        };
        assert(infix(ab, s3) == (whole, s4));
        assert(infix_loop(whole, s4, Precedence::Lowest) == (whole, s4));
        assert(infix_loop(ab, s2, Precedence::Lowest) == (whole, s4));
        assert(infix_loop(atom_expr(a), s0, Precedence::Lowest) == (whole, s4));
    }
}

/// The rank of an operator, written out: `*` and `/` 4, `+` and `-` 3, `<` and
/// `>` 2, `==` and `!=` 1, and 0 for every other token.
pub open spec fn operator_rank(t: TokenView) -> int {
    match t {
        TokenView::Asterisk => 4,
        TokenView::Slash => 4,
        TokenView::Plus => 3,
        TokenView::Minus => 3,
        TokenView::Lt => 2,
        TokenView::Gt => 2,
        TokenView::Eq => 1,
        TokenView::NotEq => 1,
        _ => 0,
    }
}

/// How tightly each operator binds: `*` and `/` rank 4, `+` and `-` rank 3,
/// `<` and `>` rank 2, `==` and `!=` rank 1, and every other token 0.
pub proof fn law_operator_ranks(t: TokenView)
    ensures
        prec_rank(token_precedence(TokenView::Asterisk)) == 4,
        prec_rank(token_precedence(TokenView::Slash)) == 4,
        prec_rank(token_precedence(TokenView::Plus)) == 3,
        prec_rank(token_precedence(TokenView::Minus)) == 3,
        prec_rank(token_precedence(TokenView::Lt)) == 2,
        prec_rank(token_precedence(TokenView::Gt)) == 2,
        prec_rank(token_precedence(TokenView::Eq)) == 1,
        prec_rank(token_precedence(TokenView::NotEq)) == 1,
        prec_rank(token_precedence(t)) == operator_rank(t),
        is_infix_op(t) <==> operator_rank(t) > 0,
{
}

/// The expression `left o right`.
pub open spec fn infix_of(left: ExprView, o: TokenView, right: ExprView) -> ExprView {
    ExprView::InfixExprsn { left: Box::new(left), right: Box::new(right), oprt: token_text(o) }
}

/// An operator that binds tighter is read first: for operands `a`, `b`, `c`
/// that are names or integer literals, `a o1 b o2 c` is read as `a o1 (b o2 c)`
/// when the rank of `o2` (see [`operator_rank`]) is higher than that of `o1`;
/// so `a + b * c` and `a + b / c` are `a + (b * c)` and `a + (b / c)`.
pub proof fn law_tighter_first(a: TokenView, o1: TokenView, b: TokenView, o2: TokenView, c: TokenView)
    requires
        is_atom(a),
        is_atom(b),
        is_atom(c),
        operator_rank(o1) > 0,
        operator_rank(o2) > operator_rank(o1),
    ensures
        expression(seq![a, o1, b, o2, c], Precedence::Lowest).0 == infix_of(
            atom_expr(a),
            o1,
            infix_of(atom_expr(b), o2, atom_expr(c)),
        ),
{
    law_operator_ranks(o1);
    law_operator_ranks(o2);
    law_precedence(a, o1, b, o2, c);
}

/// Operators of the same rank associate to the left, and a looser operator
/// after a tighter one applies to the whole: for operands `a`, `b`, `c` that
/// are names or integer literals, `a o1 b o2 c` is read as `(a o1 b) o2 c` when
/// the rank of `o2` (see [`operator_rank`]) is no higher than that of `o1`.
pub proof fn law_left_association(a: TokenView, o1: TokenView, b: TokenView, o2: TokenView, c: TokenView)
    requires
        is_atom(a),
        is_atom(b),
        is_atom(c),
        operator_rank(o2) > 0,
        operator_rank(o2) <= operator_rank(o1),
    ensures
        expression(seq![a, o1, b, o2, c], Precedence::Lowest).0 == infix_of(
            infix_of(atom_expr(a), o1, atom_expr(b)),
            o2,
            atom_expr(c),
        ),
{
    law_operator_ranks(o1);
    law_operator_ranks(o2);
    law_precedence(a, o1, b, o2, c);
}

} // verus!
