use vstd::prelude::*;

use crate::ast::{expr_text, stmt_view, stmts_view, Expression, ExprView, Statement, StmtView};
use crate::objects::{lookup, object_text, Env, Object, ObjectView};
use crate::token::{Token, TokenView};

verus! {

/// `a / b` rounded toward zero, as integer division does.
pub open spec fn trunc_div(a: int, b: int) -> int {
    let q = (if a < 0 { -a } else { a }) / (if b < 0 { -b } else { b });
    if (a < 0) != (b < 0) {
        -q
    } else {
        q
    }
}

/// An arithmetic operator applied to two integers; `None` where the operation
/// overflows or divides by zero (the evaluation then stops). The first operand
/// is the value of the right-hand side of the expression, the second that of the
/// left-hand side. An operator other than `+`, `-`, `*`, `/` gives `null`.
pub open spec fn int_op(op: Seq<char>, a: i32, b: i32) -> Option<ObjectView> {
    if op == "+"@ {
        if i32::MIN <= a + b <= i32::MAX { Some(ObjectView::Int((a + b) as i32)) } else { None }
    } else if op == "-"@ {
        if i32::MIN <= a - b <= i32::MAX { Some(ObjectView::Int((a - b) as i32)) } else { None }
    } else if op == "*"@ {
        if i32::MIN <= a * b <= i32::MAX { Some(ObjectView::Int((a * b) as i32)) } else { None }
    } else if op == "/"@ {
        if b == 0 || (a == i32::MIN && b == -1) {
            None
        } else {
            Some(ObjectView::Int(trunc_div(a as int, b as int) as i32))
        }
    } else {
        Some(ObjectView::Null)
    }
}

/// The value of an infix expression, from the values of its right and left sides.
pub open spec fn infix_value(op: Seq<char>, right: ObjectView, left: ObjectView) -> Option<ObjectView> {
    match (right, left) {
        (ObjectView::Int(a), ObjectView::Int(b)) => int_op(op, a, b),
        (ObjectView::Error(_), _) => Some(right),
        (_, ObjectView::Error(_)) => Some(left),
        _ => Some(
            ObjectView::Error("mismatched types: "@ + object_text(right) + " and "@ + object_text(left)),
        ),
    }
}

/// The value of `!` before an expression: the negation of a literal `true` or
/// `false`, and `false` before anything else.
pub open spec fn bang_value(e: ExprView) -> ObjectView {
    match e {
        ExprView::Boolean { value, .. } => ObjectView::Bool(!value),
        _ => ObjectView::Bool(false),
    }
}

/// The value of an expression in `env`; `None` where arithmetic overflows or
/// divides by zero.
pub open spec fn eval_expr(env: Map<Seq<char>, ObjectView>, e: ExprView) -> Option<ObjectView>
    decreases e,
{
    match e {
        ExprView::Int(v) => Some(ObjectView::Int(v)),
        ExprView::Boolean { value, .. } => Some(ObjectView::Bool(value)),
        ExprView::InfixExprsn { left, right, oprt } => match (
            eval_expr(env, *right),
            eval_expr(env, *left),
        ) {
            (Some(r), Some(l)) => infix_value(oprt, r, l),
            _ => None,
        },
        ExprView::PrefixExprsn { token, exprsn } => if token is Bang {
            Some(bang_value(*exprsn))
        } else {
            Some(ObjectView::Error("invalid prefix operator: {token}"@))
        },
        ExprView::Ident(name) => match lookup(env, name) {
            Some(v) => Some(v),
            None => Some(ObjectView::Error("identifier not found"@)),
        },
        _ => Some(ObjectView::Null),
    }
}

/// The bindings after a statement and its value; `None` where its evaluation
/// stops. A `let` binds the text of its name to the value; a `return` is `null`.
pub open spec fn eval_stmt(env: Map<Seq<char>, ObjectView>, s: StmtView) -> Option<
    (Map<Seq<char>, ObjectView>, ObjectView),
> {
    match s {
        StmtView::ExprsStatement { exprs, .. } => match eval_expr(env, exprs) {
            Some(v) => Some((env, v)),
            None => None,
        },
        StmtView::Let { ident, exprs, .. } => match eval_expr(env, exprs) {
            Some(v) => Some((env.insert(expr_text(ident), v), v)),
            None => None,
        },
        StmtView::Return { .. } => Some((env, ObjectView::Null)),
    }
}

/// The bindings after a program and the value of its last statement (`null`
/// for an empty program); `None` where its evaluation stops.
pub open spec fn eval_program(env: Map<Seq<char>, ObjectView>, s: Seq<StmtView>) -> Option<
    (Map<Seq<char>, ObjectView>, ObjectView),
>
    decreases s.len(),
{
    if s.len() == 0 {
        Some((env, ObjectView::Null))
    } else {
        match eval_program(env, s.drop_last()) {
            Some((env2, _)) => eval_stmt(env2, s.last()),
            None => None,
        }
    }
}

/// The number of nodes of an expression that evaluation visits.
pub open spec fn eval_size(e: Expression) -> nat
    decreases e,
{
    match e {
        Expression::InfixExprsn { left, right, .. } => 1 + eval_size(*left) + eval_size(*right),
        _ => 1,
    }
}

/// Evaluates programs, keeping the bindings that `let` statements make.
pub struct Evaluator {
    env: Env,
}

impl View for Evaluator {
    type V = Map<Seq<char>, ObjectView>;

    /// The bindings.
    closed spec fn view(&self) -> Map<Seq<char>, ObjectView> {
        self.env@
    }
}

impl Evaluator {
    /// An evaluator with the bindings of `env`.
    pub fn new(env: Env) -> (res: Self)
        ensures
            res@ == env@,
    {
        Evaluator { env: env }
    }

    /// Evaluates the statements in order; the value of the last one is the result
    /// (`null` for none). Overflow and division by zero are left out.
    pub fn eval_program(&mut self, program: Vec<Statement>) -> (res: Object)
        requires
            eval_program(old(self)@, stmts_view(program@)) is Some,
        ensures
            eval_program(old(self)@, stmts_view(program@)) == Some((final(self)@, res@)),
    {
        match self.checked_eval_program(program) {
            Some(v) => v,
            None => Object::Null,
        }
    }

    /// Evaluates the statements in order, as `eval_program` does, and gives `None`
    /// where arithmetic overflows or divides by zero (the bindings made before
    /// then stay).
    pub fn checked_eval_program(&mut self, program: Vec<Statement>) -> (res: Option<Object>)
        ensures
            match res {
                Some(v) => eval_program(old(self)@, stmts_view(program@)) == Some((final(self)@, v@)),
                None => eval_program(old(self)@, stmts_view(program@)) is None,
            },
    {
        let mut result: Object = Object::Null;
        let mut i: usize = 0;
        while i < program.len()
            invariant
                i <= program@.len(),
                eval_program(old(self)@, stmts_view(program@.take(i as int))) == Some((self@, result@)),
            decreases program@.len() - i,
        {
            proof {
                assert(program@.take(i + 1).drop_last() =~= program@.take(i as int));
                assert(program@.take(i + 1).last() == program@[i as int]);
                let prev = stmts_view(program@.take(i as int));
                let x = stmt_view(program@[i as int]);
                assert(stmts_view(program@.take(i + 1)) == prev.push(x));
                assert(prev.push(x).drop_last() =~= prev);
            }
            match self.eval_stmnt(&program[i]) {
                Some(v) => result = v,
                None => {
                    proof {
                        crate::ast::lemma_stmts_view_take(program@, i + 1);
                        crate::ast::lemma_stmts_view_index(program@);
                        lemma_eval_program_stops(old(self)@, stmts_view(program@), i + 1);
                    }
                    return None;
                },
            }
            i = i + 1;
        }
        assert(program@.take(program@.len() as int) =~= program@);
        Some(result)
    }

    /// Evaluates one statement.
    fn eval_stmnt(&mut self, stmnt: &Statement) -> (res: Option<Object>)
        ensures
            match res {
                Some(v) => eval_stmt(old(self)@, stmnt@) == Some((final(self)@, v@)),
                None => eval_stmt(old(self)@, stmnt@) is None,
            },
    {
        match stmnt {
            Statement::ExprsStatement { token: _, exprs } => self.eval_exprs(exprs),
            Statement::Let { token: _, ident, exprs } => {
                let val = match self.eval_exprs(exprs) {
                    Some(v) => v,
                    None => return None,
                };
                self.env.set(ident.text(), &val);
                Some(val)
            },
            _ => Some(Object::Null),
        }
    }

    /// The value of `!` before `s`.
    fn eval_bang(&self, s: &Expression) -> (res: Object)
        ensures
            res@ == bang_value(s@),
    {
        match s {
            Expression::Boolean { token: _, value } => Object::Bool(!*value),
            _ => Object::Bool(false),
        }
    }

    /// The value of an expression.
    fn eval_exprs(&self, s: &Expression) -> (res: Option<Object>)
        ensures
            opt_view(res) == eval_expr(self@, s@),
        decreases eval_size(*s), 1nat,
    {
        match s {
            Expression::Int(v) => Some(Object::Int(*v)),
            Expression::Boolean { token: _, value } => Some(Object::Bool(*value)),
            Expression::InfixExprsn { left, right, oprt } => self.eval_infix(left, right, oprt),
            Expression::PrefixExprsn { token, exprsn } => match token {
                Token::Bang => Some(self.eval_bang(exprsn)),
                _ => Some(Object::Error(String::from_str("invalid prefix operator: {token}"))),
            },
            Expression::Ident(name) => {
                let val = self.env.get(name.clone());
                match val {
                    Some(v) => Some(v),
                    None => Some(Object::Error(String::from_str("identifier not found"))),
                }
            },
            _ => Some(Object::Null),
        }
    }

    /// The value of an infix expression.
    fn eval_infix(&self, left: &Expression, right: &Expression, oprtr: &String) -> (res: Option<
        Object,
    >)
        ensures
            opt_view(res) == (match (eval_expr(self@, right@), eval_expr(self@, left@)) {
                (Some(r), Some(l)) => infix_value(oprtr@, r, l),
                _ => None,
            }),
        decreases eval_size(*left) + eval_size(*right) + 1, 0nat,
    {
        let right = match self.eval_exprs(right) {
            Some(v) => v,
            None => return None,
        };
        let left = match self.eval_exprs(left) {
            Some(v) => v,
            None => return None,
        };
        match (&right, &left) {
            (Object::Int(a), Object::Int(b)) => {
                let (a, b) = (*a, *b);
                if *oprtr == String::from_str("+") {
                    match a.checked_add(b) {
                        Some(v) => Some(Object::Int(v)),
                        None => None,
                    }
                } else if *oprtr == String::from_str("-") {
                    match a.checked_sub(b) {
                        Some(v) => Some(Object::Int(v)),
                        None => None,
                    }
                } else if *oprtr == String::from_str("*") {
                    match a.checked_mul(b) {
                        Some(v) => Some(Object::Int(v)),
                        None => None,
                    }
                } else if *oprtr == String::from_str("/") {
                    if b == 0 || (a == i32::MIN && b == -1) {
                        None
                    } else {
                        let q = truncating_div(a, b);
                        Some(Object::Int(q))
                    }
                } else {
                    Some(Object::Null)
                }
            },
            (Object::Error(_), _) => Some(right),
            (_, Object::Error(_)) => Some(left),
            _ => {
                let mut msg = String::from_str("mismatched types: ");
                msg.append(right.text().as_str());
                msg.append(" and ");
                msg.append(left.text().as_str());
                Some(Object::Error(msg))
            },
        }
    }
}

/// `a / b` rounded toward zero, for the operands on which it is an `i32`.
fn truncating_div(a: i32, b: i32) -> (q: i32)
    requires
        b != 0,
        !(a == i32::MIN && b == -1),
    ensures
        q == trunc_div(a as int, b as int),
{
    let ua: i64 = if a < 0 { 0 - (a as i64) } else { a as i64 };
    let ub: i64 = if b < 0 { 0 - (b as i64) } else { b as i64 };
    let uq: i64 = ua / ub;
    assert(0 <= uq <= ua) by (nonlinear_arith)
        requires
            ub >= 1,
            ua >= 0,
            uq == ua / ub,
    ;
    assert(ub >= 2 ==> uq <= ua / 2) by (nonlinear_arith)
        requires
            ub >= 1,
            ua >= 0,
            uq == ua / ub,
    ;
    let r: i64 = if (a < 0) != (b < 0) { 0 - uq } else { uq };
    r as i32
}

/// The value of an optional object.
pub open spec fn opt_view(o: Option<Object>) -> Option<ObjectView> {
    match o {
        Some(v) => Some(v@),
        None => None,
    }
}

/// Once a statement stops the evaluation, the whole program stops.
pub proof fn lemma_eval_program_stops(env: Map<Seq<char>, ObjectView>, s: Seq<StmtView>, n: int)
    requires
        0 < n <= s.len(),
        eval_program(env, s.take(n)) is None,
    ensures
        eval_program(env, s) is None,
    decreases s.len(),
{
    if n < s.len() {
        assert(s.drop_last().take(n) =~= s.take(n));
        lemma_eval_program_stops(env, s.drop_last(), n);
    } else {
        assert(s.take(n) =~= s);
    }
}

/// The value of a program is that of its last statement, evaluated in the
/// bindings that the statements before it left; the empty program is `null` and
/// binds nothing.
pub proof fn law_program_value(env: Map<Seq<char>, ObjectView>, s: Seq<StmtView>, x: StmtView)
    ensures
        eval_program(env, Seq::empty()) == Some((env, ObjectView::Null)),
        eval_program(env, s.push(x)) == (match eval_program(env, s) {
            Some((env2, _)) => eval_stmt(env2, x),
            None => None,
        }),
{
    assert(s.push(x).drop_last() =~= s);
}

/// Evaluating two programs one after the other is evaluating them joined: the
/// joined program leaves the bindings and has the value that the second one
/// gives, run in the bindings that the first one leaves (when the second one is
/// not empty); and it stops exactly when one of them stops.
pub proof fn law_program_concat(env: Map<Seq<char>, ObjectView>, p: Seq<StmtView>, q: Seq<StmtView>)
    ensures
        q.len() > 0 ==> eval_program(env, p + q) == (match eval_program(env, p) {
            Some((env2, _)) => eval_program(env2, q),
            None => None,
        }),
        q.len() == 0 ==> eval_program(env, p + q) == eval_program(env, p),
    decreases q.len(),
{
    if q.len() == 0 {
        assert(p + q =~= p);
    } else {
        let q1 = q.drop_last();
        let x = q.last();
        assert((p + q).drop_last() =~= p + q1);
        assert((p + q).last() == x);
        law_program_concat(env, p, q1);
        if q1.len() == 0 {
            assert(p + q1 =~= p);
            assert(q.drop_last() =~= Seq::<StmtView>::empty());
            match eval_program(env, p) {
                Some((env2, _)) => {
                    assert(eval_program(env2, q1) == Some((env2, ObjectView::Null)));
                },
                None => {},
            }
        }
    }
}

/// Only a `let` statement changes the bindings, and it binds exactly its name.
pub proof fn law_only_let_binds(env: Map<Seq<char>, ObjectView>, st: StmtView)
    ensures
        eval_stmt(env, st) matches Some((env2, v)) ==> {
            &&& (st matches StmtView::Let { ident, .. } ==> env2 == env.insert(expr_text(ident), v))
            &&& (!(st is Let) ==> env2 == env)
        },
{
}

/// A name bound by `let` reads back as the value bound: the program
/// `let name = e; name` has the value of `e`.
pub proof fn law_let_then_read(
    env: Map<Seq<char>, ObjectView>,
    let_tok: TokenView,
    name: Seq<char>,
    e: ExprView,
    tok: TokenView,
)
    requires
        eval_expr(env, e) is Some,
    ensures
        eval_program(
            env,
            seq![
                StmtView::Let { token: let_tok, ident: ExprView::Ident(name), exprs: e },
                StmtView::ExprsStatement { token: tok, exprs: ExprView::Ident(name) },
            ],
        ) == Some((env.insert(name, eval_expr(env, e).unwrap()), eval_expr(env, e).unwrap())),
{
    let v = eval_expr(env, e).unwrap();
    let st1 = StmtView::Let { token: let_tok, ident: ExprView::Ident(name), exprs: e };
    let st2 = StmtView::ExprsStatement { token: tok, exprs: ExprView::Ident(name) };
    let p = seq![st1, st2];
    assert(p.drop_last() =~= seq![st1]);
    assert(seq![st1].drop_last() =~= Seq::<StmtView>::empty());
    assert(eval_program(env, Seq::<StmtView>::empty()) == Some((env, ObjectView::Null)));
    assert(expr_text(ExprView::Ident(name)) == name);
    assert(eval_stmt(env, st1) == Some((env.insert(name, v), v)));
    assert(eval_program(env, seq![st1]) == Some((env.insert(name, v), v)));
    assert(lookup(env.insert(name, v), name) == Some(v));
    assert(eval_expr(env.insert(name, v), ExprView::Ident(name)) == Some(v));
    assert(eval_stmt(env.insert(name, v), st2) == Some((env.insert(name, v), v)));
}

/// An error on either side of an infix operator is the value of the whole
/// expression, the right side's first.
pub proof fn law_errors_propagate(op: Seq<char>, right: ObjectView, left: ObjectView)
    ensures
        right is Error ==> infix_value(op, right, left) == Some(right),
        (left is Error && !(right is Error)) ==> infix_value(op, right, left) == Some(left),
{
}

/// Integer division rounds toward zero: for `b != 0` the quotient `q` leaves a
/// remainder `r = a - q * b` smaller than `b` in size, and `r` is zero or has
/// the sign of `a`.
pub proof fn law_division(a: int, b: int)
    requires
        b != 0,
    ensures
        ({
            let q = trunc_div(a, b);
            let r = a - q * b;
            &&& (if r < 0 { -r } else { r }) < (if b < 0 { -b } else { b })
            &&& (r == 0 || ((r < 0) == (a < 0)))
        }),
{
    let ua: int = if a < 0 { -a } else { a };
    let ub: int = if b < 0 { -b } else { b };
    let q0 = ua / ub;
    let r0 = ua % ub;
    assert(ua == q0 * ub + r0 && 0 <= r0 < ub) by (nonlinear_arith)
        requires
            ua >= 0,
            ub > 0,
            q0 == ua / ub,
            r0 == ua % ub,
    ;
    let q = trunc_div(a, b);
    if a >= 0 && b > 0 {
        assert(q == q0);
        assert(a - q * b == r0);
    } else if a >= 0 {
        assert(q == -q0);
        assert(a - q * b == r0) by (nonlinear_arith)
            requires
                q == -q0,
                b == -ub,
                a == ua,
                ua == q0 * ub + r0,
        ;
    } else if b > 0 {
        assert(q == -q0);
        assert(a - q * b == -r0) by (nonlinear_arith)
            requires
                q == -q0,
                b == ub,
                a == -ua,
                ua == q0 * ub + r0,
        ;
    } else {
        assert(q == q0);
        assert(a - q * b == -r0) by (nonlinear_arith)
            requires
                q == q0,
                b == -ub,
                a == -ua,
                ua == q0 * ub + r0,
        ;
    }
}

/// The arithmetic of two integers, the first being the value of the right-hand
/// side and the second that of the left-hand side: `+`, `-` and `*` give the
/// sum, difference and product when it fits in an `i32` and stop the
/// evaluation otherwise; `/` gives the quotient rounded toward zero (see
/// [`law_division`]) and stops on division by zero or `i32::MIN / -1`; any other
/// operator gives `null`.
pub proof fn law_int_arithmetic(op: Seq<char>, a: i32, b: i32)
    ensures
        op == "+"@ ==> int_op(op, a, b) == (if i32::MIN <= a + b <= i32::MAX {
            Some(ObjectView::Int((a + b) as i32))
        } else {
            None
        }),
        op == "-"@ ==> int_op(op, a, b) == (if i32::MIN <= a - b <= i32::MAX {
            Some(ObjectView::Int((a - b) as i32))
        } else {
            None
        }),
        op == "*"@ ==> int_op(op, a, b) == (if i32::MIN <= a * b <= i32::MAX {
            Some(ObjectView::Int((a * b) as i32))
        } else {
            None
        }),
        op == "/"@ ==> ((b == 0 || (a == i32::MIN && b == -1)) <==> int_op(op, a, b) is None),
        op == "/"@ ==> (int_op(op, a, b) matches Some(ObjectView::Int(q)) ==> {
            let r = a - q * b;
            &&& (if r < 0 { -r } else { r }) < (if b < 0 { -(b as int) } else { b as int })
            &&& (r == 0 || ((r < 0) == (a < 0)))
        }),
        op != "+"@ && op != "-"@ && op != "*"@ && op != "/"@ ==> int_op(op, a, b) == Some(
            ObjectView::Null,
        ),
{
    reveal_strlit("+");
    reveal_strlit("-");
    reveal_strlit("*");
    reveal_strlit("/");
    assert("+"@[0] == '+' && "-"@[0] == '-' && "*"@[0] == '*' && "/"@[0] == '/');
    assert("-"@ != "+"@ && "*"@ != "+"@ && "*"@ != "-"@);
    assert("/"@ != "+"@ && "/"@ != "-"@ && "/"@ != "*"@);
    if op == "/"@ && !(b == 0 || (a == i32::MIN && b == -1)) {
        law_division(a as int, b as int);
        let q = trunc_div(a as int, b as int);
        assert(-2147483648 <= q <= 2147483647) by {
            truncating_div_fits(a, b);
        }
    }
}

/// The quotient of two `i32`s rounded toward zero is an `i32`, except for
/// `i32::MIN / -1`.
proof fn truncating_div_fits(a: i32, b: i32)
    requires
        b != 0,
        !(a == i32::MIN && b == -1),
    ensures
        -2147483648 <= trunc_div(a as int, b as int) <= 2147483647,
{
    let ua: int = if a < 0 { -(a as int) } else { a as int };
    let ub: int = if b < 0 { -(b as int) } else { b as int };
    let uq = ua / ub;
    assert(0 <= uq <= ua) by (nonlinear_arith)
        requires
            ub >= 1,
            ua >= 0,
            uq == ua / ub,
    ;
    assert(ub >= 2 ==> uq <= ua / 2) by (nonlinear_arith)
        requires
            ub >= 1,
            ua >= 0,
            uq == ua / ub,
    ;
}

} // verus!
