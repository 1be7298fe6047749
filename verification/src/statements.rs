//! The expression and statement trees, and their parsers.

use vstd::prelude::*;
use crate::types::Type;
use crate::lexer::{Token, TokenEntry, SpecToken, SpecTokenEntry};
use crate::parser::{Expected, ParseError, Parsed, SpecParseError, TokenStream, make_error, p_err,
    p_ok, p_pass, p_stopped, sp_eat, sp_error, sp_peek_entry, sp_peek_second, stepped};

verus! {

/// An expression node with the 1-based line it began on. Expressions own
/// their children exclusively: the tree is acyclic and unshared.
#[derive(Debug, PartialEq)]
pub struct Expression {
    pub type_: Box<ExpressionType>,
    pub line_number: usize,
}

/// The forms an expression can take. A float literal carries its source
/// text; the front end never computes with float values.
#[derive(Debug, PartialEq)]
pub enum ExpressionType {
    Operation(Operation),
    Field(String),
    Call(String, Vec<Expression>),
    StringLiteral(String),
    CharLiteral(char),
    BoolLiteral(bool),
    IntLiteral(i64),
    FloatLiteral(String),
    ListLiteral(Vec<Expression>),
    Empty,
}

/// A named unary or binary operator applied to sub-expressions.
#[derive(Debug, PartialEq)]
pub enum Operation {
    Construction(Vec<Expression>),
    Add(Expression, Expression),
    Sub(Expression, Expression),
    Mul(Expression, Expression),
    Div(Expression, Expression),
    Mod(Expression, Expression),
    Equals(Expression, Expression),
    GreaterThan(Expression, Expression),
    LessThan(Expression, Expression),
    GreaterEquals(Expression, Expression),
    LessEquals(Expression, Expression),
    LBS(Expression, Expression),
    RBS(Expression, Expression),
    ArrayIndex(Expression, Expression),
    BinaryAnd(Expression, Expression),
    BinaryOr(Expression, Expression),
    And(Expression, Expression),
    Or(Expression, Expression),
    Not(Expression),
    Negative(Expression),
    NotEqual(Expression, Expression),
    Increment(Expression),
    Decrement(Expression),
    Optional(Expression),
}

/// A statement node with the 1-based line it began on.
#[derive(Debug, PartialEq)]
pub struct Statement {
    pub type_: Box<StatementType>,
    pub line_number: usize,
}

/// The forms a statement can take. The `if` form carries the condition, the
/// body, and an optional else-branch: a nested conditional for an `elif`
/// chain, or an always-true conditional wrapping an unconditional block.
#[derive(Debug, PartialEq)]
pub enum StatementType {
    Assignment(Expression, Expression),
    If(Expression, Vec<Statement>, Option<Statement>),
    While(Expression, Vec<Statement>),
    For(String, String, Vec<Statement>),
    Return(Option<Expression>),
    Ignored(Expression),
    Declaration(Expression, Type, Expression),
}

// ---------------------------------------------------------------------------
// The mathematical model of the trees.
// ---------------------------------------------------------------------------

/// The model of an expression node.
pub ghost struct SpecExpr {
    pub kind: SpecExprKind,
    pub line: nat,
}

/// The model of an expression's form.
pub ghost enum SpecExprKind {
    Operation(SpecOperation),
    Field(Seq<char>),
    Call(Seq<char>, Seq<SpecExpr>),
    StringLiteral(Seq<char>),
    CharLiteral(char),
    BoolLiteral(bool),
    IntLiteral(int),
    FloatLiteral(Seq<char>),
    ListLiteral(Seq<SpecExpr>),
    Empty,
}

/// The model of an operation node.
pub ghost enum SpecOperation {
    Construction(Seq<SpecExpr>),
    Add(Box<SpecExpr>, Box<SpecExpr>),
    Sub(Box<SpecExpr>, Box<SpecExpr>),
    Mul(Box<SpecExpr>, Box<SpecExpr>),
    Div(Box<SpecExpr>, Box<SpecExpr>),
    Mod(Box<SpecExpr>, Box<SpecExpr>),
    Equals(Box<SpecExpr>, Box<SpecExpr>),
    GreaterThan(Box<SpecExpr>, Box<SpecExpr>),
    LessThan(Box<SpecExpr>, Box<SpecExpr>),
    GreaterEquals(Box<SpecExpr>, Box<SpecExpr>),
    LessEquals(Box<SpecExpr>, Box<SpecExpr>),
    LBS(Box<SpecExpr>, Box<SpecExpr>),
    RBS(Box<SpecExpr>, Box<SpecExpr>),
    ArrayIndex(Box<SpecExpr>, Box<SpecExpr>),
    BinaryAnd(Box<SpecExpr>, Box<SpecExpr>),
    BinaryOr(Box<SpecExpr>, Box<SpecExpr>),
    And(Box<SpecExpr>, Box<SpecExpr>),
    Or(Box<SpecExpr>, Box<SpecExpr>),
    Not(Box<SpecExpr>),
    Negative(Box<SpecExpr>),
    NotEqual(Box<SpecExpr>, Box<SpecExpr>),
    Increment(Box<SpecExpr>),
    Decrement(Box<SpecExpr>),
    Optional(Box<SpecExpr>),
}

/// The model of a statement node.
pub ghost struct SpecStatement {
    pub kind: SpecStatementKind,
    pub line: nat,
}

/// The model of a statement's form.
pub ghost enum SpecStatementKind {
    Assignment(SpecExpr, SpecExpr),
    If(SpecExpr, Seq<SpecStatement>, Option<Box<SpecStatement>>),
    While(SpecExpr, Seq<SpecStatement>),
    For(Seq<char>, Seq<char>, Seq<SpecStatement>),
    Return(Option<SpecExpr>),
    Ignored(SpecExpr),
    Declaration(SpecExpr, Type, SpecExpr),
}

/// The model of an expression node.
pub open spec fn view_expr(e: Expression) -> SpecExpr
    decreases e,
{
    SpecExpr { kind: view_expr_kind(*e.type_), line: e.line_number as nat }
}

/// The model of an expression's form.
pub open spec fn view_expr_kind(k: ExpressionType) -> SpecExprKind
    decreases k,
{
    match k {
        ExpressionType::Operation(op) => SpecExprKind::Operation(view_op(op)),
        ExpressionType::Field(s) => SpecExprKind::Field(s@),
        ExpressionType::Call(s, args) => SpecExprKind::Call(s@, view_exprs(args@)),
        ExpressionType::StringLiteral(s) => SpecExprKind::StringLiteral(s@),
        ExpressionType::CharLiteral(c) => SpecExprKind::CharLiteral(c),
        ExpressionType::BoolLiteral(b) => SpecExprKind::BoolLiteral(b),
        ExpressionType::IntLiteral(i) => SpecExprKind::IntLiteral(i as int),
        ExpressionType::FloatLiteral(s) => SpecExprKind::FloatLiteral(s@),
        ExpressionType::ListLiteral(es) => SpecExprKind::ListLiteral(view_exprs(es@)),
        ExpressionType::Empty => SpecExprKind::Empty,
    }
}

/// The model of an operation node.
pub open spec fn view_op(op: Operation) -> SpecOperation
    decreases op,
{
    match op {
        Operation::Construction(es) => SpecOperation::Construction(view_exprs(es@)),
        Operation::Add(a, b) => SpecOperation::Add(Box::new(view_expr(a)), Box::new(view_expr(b))),
        Operation::Sub(a, b) => SpecOperation::Sub(Box::new(view_expr(a)), Box::new(view_expr(b))),
        Operation::Mul(a, b) => SpecOperation::Mul(Box::new(view_expr(a)), Box::new(view_expr(b))),
        Operation::Div(a, b) => SpecOperation::Div(Box::new(view_expr(a)), Box::new(view_expr(b))),
        Operation::Mod(a, b) => SpecOperation::Mod(Box::new(view_expr(a)), Box::new(view_expr(b))),
        Operation::Equals(a, b) => SpecOperation::Equals(
            Box::new(view_expr(a)),
            Box::new(view_expr(b)),
        ),
        Operation::GreaterThan(a, b) => SpecOperation::GreaterThan(
            Box::new(view_expr(a)),
            Box::new(view_expr(b)),
        ),
        Operation::LessThan(a, b) => SpecOperation::LessThan(
            Box::new(view_expr(a)),
            Box::new(view_expr(b)),
        ),
        Operation::GreaterEquals(a, b) => SpecOperation::GreaterEquals(
            Box::new(view_expr(a)),
            Box::new(view_expr(b)),
        ),
        Operation::LessEquals(a, b) => SpecOperation::LessEquals(
            Box::new(view_expr(a)),
            Box::new(view_expr(b)),
        ),
        Operation::LBS(a, b) => SpecOperation::LBS(Box::new(view_expr(a)), Box::new(view_expr(b))),
        Operation::RBS(a, b) => SpecOperation::RBS(Box::new(view_expr(a)), Box::new(view_expr(b))),
        Operation::ArrayIndex(a, b) => SpecOperation::ArrayIndex(
            Box::new(view_expr(a)),
            Box::new(view_expr(b)),
        ),
        Operation::BinaryAnd(a, b) => SpecOperation::BinaryAnd(
            Box::new(view_expr(a)),
            Box::new(view_expr(b)),
        ),
        Operation::BinaryOr(a, b) => SpecOperation::BinaryOr(
            Box::new(view_expr(a)),
            Box::new(view_expr(b)),
        ),
        Operation::And(a, b) => SpecOperation::And(Box::new(view_expr(a)), Box::new(view_expr(b))),
        Operation::Or(a, b) => SpecOperation::Or(Box::new(view_expr(a)), Box::new(view_expr(b))),
        Operation::Not(a) => SpecOperation::Not(Box::new(view_expr(a))),
        Operation::Negative(a) => SpecOperation::Negative(Box::new(view_expr(a))),
        Operation::NotEqual(a, b) => SpecOperation::NotEqual(
            Box::new(view_expr(a)),
            Box::new(view_expr(b)),
        ),
        Operation::Increment(a) => SpecOperation::Increment(Box::new(view_expr(a))),
        Operation::Decrement(a) => SpecOperation::Decrement(Box::new(view_expr(a))),
        Operation::Optional(a) => SpecOperation::Optional(Box::new(view_expr(a))),
    }
}

/// The model of an expression list.
pub open spec fn view_exprs(es: Seq<Expression>) -> Seq<SpecExpr>
    decreases es,
{
    if es.len() == 0 {
        Seq::empty()
    } else {
        seq![view_expr(es[0])] + view_exprs(es.drop_first())
    }
}

/// The model of a statement node.
pub open spec fn view_stmt(s: Statement) -> SpecStatement
    decreases s,
{
    SpecStatement { kind: view_stmt_kind(*s.type_), line: s.line_number as nat }
}

/// The model of a statement's form.
pub open spec fn view_stmt_kind(k: StatementType) -> SpecStatementKind
    decreases k,
{
    match k {
        StatementType::Assignment(t, v) => SpecStatementKind::Assignment(
            view_expr(t),
            view_expr(v),
        ),
        StatementType::If(c, body, els) => SpecStatementKind::If(
            view_expr(c),
            view_stmts(body@),
            match els {
                Some(s) => Some(Box::new(view_stmt(s))),
                None => None,
            },
        ),
        StatementType::While(c, body) => SpecStatementKind::While(view_expr(c), view_stmts(body@)),
        StatementType::For(a, b, body) => SpecStatementKind::For(a@, b@, view_stmts(body@)),
        StatementType::Return(v) => SpecStatementKind::Return(
            match v {
                Some(e) => Some(view_expr(e)),
                None => None,
            },
        ),
        StatementType::Ignored(e) => SpecStatementKind::Ignored(view_expr(e)),
        StatementType::Declaration(t, ty, v) => SpecStatementKind::Declaration(
            view_expr(t),
            ty,
            view_expr(v),
        ),
    }
}

/// The model of a statement list.
pub open spec fn view_stmts(ss: Seq<Statement>) -> Seq<SpecStatement>
    decreases ss,
{
    if ss.len() == 0 {
        Seq::empty()
    } else {
        seq![view_stmt(ss[0])] + view_stmts(ss.drop_first())
    }
}

impl View for Expression {
    type V = SpecExpr;

    open spec fn view(&self) -> SpecExpr {
        view_expr(*self)
    }
}

impl View for Statement {
    type V = SpecStatement;

    open spec fn view(&self) -> SpecStatement {
        view_stmt(*self)
    }
}

impl Expression {
    /// Wraps an expression form with the line it began on.
    pub fn new(type_: ExpressionType, line_number: usize) -> (e: Expression)
        ensures
            e@ == (SpecExpr { kind: view_expr_kind(type_), line: line_number as nat }),
    {
        Expression { type_: Box::new(type_), line_number }
    }
}

impl Statement {
    /// Wraps a statement form with the line it began on.
    pub fn new(type_: StatementType, line_number: usize) -> (s: Statement)
        ensures
            s@ == (SpecStatement { kind: view_stmt_kind(type_), line: line_number as nat }),
    {
        Statement { type_: Box::new(type_), line_number }
    }
}

// ---------------------------------------------------------------------------
// Operator tables.
// ---------------------------------------------------------------------------

/// Which operand an operator prefers at equal binding power.
#[allow(non_camel_case_types)]
#[derive(Debug, PartialEq, Eq, Clone, Copy)]
pub enum Polarity {
    LEFT,
    RIGHT,
}

/// The tokens accepted as infix operators.
pub open spec fn sp_valid_infix(t: SpecToken) -> bool {
    ||| t is Plus
    ||| t is Minus
    ||| t is Star
    ||| t is Slash
    ||| t is Percent
    ||| t is LeftShift
    ||| t is RightShift
    ||| t is EqualsEquals
    ||| t is NotEquals
    ||| t is GreaterThan
    ||| t is LessThan
    ||| t is GreaterThanEquals
    ||| t is LessThanEquals
    ||| t is And
    ||| t is AndAnd
    ||| t is Or
    ||| t is OrOr
}

/// The tokens accepted as prefix operators.
pub open spec fn sp_valid_prefix(t: SpecToken) -> bool {
    ||| t is Minus
    ||| t is Not
    ||| t is Increment
    ||| t is Decrement
}

/// The tokens accepted as postfix operators.
pub open spec fn sp_valid_postfix(t: SpecToken) -> bool {
    ||| t is OpenBracket
    ||| t is Increment
    ||| t is Decrement
}

/// The binding power and polarity of an operator token: a larger power binds
/// tighter. Multiplicative binds tighter than additive, then shifts,
/// relational, equality, bitwise and, logical and, bitwise or and logical or,
/// each progressively looser.
pub open spec fn sp_binding(t: SpecToken) -> Option<(nat, Polarity)> {
    match t {
        SpecToken::Plus => Some((8nat, Polarity::LEFT)),
        SpecToken::Minus => Some((8nat, Polarity::LEFT)),
        SpecToken::Star => Some((9nat, Polarity::LEFT)),
        SpecToken::Slash => Some((9nat, Polarity::LEFT)),
        SpecToken::Percent => Some((9nat, Polarity::LEFT)),
        SpecToken::LeftShift => Some((7nat, Polarity::LEFT)),
        SpecToken::RightShift => Some((7nat, Polarity::LEFT)),
        SpecToken::LessThan => Some((6nat, Polarity::LEFT)),
        SpecToken::LessThanEquals => Some((6nat, Polarity::LEFT)),
        SpecToken::GreaterThan => Some((6nat, Polarity::LEFT)),
        SpecToken::GreaterThanEquals => Some((6nat, Polarity::LEFT)),
        SpecToken::EqualsEquals => Some((5nat, Polarity::LEFT)),
        SpecToken::NotEquals => Some((5nat, Polarity::LEFT)),
        SpecToken::And => Some((4nat, Polarity::LEFT)),
        SpecToken::AndAnd => Some((3nat, Polarity::LEFT)),
        SpecToken::Or => Some((2nat, Polarity::LEFT)),
        SpecToken::OrOr => Some((1nat, Polarity::LEFT)),
        SpecToken::Equals => Some((17nat, Polarity::RIGHT)),
        SpecToken::PlusEquals => Some((18nat, Polarity::RIGHT)),
        SpecToken::MinusEquals => Some((18nat, Polarity::RIGHT)),
        SpecToken::MultiplyEquals => Some((19nat, Polarity::RIGHT)),
        SpecToken::DivideEquals => Some((19nat, Polarity::RIGHT)),
        SpecToken::PercentEquals => Some((20nat, Polarity::RIGHT)),
        _ => None,
    }
}

/// The operation an infix operator token builds over two operands.
pub open spec fn sp_infix_op(t: SpecToken, a: SpecExpr, b: SpecExpr) -> Option<SpecOperation> {
    match t {
        SpecToken::Plus => Some(SpecOperation::Add(Box::new(a), Box::new(b))),
        SpecToken::Minus => Some(SpecOperation::Sub(Box::new(a), Box::new(b))),
        SpecToken::Star => Some(SpecOperation::Mul(Box::new(a), Box::new(b))),
        SpecToken::Slash => Some(SpecOperation::Div(Box::new(a), Box::new(b))),
        SpecToken::Percent => Some(SpecOperation::Mod(Box::new(a), Box::new(b))),
        SpecToken::LeftShift => Some(SpecOperation::LBS(Box::new(a), Box::new(b))),
        SpecToken::RightShift => Some(SpecOperation::RBS(Box::new(a), Box::new(b))),
        SpecToken::EqualsEquals => Some(SpecOperation::Equals(Box::new(a), Box::new(b))),
        SpecToken::NotEquals => Some(SpecOperation::NotEqual(Box::new(a), Box::new(b))),
        SpecToken::GreaterThan => Some(SpecOperation::GreaterThan(Box::new(a), Box::new(b))),
        SpecToken::LessThan => Some(SpecOperation::LessThan(Box::new(a), Box::new(b))),
        SpecToken::GreaterThanEquals => Some(
            SpecOperation::GreaterEquals(Box::new(a), Box::new(b)),
        ),
        SpecToken::LessThanEquals => Some(SpecOperation::LessEquals(Box::new(a), Box::new(b))),
        SpecToken::And => Some(SpecOperation::BinaryAnd(Box::new(a), Box::new(b))),
        SpecToken::AndAnd => Some(SpecOperation::And(Box::new(a), Box::new(b))),
        SpecToken::Or => Some(SpecOperation::BinaryOr(Box::new(a), Box::new(b))),
        SpecToken::OrOr => Some(SpecOperation::Or(Box::new(a), Box::new(b))),
        _ => None,
    }
}

/// The operation a prefix operator token builds over its operand.
pub open spec fn sp_prefix_op(t: SpecToken, a: SpecExpr) -> Option<SpecOperation> {
    match t {
        SpecToken::Minus => Some(SpecOperation::Negative(Box::new(a))),
        SpecToken::Not => Some(SpecOperation::Not(Box::new(a))),
        SpecToken::Increment => Some(SpecOperation::Increment(Box::new(a))),
        SpecToken::Decrement => Some(SpecOperation::Decrement(Box::new(a))),
        _ => None,
    }
}

/// Whether `t` is accepted as an infix operator.
pub fn valid_infix_operator(t: &Token) -> (b: bool)
    ensures
        b == sp_valid_infix(t@),
{
    matches!(
        t,
        Token::Plus | Token::Minus | Token::Star | Token::Slash | Token::Percent
            | Token::LeftShift | Token::RightShift | Token::EqualsEquals | Token::NotEquals
            | Token::GreaterThan | Token::LessThan | Token::GreaterThanEquals
            | Token::LessThanEquals | Token::And | Token::AndAnd | Token::Or | Token::OrOr
    )
}

/// Whether `t` is accepted as a prefix operator.
pub fn valid_prefix_operator(t: &Token) -> (b: bool)
    ensures
        b == sp_valid_prefix(t@),
{
    matches!(t, Token::Minus | Token::Not | Token::Increment | Token::Decrement)
}

/// Whether `t` is accepted as a postfix operator.
pub fn valid_postfix_operator(t: &Token) -> (b: bool)
    ensures
        b == sp_valid_postfix(t@),
{
    matches!(t, Token::OpenBracket | Token::Increment | Token::Decrement)
}

/// The binding power and polarity of the operator at `entry`, or an error for
/// a token with no binding power.
pub fn get_binding(entry: &TokenEntry) -> (r: Result<(u8, Polarity), ParseError>)
    ensures
        match r {
            Ok(v) => sp_binding(entry.token@) == Some((v.0 as nat, v.1)),
            Err(e) => sp_binding(entry.token@) is None && e@ == sp_error(
                Expected::InfixOperator,
                entry@,
            ),
        },
{
    match &entry.token {
        Token::Plus => Ok((8, Polarity::LEFT)),
        Token::Minus => Ok((8, Polarity::LEFT)),
        Token::Star => Ok((9, Polarity::LEFT)),
        Token::Slash => Ok((9, Polarity::LEFT)),
        Token::Percent => Ok((9, Polarity::LEFT)),
        Token::LeftShift => Ok((7, Polarity::LEFT)),
        Token::RightShift => Ok((7, Polarity::LEFT)),
        Token::LessThan => Ok((6, Polarity::LEFT)),
        Token::LessThanEquals => Ok((6, Polarity::LEFT)),
        Token::GreaterThan => Ok((6, Polarity::LEFT)),
        Token::GreaterThanEquals => Ok((6, Polarity::LEFT)),
        Token::EqualsEquals => Ok((5, Polarity::LEFT)),
        Token::NotEquals => Ok((5, Polarity::LEFT)),
        Token::And => Ok((4, Polarity::LEFT)),
        Token::AndAnd => Ok((3, Polarity::LEFT)),
        Token::Or => Ok((2, Polarity::LEFT)),
        Token::OrOr => Ok((1, Polarity::LEFT)),
        Token::Equals => Ok((17, Polarity::RIGHT)),
        Token::PlusEquals => Ok((18, Polarity::RIGHT)),
        Token::MinusEquals => Ok((18, Polarity::RIGHT)),
        Token::MultiplyEquals => Ok((19, Polarity::RIGHT)),
        Token::DivideEquals => Ok((19, Polarity::RIGHT)),
        Token::PercentEquals => Ok((20, Polarity::RIGHT)),
        _ => Err(make_error(Expected::InfixOperator, entry.duplicate())),
    }
}

/// The operation of an expression whose form is an operation.
pub open spec fn view_op_of(e: SpecExpr) -> SpecOperation {
    e.kind->Operation_0
}

/// Builds the infix operation `entry` names over `first` and `second`, or an
/// error for a token that is no infix operator.
pub fn create_infix_operator(entry: TokenEntry, first: Expression, second: Expression) -> (r:
    Result<Expression, ParseError>)
    ensures
        match r {
            Ok(e) => sp_infix_op(entry.token@, first@, second@) == Some::<SpecOperation>(
                view_op_of(e@),
            ) && e@.kind is Operation && e@.line == entry.line_number as nat,
            Err(er) => sp_infix_op(entry.token@, first@, second@) is None && er@ == sp_error(
                Expected::InfixOperator,
                entry@,
            ),
        },
{
    let line = entry.line_number;
    match entry.token {
        Token::Plus => Ok(Expression::new(
            ExpressionType::Operation(Operation::Add(first, second)),
            line,
        )),
        Token::Minus => Ok(Expression::new(
            ExpressionType::Operation(Operation::Sub(first, second)),
            line,
        )),
        Token::Star => Ok(Expression::new(
            ExpressionType::Operation(Operation::Mul(first, second)),
            line,
        )),
        Token::Slash => Ok(Expression::new(
            ExpressionType::Operation(Operation::Div(first, second)),
            line,
        )),
        Token::Percent => Ok(Expression::new(
            ExpressionType::Operation(Operation::Mod(first, second)),
            line,
        )),
        Token::LeftShift => Ok(Expression::new(
            ExpressionType::Operation(Operation::LBS(first, second)),
            line,
        )),
        Token::RightShift => Ok(Expression::new(
            ExpressionType::Operation(Operation::RBS(first, second)),
            line,
        )),
        Token::EqualsEquals => Ok(Expression::new(
            ExpressionType::Operation(Operation::Equals(first, second)),
            line,
        )),
        Token::NotEquals => Ok(Expression::new(
            ExpressionType::Operation(Operation::NotEqual(first, second)),
            line,
        )),
        Token::GreaterThan => Ok(Expression::new(
            ExpressionType::Operation(Operation::GreaterThan(first, second)),
            line,
        )),
        Token::LessThan => Ok(Expression::new(
            ExpressionType::Operation(Operation::LessThan(first, second)),
            line,
        )),
        Token::GreaterThanEquals => Ok(Expression::new(
            ExpressionType::Operation(Operation::GreaterEquals(first, second)),
            line,
        )),
        Token::LessThanEquals => Ok(Expression::new(
            ExpressionType::Operation(Operation::LessEquals(first, second)),
            line,
        )),
        Token::And => Ok(Expression::new(
            ExpressionType::Operation(Operation::BinaryAnd(first, second)),
            line,
        )),
        Token::AndAnd => Ok(Expression::new(
            ExpressionType::Operation(Operation::And(first, second)),
            line,
        )),
        Token::Or => Ok(Expression::new(
            ExpressionType::Operation(Operation::BinaryOr(first, second)),
            line,
        )),
        Token::OrOr => Ok(Expression::new(
            ExpressionType::Operation(Operation::Or(first, second)),
            line,
        )),
        t => Err(make_error(
            Expected::InfixOperator,
            TokenEntry { token: t, line_number: line },
        )),
    }
}

/// Builds the prefix operation `entry` names over `side`.
pub fn create_prefix_operator(entry: TokenEntry, side: Expression) -> (r: Expression)
    requires
        sp_valid_prefix(entry.token@),
    ensures
        sp_prefix_op(entry.token@, side@) == Some::<SpecOperation>(view_op_of(r@)),
        r@.kind is Operation,
        r@.line == entry.line_number as nat,
{
    let line = entry.line_number;
    match entry.token {
        Token::Minus => Expression::new(
            ExpressionType::Operation(Operation::Negative(side)),
            line,
        ),
        Token::Not => Expression::new(ExpressionType::Operation(Operation::Not(side)), line),
        Token::Increment => Expression::new(
            ExpressionType::Operation(Operation::Increment(side)),
            line,
        ),
        _ => Expression::new(ExpressionType::Operation(Operation::Decrement(side)), line),
    }
}

/// Builds a postfix increment or decrement over `side`.
pub fn create_postfix_operator(entry: TokenEntry, side: Expression) -> (r: Expression)
    requires
        entry.token@ is Increment || entry.token@ is Decrement,
    ensures
        (entry.token@ is Increment ==> view_op_of(r@) == SpecOperation::Increment(
            Box::new(side@),
        )),
        (entry.token@ is Decrement ==> view_op_of(r@) == SpecOperation::Decrement(
            Box::new(side@),
        )),
        r@.kind is Operation,
        r@.line == entry.line_number as nat,
{
    let line = entry.line_number;
    match entry.token {
        Token::Increment => Expression::new(
            ExpressionType::Operation(Operation::Increment(side)),
            line,
        ),
        _ => Expression::new(ExpressionType::Operation(Operation::Decrement(side)), line),
    }
}

// ---------------------------------------------------------------------------
// Deep copies of expression trees: compound assignments duplicate their
// target structurally, never share it.
// ---------------------------------------------------------------------------

/// A structurally equal, exclusively owned copy of an expression.
pub fn copy_expr(e: &Expression) -> (r: Expression)
    ensures
        r@ == e@,
    decreases *e,
{
    Expression { type_: Box::new(copy_expr_kind(&e.type_)), line_number: e.line_number }
}

/// A copy of an expression's form.
fn copy_expr_kind(k: &ExpressionType) -> (r: ExpressionType)
    ensures
        view_expr_kind(r) == view_expr_kind(*k),
    decreases *k,
{
    match k {
        ExpressionType::Operation(op) => ExpressionType::Operation(copy_op(op)),
        ExpressionType::Field(s) => ExpressionType::Field(s.clone()),
        ExpressionType::Call(s, args) => ExpressionType::Call(s.clone(), copy_exprs(args)),
        ExpressionType::StringLiteral(s) => ExpressionType::StringLiteral(s.clone()),
        ExpressionType::CharLiteral(c) => ExpressionType::CharLiteral(*c),
        ExpressionType::BoolLiteral(b) => ExpressionType::BoolLiteral(*b),
        ExpressionType::IntLiteral(i) => ExpressionType::IntLiteral(*i),
        ExpressionType::FloatLiteral(s) => ExpressionType::FloatLiteral(s.clone()),
        ExpressionType::ListLiteral(es) => ExpressionType::ListLiteral(copy_exprs(es)),
        ExpressionType::Empty => ExpressionType::Empty,
    }
}

/// A copy of an operation node.
fn copy_op(op: &Operation) -> (r: Operation)
    ensures
        view_op(r) == view_op(*op),
    decreases *op,
{
    match op {
        Operation::Construction(es) => Operation::Construction(copy_exprs(es)),
        Operation::Add(a, b) => Operation::Add(copy_expr(a), copy_expr(b)),
        Operation::Sub(a, b) => Operation::Sub(copy_expr(a), copy_expr(b)),
        Operation::Mul(a, b) => Operation::Mul(copy_expr(a), copy_expr(b)),
        Operation::Div(a, b) => Operation::Div(copy_expr(a), copy_expr(b)),
        Operation::Mod(a, b) => Operation::Mod(copy_expr(a), copy_expr(b)),
        Operation::Equals(a, b) => Operation::Equals(copy_expr(a), copy_expr(b)),
        Operation::GreaterThan(a, b) => Operation::GreaterThan(copy_expr(a), copy_expr(b)),
        Operation::LessThan(a, b) => Operation::LessThan(copy_expr(a), copy_expr(b)),
        Operation::GreaterEquals(a, b) => Operation::GreaterEquals(copy_expr(a), copy_expr(b)),
        Operation::LessEquals(a, b) => Operation::LessEquals(copy_expr(a), copy_expr(b)),
        Operation::LBS(a, b) => Operation::LBS(copy_expr(a), copy_expr(b)),
        Operation::RBS(a, b) => Operation::RBS(copy_expr(a), copy_expr(b)),
        Operation::ArrayIndex(a, b) => Operation::ArrayIndex(copy_expr(a), copy_expr(b)),
        Operation::BinaryAnd(a, b) => Operation::BinaryAnd(copy_expr(a), copy_expr(b)),
        Operation::BinaryOr(a, b) => Operation::BinaryOr(copy_expr(a), copy_expr(b)),
        Operation::And(a, b) => Operation::And(copy_expr(a), copy_expr(b)),
        Operation::Or(a, b) => Operation::Or(copy_expr(a), copy_expr(b)),
        Operation::Not(a) => Operation::Not(copy_expr(a)),
        Operation::Negative(a) => Operation::Negative(copy_expr(a)),
        Operation::NotEqual(a, b) => Operation::NotEqual(copy_expr(a), copy_expr(b)),
        Operation::Increment(a) => Operation::Increment(copy_expr(a)),
        Operation::Decrement(a) => Operation::Decrement(copy_expr(a)),
        Operation::Optional(a) => Operation::Optional(copy_expr(a)),
    }
}

/// A copy of an expression list.
fn copy_exprs(es: &Vec<Expression>) -> (r: Vec<Expression>)
    ensures
        view_exprs(r@) == view_exprs(es@),
    decreases *es,
{
    let mut out: Vec<Expression> = Vec::new();
    let mut i: usize = 0;
    proof {
        lemma_view_exprs_props(es@);
    }
    while i < es.len()
        invariant
            i <= es@.len(),
            view_exprs(out@) == view_exprs(es@).subrange(0, i as int),
        decreases es@.len() - i,
    {
        proof {
            assert(decreases_to!(*es => es@[i as int]));
        }
        let ghost out0 = out@;
        let c = copy_expr(&es[i]);
        out.push(c);
        i = i + 1;
        proof {
            lemma_view_exprs_push(out0, c);
            lemma_view_exprs_props(es@);
            assert(view_exprs(out@) =~= view_exprs(es@).subrange(0, i as int));
        }
    }
    proof {
        assert(view_exprs(es@).subrange(0, es@.len() as int) =~= view_exprs(es@));
    }
    out
}

/// The model of an expression list grows element-wise.
pub proof fn lemma_view_exprs_push(es: Seq<Expression>, e: Expression)
    ensures
        view_exprs(es.push(e)) == view_exprs(es).push(view_expr(e)),
    decreases es,
{
    if es.len() == 0 {
        assert(es.push(e).drop_first() =~= Seq::<Expression>::empty());
        assert(es.push(e)[0] == e);
        assert(view_exprs(Seq::<Expression>::empty()) == Seq::<SpecExpr>::empty());
        assert(view_exprs(es.push(e)) == seq![view_expr(e)] + Seq::<SpecExpr>::empty());
        assert(seq![view_expr(e)] + Seq::<SpecExpr>::empty() =~= view_exprs(es).push(
            view_expr(e),
        ));
    } else {
        assert(es.push(e).drop_first() =~= es.drop_first().push(e));
        assert(es.push(e)[0] == es[0]);
        lemma_view_exprs_push(es.drop_first(), e);
        assert(view_exprs(es.push(e)) == seq![view_expr(es[0])] + view_exprs(
            es.drop_first(),
        ).push(view_expr(e)));
        assert(seq![view_expr(es[0])] + view_exprs(es.drop_first()).push(view_expr(e)) =~= (
        seq![view_expr(es[0])] + view_exprs(es.drop_first())).push(view_expr(e)));
    }
}

/// The model of a statement list grows element-wise.
pub proof fn lemma_view_stmts_push(ss: Seq<Statement>, s: Statement)
    ensures
        view_stmts(ss.push(s)) == view_stmts(ss).push(view_stmt(s)),
    decreases ss,
{
    if ss.len() == 0 {
        assert(ss.push(s).drop_first() =~= Seq::<Statement>::empty());
        assert(ss.push(s)[0] == s);
        assert(view_stmts(Seq::<Statement>::empty()) == Seq::<SpecStatement>::empty());
        assert(view_stmts(ss.push(s)) == seq![view_stmt(s)] + Seq::<SpecStatement>::empty());
        assert(seq![view_stmt(s)] + Seq::<SpecStatement>::empty() =~= view_stmts(ss).push(
            view_stmt(s),
        ));
    } else {
        assert(ss.push(s).drop_first() =~= ss.drop_first().push(s));
        assert(ss.push(s)[0] == ss[0]);
        lemma_view_stmts_push(ss.drop_first(), s);
        assert(view_stmts(ss.push(s)) == seq![view_stmt(ss[0])] + view_stmts(
            ss.drop_first(),
        ).push(view_stmt(s)));
        assert(seq![view_stmt(ss[0])] + view_stmts(ss.drop_first()).push(view_stmt(s)) =~= (
        seq![view_stmt(ss[0])] + view_stmts(ss.drop_first())).push(view_stmt(s)));
    }
}

/// The model of an expression list has the list's length and the models of
/// its elements.
pub proof fn lemma_view_exprs_props(es: Seq<Expression>)
    ensures
        view_exprs(es).len() == es.len(),
        forall|i: int| 0 <= i < es.len() ==> view_exprs(es)[i] == view_expr(es[i]),
    decreases es,
{
    if es.len() > 0 {
        lemma_view_exprs_props(es.drop_first());
    }
}

/// The model of a statement list has the list's length and the models of its
/// elements.
pub proof fn lemma_view_stmts_props(ss: Seq<Statement>)
    ensures
        view_stmts(ss).len() == ss.len(),
        forall|i: int| 0 <= i < ss.len() ==> view_stmts(ss)[i] == view_stmt(ss[i]),
    decreases ss,
{
    if ss.len() > 0 {
        lemma_view_stmts_props(ss.drop_first());
    }
}

// ---------------------------------------------------------------------------
// The expression grammar: precedence climbing over side expressions, where a
// side is an optional prefix operator, a primary form and an optional postfix
// operator.
// ---------------------------------------------------------------------------

/// The exec result matches the model's.
pub open spec fn expr_res(r: Result<Expression, ParseError>, s: Result<
    SpecExpr,
    SpecParseError,
>) -> bool {
    match r {
        Ok(e) => s == Ok::<SpecExpr, SpecParseError>(e@),
        Err(er) => s == Err::<SpecExpr, SpecParseError>(er@),
    }
}

/// Parses a primary form: a literal, a field reference or call, a
/// parenthesized expression, or a list literal.
pub open spec fn sp_parse_primary(ts: Seq<SpecTokenEntry>) -> Parsed<SpecExpr>
    decreases ts.len(), 0nat,
{
    let (st, r1) = sp_eat(ts);
    match st.token {
        SpecToken::FloatLiteral(f) => p_ok(
            SpecExpr { kind: SpecExprKind::FloatLiteral(f), line: st.line_number },
            r1,
        ),
        SpecToken::IntLiteral(i) => p_ok(
            SpecExpr { kind: SpecExprKind::IntLiteral(i), line: st.line_number },
            r1,
        ),
        SpecToken::StringLiteral(v) => p_ok(
            SpecExpr { kind: SpecExprKind::StringLiteral(v), line: st.line_number },
            r1,
        ),
        SpecToken::BoolLiteral(b) => p_ok(
            SpecExpr { kind: SpecExprKind::BoolLiteral(b), line: st.line_number },
            r1,
        ),
        SpecToken::Identifier(name) => if sp_peek_entry(r1).token is OpenParenthesis {
            let args = sp_call_args(r1);
            match args.res {
                Err(e) => p_pass(e, args.rest),
                Ok(a) => p_ok(
                    SpecExpr { kind: SpecExprKind::Call(name, a), line: st.line_number },
                    args.rest,
                ),
            }
        } else {
            p_ok(SpecExpr { kind: SpecExprKind::Field(name), line: st.line_number }, r1)
        },
        SpecToken::OpenParenthesis => {
            let inner = sp_parse_expression(r1, 0);
            match inner.res {
                Err(e) => p_pass(e, inner.rest),
                Ok(v) => {
                    let (ct, r2) = sp_eat(inner.rest);
                    if ct.token is CloseParenthesis {
                        p_ok(v, r2)
                    } else {
                        p_err(Expected::CloseParenthesis, ct, r2)
                    }
                },
            }
        },
        SpecToken::EmptyList => p_ok(
            SpecExpr { kind: SpecExprKind::ListLiteral(Seq::empty()), line: st.line_number },
            r1,
        ),
        SpecToken::OpenBracket => {
            let elems = sp_list_more(r1, Seq::empty());
            match elems.res {
                Err(e) => p_pass(e, elems.rest),
                Ok(es) => p_ok(
                    SpecExpr { kind: SpecExprKind::ListLiteral(es), line: st.line_number },
                    elems.rest,
                ),
            }
        },
        _ => p_err(Expected::Primary, st, r1),
    }
}

/// Parses a side: an optional prefix operator, then a primary form, then an
/// optional postfix operator (increment, decrement, or indexing).
pub open spec fn sp_parse_side(ts: Seq<SpecTokenEntry>) -> Parsed<SpecExpr>
    decreases ts.len(), 1nat,
{
    let pk = sp_peek_entry(ts);
    let has_prefix = sp_valid_prefix(pk.token);
    let r0 = if has_prefix {
        sp_eat(ts).1
    } else {
        ts
    };
    let prim = sp_parse_primary(r0);
    match prim.res {
        Err(e) => p_pass(e, prim.rest),
        Ok(side0) => {
            let side1 = if has_prefix {
                SpecExpr {
                    kind: SpecExprKind::Operation(sp_prefix_op(pk.token, side0)->Some_0),
                    line: pk.line_number,
                }
            } else {
                side0
            };
            let pk2 = sp_peek_entry(prim.rest);
            if pk2.token is Increment {
                let r3 = sp_eat(prim.rest).1;
                p_ok(
                    SpecExpr {
                        kind: SpecExprKind::Operation(SpecOperation::Increment(Box::new(side1))),
                        line: pk2.line_number,
                    },
                    r3,
                )
            } else if pk2.token is Decrement {
                let r3 = sp_eat(prim.rest).1;
                p_ok(
                    SpecExpr {
                        kind: SpecExprKind::Operation(SpecOperation::Decrement(Box::new(side1))),
                        line: pk2.line_number,
                    },
                    r3,
                )
            } else if pk2.token is OpenBracket {
                let r3 = sp_eat(prim.rest).1;
                let idx = if r3.len() < ts.len() {
                    sp_parse_expression(r3, 0)
                } else {
                    p_stopped(Expected::Primary, r3)
                };
                match idx.res {
                    Err(e) => p_pass(e, idx.rest),
                    Ok(iv) => {
                        let (cb, r4) = sp_eat(idx.rest);
                        if cb.token is CloseBracket {
                            p_ok(
                                SpecExpr {
                                    kind: SpecExprKind::Operation(
                                        SpecOperation::ArrayIndex(Box::new(side1), Box::new(iv)),
                                    ),
                                    line: pk2.line_number,
                                },
                                r4,
                            )
                        } else {
                            p_err(Expected::CloseBracketAfterIndex, cb, r4)
                        }
                    },
                }
            } else {
                p_ok(side1, prim.rest)
            }
        },
    }
}

/// Continues an expression from an accumulated left-hand side: while the next
/// token is an infix operator whose binding power beats the threshold, the
/// right operand is parsed at that power and the sides are combined.
pub open spec fn sp_binary_more(
    ts: Seq<SpecTokenEntry>,
    first: SpecExpr,
    min: nat,
) -> Parsed<SpecExpr>
    decreases ts.len(), 2nat,
{
    let pk = sp_peek_entry(ts);
    if pk.token is NewLine || pk.token is CloseParenthesis || pk.token is EOF {
        p_ok(first, ts)
    } else if !sp_valid_infix(pk.token) {
        p_ok(first, ts)
    } else {
        match sp_binding(pk.token) {
            // every accepted infix operator has a binding power
            None => p_err(Expected::InfixOperator, pk, ts),
            Some((bp, pol)) => if bp < min || (bp == min && pol == Polarity::LEFT) {
                p_ok(first, ts)
            } else {
                let (op, r1) = sp_eat(ts);
                let second = sp_parse_binary(r1, bp);
                match second.res {
                    Err(e) => p_pass(e, second.rest),
                    Ok(sec) => match sp_infix_op(op.token, first, sec) {
                        // every accepted infix operator builds an operation
                        None => p_err(Expected::InfixOperator, op, second.rest),
                        Some(o) => {
                            let combined = SpecExpr {
                                kind: SpecExprKind::Operation(o),
                                line: op.line_number,
                            };
                            if second.rest.len() < ts.len() {
                                sp_binary_more(second.rest, combined, min)
                            } else {
                                p_stopped(Expected::Primary, second.rest)
                            }
                        },
                    },
                }
            },
        }
    }
}

/// Parses a side, then continues it with infix operators above `min`.
pub open spec fn sp_parse_binary(ts: Seq<SpecTokenEntry>, min: nat) -> Parsed<SpecExpr>
    decreases ts.len(), 3nat,
{
    let side = sp_parse_side(ts);
    match side.res {
        Err(e) => p_pass(e, side.rest),
        Ok(first) => if side.rest.len() <= ts.len() {
            sp_binary_more(side.rest, first, min)
        } else {
            p_stopped(Expected::Primary, side.rest)
        },
    }
}

/// Parses an expression at the given minimum binding power. An expression
/// consisting of nothing but a line break is the empty expression; the break
/// is consumed.
pub open spec fn sp_parse_expression(ts: Seq<SpecTokenEntry>, min: nat) -> Parsed<SpecExpr>
    decreases ts.len(), 4nat,
{
    let pk = sp_peek_entry(ts);
    if pk.token is NewLine {
        let r1 = sp_eat(ts).1;
        p_ok(SpecExpr { kind: SpecExprKind::Empty, line: pk.line_number }, r1)
    } else {
        sp_parse_binary(ts, min)
    }
}

/// Parses the elements of a bracketed list literal after the opening
/// bracket: expressions separated by commas, closed by a bracket.
pub open spec fn sp_list_more(ts: Seq<SpecTokenEntry>, acc: Seq<SpecExpr>) -> Parsed<
    Seq<SpecExpr>,
>
    decreases ts.len(), 5nat,
{
    let ex = sp_parse_expression(ts, 0);
    match ex.res {
        Err(e) => p_pass(e, ex.rest),
        Ok(v) => {
            let (t2, r2) = sp_eat(ex.rest);
            match t2.token {
                SpecToken::CloseBracket => p_ok(acc.push(v), r2),
                SpecToken::Comma => if r2.len() < ts.len() {
                    sp_list_more(r2, acc.push(v))
                } else {
                    p_stopped(Expected::CommaOrCloseBracket, r2)
                },
                _ => p_err(Expected::CommaOrCloseBracket, t2, r2),
            }
        },
    }
}

/// Parses the arguments of a call after the opening parenthesis: expressions
/// separated by commas, closed by a parenthesis.
pub open spec fn sp_args_more(ts: Seq<SpecTokenEntry>, acc: Seq<SpecExpr>) -> Parsed<
    Seq<SpecExpr>,
>
    decreases ts.len(), 5nat,
{
    let ex = sp_parse_expression(ts, 0);
    match ex.res {
        Err(e) => p_pass(e, ex.rest),
        Ok(v) => {
            let (t2, r2) = sp_eat(ex.rest);
            match t2.token {
                SpecToken::CloseParenthesis => p_ok(acc.push(v), r2),
                SpecToken::Comma => if r2.len() < ts.len() {
                    sp_args_more(r2, acc.push(v))
                } else {
                    p_stopped(Expected::CommaOrCloseParenthesis, r2)
                },
                _ => p_err(Expected::CommaOrCloseParenthesis, t2, r2),
            }
        },
    }
}

/// Parses a call's argument list, parentheses included.
pub open spec fn sp_call_args(ts: Seq<SpecTokenEntry>) -> Parsed<Seq<SpecExpr>>
    decreases ts.len(), 6nat,
{
    let (op, r1) = sp_eat(ts);
    if !(op.token is OpenParenthesis) {
        p_err(Expected::OpenParenthesisForArguments, op, r1)
    } else if sp_peek_entry(r1).token is CloseParenthesis {
        p_ok(Seq::empty(), sp_eat(r1).1)
    } else {
        sp_args_more(r1, Seq::empty())
    }
}

/// Requires the next token to end the statement's line: a line break, which
/// is consumed, or the end of the stream.
pub open spec fn sp_new_line(ts: Seq<SpecTokenEntry>) -> Parsed<()> {
    let (t, r) = sp_eat(ts);
    if t.token is NewLine || t.token is EOF {
        p_ok((), r)
    } else {
        p_err(Expected::NewLineAfterStatement, t, r)
    }
}

/// Parses an expression at the given minimum binding power; see
/// [`sp_parse_expression`] for the grammar.
pub fn parse_expression(ts: &mut TokenStream, min_binding: u8) -> (r: Result<
    Expression,
    ParseError,
>)
    requires
        old(ts).wf(),
    ensures
        ({
            let p = sp_parse_expression(old(ts).remaining(), min_binding as nat);
            stepped(*old(ts), *final(ts), p.rest) && expr_res(r, p.res) && (r is Ok ==> old(
                ts,
            ).pos < final(ts).pos)
        }),
    decreases old(ts).remaining().len(), 4nat,
{
    let pk = ts.peek_entry();
    if matches!(pk.token, Token::NewLine) {
        let nl = ts.eat();
        Ok(Expression::new(ExpressionType::Empty, nl.line_number))
    } else {
        parse_binary(ts, min_binding)
    }
}

/// Parses a side and continues it with infix operators; see
/// [`sp_parse_binary`].
#[verifier::loop_isolation(false)]
fn parse_binary(ts: &mut TokenStream, min_binding: u8) -> (r: Result<Expression, ParseError>)
    requires
        old(ts).wf(),
    ensures
        ({
            let p = sp_parse_binary(old(ts).remaining(), min_binding as nat);
            stepped(*old(ts), *final(ts), p.rest) && expr_res(r, p.res) && (r is Ok ==> old(
                ts,
            ).pos < final(ts).pos)
        }),
    decreases old(ts).remaining().len(), 3nat,
{
    let ghost rem0 = old(ts).remaining();
    let ghost target = sp_parse_binary(rem0, min_binding as nat);
    let mut first = match parse_side(ts) {
        Ok(v) => v,
        Err(e) => {
            return Err(e);
        },
    };
    proof {
        assert(ts.remaining().len() <= rem0.len());
        assert(target == sp_binary_more(ts.remaining(), first@, min_binding as nat));
    }
    loop
        invariant
            ts.wf(),
            ts.tokens == old(ts).tokens,
            old(ts).pos < ts.pos,
            sp_binary_more(ts.remaining(), first@, min_binding as nat) == target,
        decreases ts.remaining().len(),
    {
        let ghost rem_here = ts.remaining();
        let pk = ts.peek_entry();
        if matches!(pk.token, Token::NewLine | Token::CloseParenthesis | Token::EOF) {
            proof {
                assert(sp_binary_more(rem_here, first@, min_binding as nat) == p_ok::<SpecExpr>(
                    first@,
                    rem_here,
                ));
            }
            return Ok(first);
        }
        if !valid_infix_operator(&pk.token) {
            proof {
                assert(sp_binary_more(rem_here, first@, min_binding as nat) == p_ok::<SpecExpr>(
                    first@,
                    rem_here,
                ));
            }
            return Ok(first);
        }
        let (bp, pol) = match get_binding(&pk) {
            Ok(v) => v,
            Err(e) => {
                return Err(e);
            },
        };
        if bp < min_binding || (bp == min_binding && matches!(pol, Polarity::LEFT)) {
            proof {
                assert(sp_binary_more(rem_here, first@, min_binding as nat) == p_ok::<SpecExpr>(
                    first@,
                    rem_here,
                ));
            }
            return Ok(first);
        }
        let op = ts.eat();
        let second = match parse_binary(ts, bp) {
            Ok(v) => v,
            Err(e) => {
                return Err(e);
            },
        };
        proof {
            assert(ts.remaining().len() < rem_here.len());
        }
        let ghost f0 = first@;
        first = match create_infix_operator(op, first, second) {
            Ok(v) => v,
            Err(e) => {
                return Err(e);
            },
        };
        proof {
            assert(sp_binary_more(rem_here, f0, min_binding as nat) == sp_binary_more(
                ts.remaining(),
                first@,
                min_binding as nat,
            ));
        }
    }
}

/// Parses the elements of a bracketed list literal after the opening
/// bracket; see [`sp_list_more`].
#[verifier::loop_isolation(false)]
fn parse_list_elems(ts: &mut TokenStream) -> (r: Result<Vec<Expression>, ParseError>)
    requires
        old(ts).wf(),
    ensures
        ({
            let p = sp_list_more(old(ts).remaining(), Seq::empty());
            stepped(*old(ts), *final(ts), p.rest) && match (r, p.res) {
                (Ok(v), Ok(sv)) => view_exprs(v@) == sv,
                (Err(e), Err(se)) => e@ == se,
                _ => false,
            }
        }),
    decreases old(ts).remaining().len(), 5nat,
{
    let ghost rem0 = old(ts).remaining();
    let ghost target = sp_list_more(rem0, Seq::empty());
    let mut literals: Vec<Expression> = Vec::new();
    loop
        invariant
            ts.wf(),
            ts.tokens == old(ts).tokens,
            old(ts).pos <= ts.pos,
            sp_list_more(ts.remaining(), view_exprs(literals@)) == target,
        decreases ts.remaining().len(),
    {
        let ghost rem_here = ts.remaining();
        let ghost acc0 = view_exprs(literals@);
        let v = match parse_expression(ts, 0) {
            Ok(v) => v,
            Err(e) => {
                return Err(e);
            },
        };
        let t2 = ts.eat();
        let ghost lits0 = literals@;
        match t2.token {
            Token::CloseBracket => {
                literals.push(v);
                proof {
                    lemma_view_exprs_push(lits0, v);
                    assert(sp_list_more(rem_here, acc0) == p_ok::<Seq<SpecExpr>>(
                        view_exprs(literals@),
                        ts.remaining(),
                    ));
                }
                return Ok(literals);
            },
            Token::Comma => {
                literals.push(v);
                proof {
                    lemma_view_exprs_push(lits0, v);
                    assert(ts.remaining().len() < rem_here.len());
                    assert(sp_list_more(rem_here, acc0) == sp_list_more(
                        ts.remaining(),
                        view_exprs(literals@),
                    ));
                }
            },
            _ => {
                proof {
                    assert(sp_list_more(rem_here, acc0).res == Err::<
                        Seq<SpecExpr>,
                        SpecParseError,
                    >(sp_error(Expected::CommaOrCloseBracket, t2@)));
                }
                return Err(make_error(Expected::CommaOrCloseBracket, t2));
            },
        }
    }
}

/// Parses a call's argument list, parentheses included; see [`sp_call_args`].
#[verifier::loop_isolation(false)]
fn parse_call_args(ts: &mut TokenStream) -> (r: Result<Vec<Expression>, ParseError>)
    requires
        old(ts).wf(),
    ensures
        ({
            let p = sp_call_args(old(ts).remaining());
            stepped(*old(ts), *final(ts), p.rest) && match (r, p.res) {
                (Ok(v), Ok(sv)) => view_exprs(v@) == sv,
                (Err(e), Err(se)) => e@ == se,
                _ => false,
            }
        }),
    decreases old(ts).remaining().len(), 6nat,
{
    let ghost rem0 = old(ts).remaining();
    let ghost target = sp_call_args(rem0);
    let op = ts.eat();
    if !matches!(op.token, Token::OpenParenthesis) {
        return Err(make_error(Expected::OpenParenthesisForArguments, op));
    }
    let pk = ts.peek_entry();
    if matches!(pk.token, Token::CloseParenthesis) {
        let _ = ts.eat();
        proof {
            assert(view_exprs(Seq::<Expression>::empty()) == Seq::<SpecExpr>::empty());
        }
        return Ok(Vec::new());
    }
    let ghost rem1 = ts.remaining();
    let ghost inner = sp_args_more(rem1, Seq::empty());
    proof {
        assert(target == inner);
    }
    let mut args: Vec<Expression> = Vec::new();
    loop
        invariant
            ts.wf(),
            ts.tokens == old(ts).tokens,
            old(ts).pos <= ts.pos,
            sp_args_more(ts.remaining(), view_exprs(args@)) == target,
        decreases ts.remaining().len(),
    {
        let ghost rem_here = ts.remaining();
        let ghost acc0 = view_exprs(args@);
        let v = match parse_expression(ts, 0) {
            Ok(v) => v,
            Err(e) => {
                return Err(e);
            },
        };
        let t2 = ts.eat();
        let ghost args0 = args@;
        match t2.token {
            Token::CloseParenthesis => {
                args.push(v);
                proof {
                    lemma_view_exprs_push(args0, v);
                    assert(sp_args_more(rem_here, acc0) == p_ok::<Seq<SpecExpr>>(
                        view_exprs(args@),
                        ts.remaining(),
                    ));
                }
                return Ok(args);
            },
            Token::Comma => {
                args.push(v);
                proof {
                    lemma_view_exprs_push(args0, v);
                    assert(ts.remaining().len() < rem_here.len());
                    assert(sp_args_more(rem_here, acc0) == sp_args_more(
                        ts.remaining(),
                        view_exprs(args@),
                    ));
                }
            },
            _ => {
                proof {
                    assert(sp_args_more(rem_here, acc0).res == Err::<
                        Seq<SpecExpr>,
                        SpecParseError,
                    >(sp_error(Expected::CommaOrCloseParenthesis, t2@)));
                }
                return Err(make_error(Expected::CommaOrCloseParenthesis, t2));
            },
        }
    }
}

/// Parses a primary form; see [`sp_parse_primary`].
fn parse_primary(ts: &mut TokenStream) -> (r: Result<Expression, ParseError>)
    requires
        old(ts).wf(),
    ensures
        ({
            let p = sp_parse_primary(old(ts).remaining());
            stepped(*old(ts), *final(ts), p.rest) && expr_res(r, p.res) && (r is Ok ==> old(
                ts,
            ).pos < final(ts).pos)
        }),
    decreases old(ts).remaining().len(), 0nat,
{
    let side_entry = ts.eat();
    let line = side_entry.line_number;
    match side_entry.token {
        Token::FloatLiteral(f) => Ok(Expression::new(ExpressionType::FloatLiteral(f), line)),
        Token::IntLiteral(i) => Ok(Expression::new(ExpressionType::IntLiteral(i), line)),
        Token::StringLiteral(v) => Ok(Expression::new(ExpressionType::StringLiteral(v), line)),
        Token::BoolLiteral(b) => Ok(Expression::new(ExpressionType::BoolLiteral(b), line)),
        Token::Identifier(name) => {
            let pk1 = ts.peek_entry();
            if matches!(pk1.token, Token::OpenParenthesis) {
                let args = match parse_call_args(ts) {
                    Ok(v) => v,
                    Err(e) => {
                        return Err(e);
                    },
                };
                Ok(Expression::new(ExpressionType::Call(name, args), line))
            } else {
                Ok(Expression::new(ExpressionType::Field(name), line))
            }
        },
        Token::OpenParenthesis => {
            let v = match parse_expression(ts, 0) {
                Ok(v) => v,
                Err(e) => {
                    return Err(e);
                },
            };
            let ct = ts.eat();
            if matches!(ct.token, Token::CloseParenthesis) {
                Ok(v)
            } else {
                Err(make_error(Expected::CloseParenthesis, ct))
            }
        },
        Token::EmptyList => {
            proof {
                assert(view_exprs(Seq::<Expression>::empty()) == Seq::<SpecExpr>::empty());
            }
            Ok(Expression::new(ExpressionType::ListLiteral(Vec::new()), line))
        },
        Token::OpenBracket => {
            let elems = match parse_list_elems(ts) {
                Ok(v) => v,
                Err(e) => {
                    return Err(e);
                },
            };
            Ok(Expression::new(ExpressionType::ListLiteral(elems), line))
        },
        t => Err(make_error(Expected::Primary, TokenEntry { token: t, line_number: line })),
    }
}

/// Parses a side; see [`sp_parse_side`].
fn parse_side(ts: &mut TokenStream) -> (r: Result<Expression, ParseError>)
    requires
        old(ts).wf(),
    ensures
        ({
            let p = sp_parse_side(old(ts).remaining());
            stepped(*old(ts), *final(ts), p.rest) && expr_res(r, p.res) && (r is Ok ==> old(
                ts,
            ).pos < final(ts).pos)
        }),
    decreases old(ts).remaining().len(), 1nat,
{
    let pk = ts.peek_entry();
    let prefix: Option<TokenEntry> = if valid_prefix_operator(&pk.token) {
        let e = ts.eat();
        Some(e)
    } else {
        None
    };
    let prim = match parse_primary(ts) {
        Ok(v) => v,
        Err(e) => {
            return Err(e);
        },
    };
    let side1 = match prefix {
        Some(pe) => create_prefix_operator(pe, prim),
        None => prim,
    };
    let pk2 = ts.peek_entry();
    if matches!(pk2.token, Token::Increment | Token::Decrement) {
        let e2 = ts.eat();
        Ok(create_postfix_operator(e2, side1))
    } else if matches!(pk2.token, Token::OpenBracket) {
        let br = ts.eat();
        let idx = match parse_expression(ts, 0) {
            Ok(v) => v,
            Err(e) => {
                return Err(e);
            },
        };
        let cb = ts.eat();
        if matches!(cb.token, Token::CloseBracket) {
            Ok(Expression::new(
                ExpressionType::Operation(Operation::ArrayIndex(side1, idx)),
                br.line_number,
            ))
        } else {
            Err(make_error(Expected::CloseBracketAfterIndex, cb))
        }
    } else {
        Ok(side1)
    }
}

/// Requires the next token to end the statement's line; see [`sp_new_line`].
fn new_line(ts: &mut TokenStream) -> (r: Result<(), ParseError>)
    requires
        old(ts).wf(),
    ensures
        ({
            let p = sp_new_line(old(ts).remaining());
            stepped(*old(ts), *final(ts), p.rest) && match (r, p.res) {
                (Ok(_), Ok(_)) => true,
                (Err(e), Err(se)) => e@ == se,
                _ => false,
            }
        }),
{
    let t = ts.eat();
    if matches!(t.token, Token::NewLine | Token::EOF) {
        Ok(())
    } else {
        Err(make_error(Expected::NewLineAfterStatement, t))
    }
}

// ---------------------------------------------------------------------------
// The statement grammar: indentation-checked dispatch on the first
// substantive token.
// ---------------------------------------------------------------------------

/// Lifts a parsed statement to the optional result a statement parse returns.
pub open spec fn p_some(p: Parsed<SpecStatement>) -> Parsed<Option<SpecStatement>> {
    Parsed {
        res: match p.res {
            Ok(s) => Ok(Some(s)),
            Err(e) => Err(e),
        },
        rest: p.rest,
    }
}

/// The operation a compound assignment token desugars to. Only compound
/// assignment tokens reach this; the last arm is never taken.
pub open spec fn sp_compound_op(t: SpecToken, a: SpecExpr, b: SpecExpr) -> SpecOperation {
    match t {
        SpecToken::PlusEquals => SpecOperation::Add(Box::new(a), Box::new(b)),
        SpecToken::MinusEquals => SpecOperation::Sub(Box::new(a), Box::new(b)),
        SpecToken::MultiplyEquals => SpecOperation::Mul(Box::new(a), Box::new(b)),
        SpecToken::DivideEquals => SpecOperation::Div(Box::new(a), Box::new(b)),
        _ => SpecOperation::Mod(Box::new(a), Box::new(b)),
    }
}

/// Ends a statement's line: requires a line break or the end of the stream,
/// and wraps the statement.
pub open spec fn sp_end_statement(s: SpecStatement, ts: Seq<SpecTokenEntry>) -> Parsed<
    Option<SpecStatement>,
> {
    let nl = sp_new_line(ts);
    match nl.res {
        Ok(_) => p_ok(Some(s), nl.rest),
        Err(e) => p_pass(e, nl.rest),
    }
}

/// Parses a statement that begins with an expression: a discarded-value
/// statement, a typed declaration, or a plain or compound assignment, the
/// compound forms desugared into a plain assignment whose value is the
/// equivalent binary operation over the duplicated target.
pub open spec fn sp_statement_expr(ts: Seq<SpecTokenEntry>) -> Parsed<Option<SpecStatement>>
    decreases ts.len(), 7nat,
{
    let line = sp_peek_entry(ts).line_number;
    let ex = sp_parse_expression(ts, 0);
    match ex.res {
        Err(e) => p_pass(e, ex.rest),
        Ok(expression) => {
            let (next, r2) = sp_eat(ex.rest);
            match next.token {
                SpecToken::NewLine => p_ok(
                    Some(SpecStatement { kind: SpecStatementKind::Ignored(expression), line }),
                    r2,
                ),
                SpecToken::EOF => p_ok(
                    Some(SpecStatement { kind: SpecStatementKind::Ignored(expression), line }),
                    r2,
                ),
                SpecToken::Colon => {
                    let tp = if r2.len() < ts.len() {
                        crate::parser::sp_parse_type(r2)
                    } else {
                        p_stopped(Expected::TypeName, r2)
                    };
                    match tp.res {
                        Err(e) => p_pass(e, tp.rest),
                        Ok(ty) => {
                            let (eq, r3) = sp_eat(tp.rest);
                            if eq.token is Equals {
                                let ini = if r3.len() < ts.len() {
                                    sp_parse_expression(r3, 0)
                                } else {
                                    p_stopped(Expected::Primary, r3)
                                };
                                match ini.res {
                                    Err(e) => p_pass(e, ini.rest),
                                    Ok(v) => sp_end_statement(
                                        SpecStatement {
                                            kind: SpecStatementKind::Declaration(
                                                expression,
                                                ty,
                                                v,
                                            ),
                                            line,
                                        },
                                        ini.rest,
                                    ),
                                }
                            } else {
                                p_err(Expected::EqualsInDeclaration, eq, r3)
                            }
                        },
                    }
                },
                SpecToken::Equals => {
                    let val = if r2.len() < ts.len() {
                        sp_parse_expression(r2, 0)
                    } else {
                        p_stopped(Expected::Primary, r2)
                    };
                    match val.res {
                        Err(e) => p_pass(e, val.rest),
                        Ok(v) => sp_end_statement(
                            SpecStatement {
                                kind: SpecStatementKind::Assignment(expression, v),
                                line,
                            },
                            val.rest,
                        ),
                    }
                },
                SpecToken::PlusEquals | SpecToken::MinusEquals | SpecToken::MultiplyEquals
                    | SpecToken::DivideEquals | SpecToken::PercentEquals => {
                    let val = if r2.len() < ts.len() {
                        sp_parse_expression(r2, 0)
                    } else {
                        p_stopped(Expected::Primary, r2)
                    };
                    match val.res {
                        Err(e) => p_pass(e, val.rest),
                        Ok(v) => {
                            let combined = SpecExpr {
                                kind: SpecExprKind::Operation(
                                    sp_compound_op(next.token, expression, v),
                                ),
                                line: next.line_number,
                            };
                            sp_end_statement(
                                SpecStatement {
                                    kind: SpecStatementKind::Assignment(expression, combined),
                                    line,
                                },
                                val.rest,
                            )
                        },
                    }
                },
                _ => p_err(Expected::StatementEnd, next, r2),
            }
        },
    }
}

/// Parses a conditional after its `if` token: a condition, a block deeper
/// than the conditional's own width `outer`, and an optional else-branch. An
/// `else` directly followed by `if` continues an `elif` chain as a nested
/// conditional; any other `else` wraps its block as an always-true
/// conditional. After the block's dedent, the `else` stands behind that
/// line's leading-spaces token, and belongs to this conditional only when
/// that count equals the conditional's own width.
pub open spec fn sp_parse_if(ts: Seq<SpecTokenEntry>, line: nat, outer: nat) -> Parsed<
    SpecStatement,
>
    decreases ts.len(), 11nat,
{
    let cond = sp_parse_expression(ts, 0);
    match cond.res {
        Err(e) => p_pass(e, cond.rest),
        Ok(c) => {
            let body = if cond.rest.len() < ts.len() {
                sp_parse_body(cond.rest, outer)
            } else {
                p_stopped(Expected::IndentBeforeBody, cond.rest)
            };
            match body.res {
                Err(e) => p_pass(e, body.rest),
                Ok(ss) => {
                    let pk = sp_peek_entry(body.rest);
                    let pk2 = sp_peek_second(body.rest);
                    if pk.token is Else || (pk.token == SpecToken::Spaces(outer)
                        && pk2.token is Else) {
                        let else_entry = if pk.token is Else {
                            pk
                        } else {
                            pk2
                        };
                        let r_else = if pk.token is Else {
                            sp_eat(body.rest).1
                        } else {
                            sp_eat(sp_eat(body.rest).1).1
                        };
                        if sp_peek_entry(r_else).token is If {
                            let els = if r_else.len() < ts.len() {
                                sp_statement_dispatch(r_else, outer)
                            } else {
                                p_stopped(Expected::Primary, r_else)
                            };
                            match els.res {
                                Err(e) => p_pass(e, els.rest),
                                Ok(opt) => p_ok(
                                    SpecStatement {
                                        kind: SpecStatementKind::If(
                                            c,
                                            ss,
                                            match opt {
                                                Some(s) => Some(Box::new(s)),
                                                None => None,
                                            },
                                        ),
                                        line,
                                    },
                                    els.rest,
                                ),
                            }
                        } else {
                            let eb = if r_else.len() < ts.len() {
                                sp_parse_body(r_else, outer)
                            } else {
                                p_stopped(Expected::IndentBeforeBody, r_else)
                            };
                            match eb.res {
                                Err(e) => p_pass(e, eb.rest),
                                Ok(es) => p_ok(
                                    SpecStatement {
                                        kind: SpecStatementKind::If(
                                            c,
                                            ss,
                                            Some(
                                                Box::new(
                                                    SpecStatement {
                                                        kind: SpecStatementKind::If(
                                                            SpecExpr {
                                                                kind: SpecExprKind::BoolLiteral(
                                                                    true,
                                                                ),
                                                                line: else_entry.line_number,
                                                            },
                                                            es,
                                                            None,
                                                        ),
                                                        line: else_entry.line_number,
                                                    },
                                                ),
                                            ),
                                        ),
                                        line,
                                    },
                                    eb.rest,
                                ),
                            }
                        }
                    } else {
                        p_ok(
                            SpecStatement { kind: SpecStatementKind::If(c, ss, None), line },
                            body.rest,
                        )
                    }
                },
            }
        },
    }
}

/// Parses a while-loop after its `while` token: a condition and a block
/// deeper than the loop's own width `outer`.
pub open spec fn sp_parse_while(ts: Seq<SpecTokenEntry>, line: nat, outer: nat) -> Parsed<
    SpecStatement,
>
    decreases ts.len(), 11nat,
{
    let cond = sp_parse_expression(ts, 0);
    match cond.res {
        Err(e) => p_pass(e, cond.rest),
        Ok(c) => {
            let body = if cond.rest.len() < ts.len() {
                sp_parse_body(cond.rest, outer)
            } else {
                p_stopped(Expected::IndentBeforeBody, cond.rest)
            };
            match body.res {
                Err(e) => p_pass(e, body.rest),
                Ok(ss) => p_ok(
                    SpecStatement { kind: SpecStatementKind::While(c, ss), line },
                    body.rest,
                ),
            }
        },
    }
}

/// Parses a for-loop after its `for` token: a loop variable, the word `in`,
/// an iterated variable name, and a block deeper than the loop's own width
/// `outer`.
pub open spec fn sp_parse_for(ts: Seq<SpecTokenEntry>, outer: nat) -> Parsed<SpecStatement>
    decreases ts.len(), 11nat,
{
    let (lv, r1) = sp_eat(ts);
    match lv.token {
        SpecToken::Identifier(loop_var) => {
            let (intok, r2) = sp_eat(r1);
            match intok.token {
                SpecToken::Identifier(w) => if w == "in"@ {
                    let (iv, r3) = sp_eat(r2);
                    match iv.token {
                        SpecToken::Identifier(looped) => {
                            let body = sp_parse_body(r3, outer);
                            match body.res {
                                Err(e) => p_pass(e, body.rest),
                                Ok(ss) => p_ok(
                                    SpecStatement {
                                        kind: SpecStatementKind::For(loop_var, looped, ss),
                                        line: iv.line_number,
                                    },
                                    body.rest,
                                ),
                            }
                        },
                        _ => p_err(Expected::IterableName, iv, r3),
                    }
                } else {
                    p_err(Expected::InKeyword, intok, r2)
                },
                _ => p_err(Expected::InKeyword, intok, r2),
            }
        },
        _ => p_err(Expected::ForVariableName, lv, r1),
    }
}

/// Parses a return after its `return` token: a bare line break means no
/// value; otherwise the returned expression, which must end on a line break
/// or the end of the stream.
pub open spec fn sp_parse_return(ts: Seq<SpecTokenEntry>, line: nat) -> Parsed<SpecStatement>
    decreases ts.len(), 11nat,
{
    if sp_peek_entry(ts).token is NewLine {
        p_ok(
            SpecStatement { kind: SpecStatementKind::Return(None), line },
            sp_eat(ts).1,
        )
    } else {
        let v = sp_parse_expression(ts, 0);
        match v.res {
            Err(e) => p_pass(e, v.rest),
            Ok(e) => {
                let nl = sp_new_line(v.rest);
                match nl.res {
                    Ok(_) => p_ok(
                        SpecStatement { kind: SpecStatementKind::Return(Some(e)), line },
                        nl.rest,
                    ),
                    Err(er) => p_pass(er, nl.rest),
                }
            },
        }
    }
}

/// Dispatches on a statement's first substantive token. `outer` is the
/// statement's own line width, which any nested block must strictly exceed.
pub open spec fn sp_statement_dispatch(ts: Seq<SpecTokenEntry>, outer: nat) -> Parsed<
    Option<SpecStatement>,
>
    decreases ts.len(), 8nat,
{
    let (t, r1) = sp_eat(ts);
    match t.token {
        SpecToken::If => p_some(sp_parse_if(r1, t.line_number, outer)),
        SpecToken::While => p_some(sp_parse_while(r1, t.line_number, outer)),
        SpecToken::For => p_some(sp_parse_for(r1, outer)),
        SpecToken::Return => p_some(sp_parse_return(r1, t.line_number)),
        _ => sp_statement_expr(ts),
    }
}

/// Parses one statement. A bare line break yields no statement and is
/// consumed; so does a leading-spaces token directly followed by a break (a
/// blank line holding only whitespace), both tokens consumed. When an
/// expected indentation width is given, a statement must begin with a
/// leading-spaces token of exactly that count, or the parse fails citing
/// that token's line; with no expected width, nested blocks need only be
/// indented at all.
pub open spec fn sp_parse_statement(ts: Seq<SpecTokenEntry>, req: Option<nat>) -> Parsed<
    Option<SpecStatement>,
>
    decreases ts.len(), 9nat,
{
    if sp_peek_entry(ts).token is NewLine {
        p_ok(None, sp_eat(ts).1)
    } else {
        match req {
            Some(r) => {
                let (t, r1) = sp_eat(ts);
                match t.token {
                    SpecToken::Spaces(v) => if v == r {
                        if sp_peek_entry(r1).token is NewLine {
                            p_ok(None, sp_eat(r1).1)
                        } else {
                            sp_statement_dispatch(r1, r)
                        }
                    } else {
                        p_err(Expected::MatchingIndentation, t, r1)
                    },
                    _ => p_err(Expected::SpacesBeforeStatement, t, r1),
                }
            },
            None => sp_statement_dispatch(ts, 0),
        }
    }
}

/// Parses statements at exactly the given indentation width until the next
/// line dedents (whose leading-spaces token is not consumed), a deeper line
/// fails the parse citing that line, or the stream ends.
pub open spec fn sp_stmts_at(ts: Seq<SpecTokenEntry>, req: nat, acc: Seq<SpecStatement>) -> Parsed<
    Seq<SpecStatement>,
>
    decreases ts.len(), 10nat,
{
    let st = sp_parse_statement(ts, Some(req));
    match st.res {
        Err(e) => p_pass(e, st.rest),
        Ok(opt) => {
            let acc2 = match opt {
                Some(s) => acc.push(s),
                None => acc,
            };
            match sp_peek_entry(st.rest).token {
                SpecToken::Spaces(count) => if count < req {
                    p_ok(acc2, st.rest)
                } else if count > req {
                    let (sp, r2) = sp_eat(st.rest);
                    p_err(Expected::BlockIndentation, sp, r2)
                } else if st.rest.len() < ts.len() {
                    sp_stmts_at(st.rest, req, acc2)
                } else {
                    p_stopped(Expected::SpacesBeforeStatement, st.rest)
                },
                SpecToken::EOF => p_ok(acc2, st.rest),
                _ => if st.rest.len() < ts.len() {
                    sp_stmts_at(st.rest, req, acc2)
                } else {
                    p_stopped(Expected::SpacesBeforeStatement, st.rest)
                },
            }
        },
    }
}

/// Parses a block nested in an enclosing block of width `outer`: a colon, a
/// line break, then the first line's leading-spaces count fixes the block's
/// indentation width, which must strictly exceed `outer`, and statements are
/// parsed at exactly that width.
pub open spec fn sp_parse_body(ts: Seq<SpecTokenEntry>, outer: nat) -> Parsed<Seq<SpecStatement>>
    decreases ts.len(), 12nat,
{
    let (col, r1) = sp_eat(ts);
    if !(col.token is Colon) {
        p_err(Expected::ColonBeforeBlock, col, r1)
    } else {
        let (nl, r2) = sp_eat(r1);
        if !(nl.token is NewLine) {
            p_err(Expected::NewLineBeforeBlock, nl, r2)
        } else {
            match sp_peek_entry(r2).token {
                SpecToken::Spaces(req) => if req > outer {
                    sp_stmts_at(r2, req, Seq::empty())
                } else {
                    p_err(Expected::DeeperIndentation, sp_peek_entry(r2), r2)
                },
                _ => p_err(Expected::IndentBeforeBody, sp_peek_entry(r2), r2),
            }
        }
    }
}

/// The exec statement option matches the model's.
pub open spec fn stmt_opt_res(r: Result<Option<Statement>, ParseError>, s: Result<
    Option<SpecStatement>,
    SpecParseError,
>) -> bool {
    match r {
        Ok(Some(st)) => s == Ok::<Option<SpecStatement>, SpecParseError>(Some(st@)),
        Ok(None) => s == Ok::<Option<SpecStatement>, SpecParseError>(None),
        Err(e) => s == Err::<Option<SpecStatement>, SpecParseError>(e@),
    }
}

/// The exec statement matches the model's.
pub open spec fn stmt_res(r: Result<Statement, ParseError>, s: Result<
    SpecStatement,
    SpecParseError,
>) -> bool {
    match r {
        Ok(st) => s == Ok::<SpecStatement, SpecParseError>(st@),
        Err(e) => s == Err::<SpecStatement, SpecParseError>(e@),
    }
}

/// Parses a statement that begins with an expression; see
/// [`sp_statement_expr`].
#[verifier::rlimit(100)]
fn parse_expression_statement(ts: &mut TokenStream) -> (r: Result<Option<Statement>, ParseError>)
    requires
        old(ts).wf(),
    ensures
        ({
            let p = sp_statement_expr(old(ts).remaining());
            stepped(*old(ts), *final(ts), p.rest) && stmt_opt_res(r, p.res) && (r is Ok ==> old(
                ts,
            ).pos < final(ts).pos)
        }),
    decreases old(ts).remaining().len(), 7nat,
{
    let pk = ts.peek_entry();
    let line = pk.line_number;
    let expression = match parse_expression(ts, 0) {
        Ok(v) => v,
        Err(e) => {
            return Err(e);
        },
    };
    let next = ts.eat();
    match next.token {
        Token::NewLine => Ok(Some(Statement::new(StatementType::Ignored(expression), line))),
        Token::EOF => Ok(Some(Statement::new(StatementType::Ignored(expression), line))),
        Token::Colon => {
            let ty = match crate::parser::parse_type(ts) {
                Ok(v) => v,
                Err(e) => {
                    return Err(e);
                },
            };
            let eq = ts.eat();
            if !matches!(eq.token, Token::Equals) {
                return Err(make_error(Expected::EqualsInDeclaration, eq));
            }
            let v = match parse_expression(ts, 0) {
                Ok(v) => v,
                Err(e) => {
                    return Err(e);
                },
            };
            match new_line(ts) {
                Ok(_) => Ok(Some(Statement::new(
                    StatementType::Declaration(expression, ty, v),
                    line,
                ))),
                Err(e) => Err(e),
            }
        },
        Token::Equals => {
            let v = match parse_expression(ts, 0) {
                Ok(v) => v,
                Err(e) => {
                    return Err(e);
                },
            };
            match new_line(ts) {
                Ok(_) => Ok(Some(Statement::new(
                    StatementType::Assignment(expression, v),
                    line,
                ))),
                Err(e) => Err(e),
            }
        },
        Token::PlusEquals | Token::MinusEquals | Token::MultiplyEquals | Token::DivideEquals
            | Token::PercentEquals => {
            let v = match parse_expression(ts, 0) {
                Ok(v) => v,
                Err(e) => {
                    return Err(e);
                },
            };
            let target_copy = copy_expr(&expression);
            let operation = match next.token {
                Token::PlusEquals => Operation::Add(target_copy, v),
                Token::MinusEquals => Operation::Sub(target_copy, v),
                Token::MultiplyEquals => Operation::Mul(target_copy, v),
                Token::DivideEquals => Operation::Div(target_copy, v),
                _ => Operation::Mod(target_copy, v),
            };
            let combined = Expression::new(
                ExpressionType::Operation(operation),
                next.line_number,
            );
            match new_line(ts) {
                Ok(_) => Ok(Some(Statement::new(
                    StatementType::Assignment(expression, combined),
                    line,
                ))),
                Err(e) => Err(e),
            }
        },
        _ => Err(make_error(Expected::StatementEnd, next)),
    }
}

/// Parses a conditional after its `if` token; see [`sp_parse_if`].
#[verifier::rlimit(100)]
fn parse_if_statement(ts: &mut TokenStream, line: usize, outer: usize) -> (r: Result<
    Statement,
    ParseError,
>)
    requires
        old(ts).wf(),
    ensures
        ({
            let p = sp_parse_if(old(ts).remaining(), line as nat, outer as nat);
            stepped(*old(ts), *final(ts), p.rest) && stmt_res(r, p.res)
        }),
    decreases old(ts).remaining().len(), 11nat,
{
    let condition = match parse_expression(ts, 0) {
        Ok(v) => v,
        Err(e) => {
            return Err(e);
        },
    };
    let body = match parse_statement_body(ts, outer) {
        Ok(v) => v,
        Err(e) => {
            return Err(e);
        },
    };
    let pk = ts.peek_entry();
    let pk2 = ts.peek_second();
    let has_direct = matches!(pk.token, Token::Else);
    let has_dedent = (match pk.token {
        Token::Spaces(v) => v == outer,
        _ => false,
    }) && matches!(pk2.token, Token::Else);
    if has_direct || has_dedent {
        let else_entry = if has_direct {
            ts.eat()
        } else {
            let _ = ts.eat();
            ts.eat()
        };
        let pk3 = ts.peek_entry();
        if matches!(pk3.token, Token::If) {
            let els = match dispatch_statement(ts, outer) {
                Ok(v) => v,
                Err(e) => {
                    return Err(e);
                },
            };
            Ok(Statement::new(StatementType::If(condition, body, els), line))
        } else {
            let else_body = match parse_statement_body(ts, outer) {
                Ok(v) => v,
                Err(e) => {
                    return Err(e);
                },
            };
            let true_cond = Expression::new(
                ExpressionType::BoolLiteral(true),
                else_entry.line_number,
            );
            let wrapped = Statement::new(
                StatementType::If(true_cond, else_body, None),
                else_entry.line_number,
            );
            Ok(Statement::new(StatementType::If(condition, body, Some(wrapped)), line))
        }
    } else {
        Ok(Statement::new(StatementType::If(condition, body, None), line))
    }
}

/// Parses a while-loop after its `while` token; see [`sp_parse_while`].
#[verifier::rlimit(100)]
fn parse_while_statement(ts: &mut TokenStream, line: usize, outer: usize) -> (r: Result<
    Statement,
    ParseError,
>)
    requires
        old(ts).wf(),
    ensures
        ({
            let p = sp_parse_while(old(ts).remaining(), line as nat, outer as nat);
            stepped(*old(ts), *final(ts), p.rest) && stmt_res(r, p.res)
        }),
    decreases old(ts).remaining().len(), 11nat,
{
    let condition = match parse_expression(ts, 0) {
        Ok(v) => v,
        Err(e) => {
            return Err(e);
        },
    };
    let body = match parse_statement_body(ts, outer) {
        Ok(v) => v,
        Err(e) => {
            return Err(e);
        },
    };
    Ok(Statement::new(StatementType::While(condition, body), line))
}

/// Parses a for-loop after its `for` token; see [`sp_parse_for`].
#[verifier::rlimit(100)]
fn parse_for_statement(ts: &mut TokenStream, outer: usize) -> (r: Result<Statement, ParseError>)
    requires
        old(ts).wf(),
    ensures
        ({
            let p = sp_parse_for(old(ts).remaining(), outer as nat);
            stepped(*old(ts), *final(ts), p.rest) && stmt_res(r, p.res)
        }),
    decreases old(ts).remaining().len(), 11nat,
{
    let lv = ts.eat();
    let loop_var = match lv.token {
        Token::Identifier(name) => name,
        t => {
            return Err(make_error(
                Expected::ForVariableName,
                TokenEntry { token: t, line_number: lv.line_number },
            ));
        },
    };
    let intok = ts.eat();
    match &intok.token {
        Token::Identifier(w) => {
            if !crate::lexer::str_eq(w.as_str(), "in") {
                return Err(make_error(Expected::InKeyword, intok));
            }
        },
        _ => {
            return Err(make_error(Expected::InKeyword, intok));
        },
    }
    let iv = ts.eat();
    let looped_var = match iv.token {
        Token::Identifier(name) => name,
        t => {
            return Err(make_error(
                Expected::IterableName,
                TokenEntry { token: t, line_number: iv.line_number },
            ));
        },
    };
    let body = match parse_statement_body(ts, outer) {
        Ok(v) => v,
        Err(e) => {
            return Err(e);
        },
    };
    Ok(Statement::new(StatementType::For(loop_var, looped_var, body), iv.line_number))
}

/// Parses a return after its `return` token; see [`sp_parse_return`]. A
/// returned expression must end on a line break or the end of the stream.
#[verifier::rlimit(100)]
fn parse_return_statement(ts: &mut TokenStream, line: usize) -> (r: Result<Statement, ParseError>)
    requires
        old(ts).wf(),
    ensures
        ({
            let p = sp_parse_return(old(ts).remaining(), line as nat);
            stepped(*old(ts), *final(ts), p.rest) && stmt_res(r, p.res)
        }),
    decreases old(ts).remaining().len(), 11nat,
{
    let pk = ts.peek_entry();
    if matches!(pk.token, Token::NewLine) {
        let _ = ts.eat();
        Ok(Statement::new(StatementType::Return(None), line))
    } else {
        let v = match parse_expression(ts, 0) {
            Ok(v) => v,
            Err(e) => {
                return Err(e);
            },
        };
        match new_line(ts) {
            Ok(_) => Ok(Statement::new(StatementType::Return(Some(v)), line)),
            Err(e) => Err(e),
        }
    }
}

/// Dispatches on a statement's first substantive token; see
/// [`sp_statement_dispatch`].
#[verifier::rlimit(100)]
fn dispatch_statement(ts: &mut TokenStream, outer: usize) -> (r: Result<
    Option<Statement>,
    ParseError,
>)
    requires
        old(ts).wf(),
    ensures
        ({
            let p = sp_statement_dispatch(old(ts).remaining(), outer as nat);
            stepped(*old(ts), *final(ts), p.rest) && stmt_opt_res(r, p.res) && (r is Ok ==> old(
                ts,
            ).pos < final(ts).pos)
        }),
    decreases old(ts).remaining().len(), 8nat,
{
    let pk = ts.peek_entry();
    match pk.token {
        Token::If => {
            let t = ts.eat();
            match parse_if_statement(ts, t.line_number, outer) {
                Ok(s) => Ok(Some(s)),
                Err(e) => Err(e),
            }
        },
        Token::While => {
            let t = ts.eat();
            match parse_while_statement(ts, t.line_number, outer) {
                Ok(s) => Ok(Some(s)),
                Err(e) => Err(e),
            }
        },
        Token::For => {
            let _ = ts.eat();
            match parse_for_statement(ts, outer) {
                Ok(s) => Ok(Some(s)),
                Err(e) => Err(e),
            }
        },
        Token::Return => {
            let t = ts.eat();
            match parse_return_statement(ts, t.line_number) {
                Ok(s) => Ok(Some(s)),
                Err(e) => Err(e),
            }
        },
        _ => parse_expression_statement(ts),
    }
}

/// Parses one statement; see [`sp_parse_statement`]. A bare line break, or
/// a leading-spaces token directly followed by a break, yields no
/// statement; with an expected indentation width, a statement must begin
/// with exactly that many leading spaces.
pub fn parse_statement(ts: &mut TokenStream, spacing_req: Option<usize>) -> (r: Result<
    Option<Statement>,
    ParseError,
>)
    requires
        old(ts).wf(),
    ensures
        ({
            let p = sp_parse_statement(
                old(ts).remaining(),
                match spacing_req {
                    Some(v) => Some(v as nat),
                    None => None,
                },
            );
            stepped(*old(ts), *final(ts), p.rest) && stmt_opt_res(r, p.res) && (r is Ok ==> old(
                ts,
            ).pos < final(ts).pos)
        }),
    decreases old(ts).remaining().len(), 9nat,
{
    let pk = ts.peek_entry();
    if matches!(pk.token, Token::NewLine) {
        let _ = ts.eat();
        return Ok(None);
    }
    match spacing_req {
        Some(req) => {
            let t = ts.eat();
            match t.token {
                Token::Spaces(v) => {
                    if v == req {
                        let pk1 = ts.peek_entry();
                        if matches!(pk1.token, Token::NewLine) {
                            let _ = ts.eat();
                            Ok(None)
                        } else {
                            dispatch_statement(ts, req)
                        }
                    } else {
                        Err(make_error(Expected::MatchingIndentation, t))
                    }
                },
                _ => Err(make_error(Expected::SpacesBeforeStatement, t)),
            }
        },
        None => dispatch_statement(ts, 0),
    }
}

/// Parses statements at exactly the given indentation width; see
/// [`sp_stmts_at`].
#[verifier::loop_isolation(false)]
pub fn parse_statements_at(ts: &mut TokenStream, req: usize) -> (r: Result<
    Vec<Statement>,
    ParseError,
>)
    requires
        old(ts).wf(),
    ensures
        ({
            let p = sp_stmts_at(old(ts).remaining(), req as nat, Seq::empty());
            stepped(*old(ts), *final(ts), p.rest) && match (r, p.res) {
                (Ok(v), Ok(sv)) => view_stmts(v@) == sv,
                (Err(e), Err(se)) => e@ == se,
                _ => false,
            }
        }),
    decreases old(ts).remaining().len(), 10nat,
{
    let ghost rem0 = old(ts).remaining();
    let ghost target = sp_stmts_at(rem0, req as nat, Seq::empty());
    let mut statements: Vec<Statement> = Vec::new();
    proof {
        assert(view_stmts(statements@) =~= Seq::<SpecStatement>::empty());
    }
    loop
        invariant
            ts.wf(),
            ts.tokens == old(ts).tokens,
            old(ts).pos <= ts.pos,
            sp_stmts_at(ts.remaining(), req as nat, view_stmts(statements@)) == target,
        decreases ts.remaining().len(),
    {
        let ghost rem_here = ts.remaining();
        let ghost acc0 = view_stmts(statements@);
        let st = match parse_statement(ts, Some(req)) {
            Ok(v) => v,
            Err(e) => {
                return Err(e);
            },
        };
        let ghost ss0 = statements@;
        match st {
            Some(s) => {
                statements.push(s);
                proof {
                    lemma_view_stmts_push(ss0, s);
                }
            },
            None => {},
        }
        let pk = ts.peek_entry();
        match pk.token {
            Token::Spaces(count) => {
                if count < req {
                    proof {
                        assert(sp_stmts_at(rem_here, req as nat, acc0) == p_ok::<
                            Seq<SpecStatement>,
                        >(view_stmts(statements@), ts.remaining()));
                    }
                    return Ok(statements);
                } else if count > req {
                    let sp = ts.eat();
                    return Err(make_error(Expected::BlockIndentation, sp));
                } else {
                    proof {
                        assert(ts.remaining().len() < rem_here.len());
                        assert(sp_stmts_at(rem_here, req as nat, acc0) == sp_stmts_at(
                            ts.remaining(),
                            req as nat,
                            view_stmts(statements@),
                        ));
                    }
                }
            },
            Token::EOF => {
                proof {
                    assert(sp_stmts_at(rem_here, req as nat, acc0) == p_ok::<Seq<SpecStatement>>(
                        view_stmts(statements@),
                        ts.remaining(),
                    ));
                }
                return Ok(statements);
            },
            _ => {
                proof {
                    assert(ts.remaining().len() < rem_here.len());
                    assert(sp_stmts_at(rem_here, req as nat, acc0) == sp_stmts_at(
                        ts.remaining(),
                        req as nat,
                        view_stmts(statements@),
                    ));
                }
            },
        }
    }
}

/// Parses a block nested in an enclosing block of width `outer`; see
/// [`sp_parse_body`]. The block's width must strictly exceed `outer`.
#[verifier::rlimit(100)]
pub fn parse_statement_body(ts: &mut TokenStream, outer: usize) -> (r: Result<
    Vec<Statement>,
    ParseError,
>)
    requires
        old(ts).wf(),
    ensures
        ({
            let p = sp_parse_body(old(ts).remaining(), outer as nat);
            stepped(*old(ts), *final(ts), p.rest) && match (r, p.res) {
                (Ok(v), Ok(sv)) => view_stmts(v@) == sv,
                (Err(e), Err(se)) => e@ == se,
                _ => false,
            }
        }),
    decreases old(ts).remaining().len(), 12nat,
{
    let col = ts.eat();
    if !matches!(col.token, Token::Colon) {
        return Err(make_error(Expected::ColonBeforeBlock, col));
    }
    let nl = ts.eat();
    if !matches!(nl.token, Token::NewLine) {
        return Err(make_error(Expected::NewLineBeforeBlock, nl));
    }
    let pk = ts.peek_entry();
    match pk.token {
        Token::Spaces(req) => {
            if req > outer {
                parse_statements_at(ts, req)
            } else {
                Err(make_error(Expected::DeeperIndentation, pk))
            }
        },
        _ => Err(make_error(Expected::IndentBeforeBody, pk)),
    }
}

// ---------------------------------------------------------------------------
// Laws of the block structure.
// ---------------------------------------------------------------------------

/// Law: a statement parse never yields a statement without checking the
/// indentation it was asked for. Only a blank line yields no statement.
pub proof fn lemma_dispatch_yields_statement(ts: Seq<SpecTokenEntry>, outer: nat)
    ensures
        forall|o: Option<SpecStatement>|
            sp_statement_dispatch(ts, outer).res == Ok::<Option<SpecStatement>, SpecParseError>(
                o,
            ) ==> o is Some,
{
    let d = sp_statement_dispatch(ts, outer);
    if d.res is Ok {
        let (t, r1) = sp_eat(ts);
        match t.token {
            SpecToken::If => {},
            SpecToken::While => {},
            SpecToken::For => {},
            SpecToken::Return => {},
            _ => {
                let ex = sp_parse_expression(ts, 0);
                if ex.res is Ok {
                    let (next, r2) = sp_eat(ex.rest);
                    assert(sp_statement_expr(ts).res is Ok ==> (sp_statement_expr(ts).res
                        == Ok::<Option<SpecStatement>, SpecParseError>(
                        sp_statement_expr(ts).res->Ok_0,
                    )));
                }
            },
        }
    }
}

/// Law (indentation, acceptance half): when a statement is parsed under an
/// expected indentation width and yields a statement, the input began with a
/// leading-spaces token of exactly that count. Every direct statement of a
/// block therefore carries the block's one width.
pub proof fn lemma_statement_starts_at_width(ts: Seq<SpecTokenEntry>, req: nat)
    requires
        sp_parse_statement(ts, Some(req)).res matches Ok(o) && o is Some,
    ensures
        ts.len() > 0,
        ts[0].token == SpecToken::Spaces(req),
{
    lemma_dispatch_yields_statement(sp_eat(ts).1, req);
}

/// Law (indentation, rejection half): a statement line whose leading-spaces
/// count differs from the expected width fails the parse, citing that
/// token's line.
pub proof fn lemma_statement_wrong_width_fails(ts: Seq<SpecTokenEntry>, req: nat, v: nat)
    requires
        ts.len() > 0,
        ts[0].token == SpecToken::Spaces(v),
        v != req,
    ensures
        sp_parse_statement(ts, Some(req)).res == Err::<Option<SpecStatement>, SpecParseError>(
            sp_error(Expected::MatchingIndentation, ts[0]),
        ),
        sp_error(Expected::MatchingIndentation, ts[0]).line == ts[0].line_number,
{
}

/// Law (malformed indentation, deeper half): when a block's next line is
/// indented deeper than the block's established width, the parse fails with
/// an error naming that line.
pub proof fn lemma_block_deeper_line_fails(
    ts: Seq<SpecTokenEntry>,
    req: nat,
    acc: Seq<SpecStatement>,
    c: nat,
)
    requires
        sp_parse_statement(ts, Some(req)).res is Ok,
        sp_peek_entry(sp_parse_statement(ts, Some(req)).rest).token == SpecToken::Spaces(c),
        c > req,
    ensures
        ({
            let rest = sp_parse_statement(ts, Some(req)).rest;
            sp_stmts_at(ts, req, acc).res == Err::<Seq<SpecStatement>, SpecParseError>(
                sp_error(Expected::BlockIndentation, rest[0]),
            ) && sp_error(Expected::BlockIndentation, rest[0]).line == rest[0].line_number
        }),
{
    let st = sp_parse_statement(ts, Some(req));
    assert(st.rest.len() > 0);
}

/// Law (malformed indentation, shallower half): when a block's next line is
/// indented less than the block's established width, the block ends there
/// and the line's leading-spaces token is not consumed.
pub proof fn lemma_block_dedent_ends_block(
    ts: Seq<SpecTokenEntry>,
    req: nat,
    acc: Seq<SpecStatement>,
    c: nat,
)
    requires
        sp_parse_statement(ts, Some(req)).res is Ok,
        sp_peek_entry(sp_parse_statement(ts, Some(req)).rest).token == SpecToken::Spaces(c),
        c < req,
    ensures
        ({
            let st = sp_parse_statement(ts, Some(req));
            let out = sp_stmts_at(ts, req, acc);
            out.res is Ok && out.rest == st.rest && sp_peek_entry(out.rest).token
                == SpecToken::Spaces(c)
        }),
{
}

/// Law (indentation, nesting half): a block accepted inside an enclosing
/// block of width `outer` fixes its own width from its first line, and that
/// width strictly exceeds `outer`.
pub proof fn lemma_block_strictly_deeper(ts: Seq<SpecTokenEntry>, outer: nat)
    requires
        sp_parse_body(ts, outer).res is Ok,
    ensures
        ({
            let first = sp_peek_entry(sp_eat(sp_eat(ts).1).1);
            first.token is Spaces && first.token->Spaces_0 > outer
        }),
{
}

/// Law (indentation, nesting rejection): a block whose first line is not
/// indented strictly deeper than the enclosing width fails the parse,
/// citing that line.
pub proof fn lemma_shallow_block_fails(ts: Seq<SpecTokenEntry>, outer: nat, c: nat)
    requires
        sp_peek_entry(ts).token is Colon,
        sp_peek_second(ts).token is NewLine,
        sp_peek_entry(sp_eat(sp_eat(ts).1).1).token == SpecToken::Spaces(c),
        c <= outer,
    ensures
        ({
            let first = sp_peek_entry(sp_eat(sp_eat(ts).1).1);
            sp_parse_body(ts, outer).res == Err::<Seq<SpecStatement>, SpecParseError>(
                sp_error(Expected::DeeperIndentation, first),
            ) && sp_error(Expected::DeeperIndentation, first).line == first.line_number
        }),
{
}

/// Law: a leading-spaces token directly followed by a line break is a blank
/// line: it yields no statement and both tokens are consumed.
pub proof fn lemma_blank_line_yields_no_statement(ts: Seq<SpecTokenEntry>, req: nat)
    requires
        ts.len() >= 2,
        ts[0].token == SpecToken::Spaces(req),
        ts[1].token is NewLine,
    ensures
        sp_parse_statement(ts, Some(req)) == p_ok(
            None::<SpecStatement>,
            ts.drop_first().drop_first(),
        ),
{
}

/// Law: the pre-lexed empty-list token produces exactly the node a list
/// literal with zero elements would: a list literal with no children.
pub proof fn lemma_empty_list_is_empty_literal(ts: Seq<SpecTokenEntry>)
    requires
        ts.len() > 0,
        ts[0].token is EmptyList,
    ensures
        sp_parse_primary(ts).res == Ok::<SpecExpr, SpecParseError>(
            SpecExpr {
                kind: SpecExprKind::ListLiteral(Seq::empty()),
                line: ts[0].line_number,
            },
        ),
{
}

} // verus!
