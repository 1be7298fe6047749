//! The token cursor, parse errors, and the function and type grammar.

use vstd::prelude::*;
use crate::lexer::{Token, TokenEntry, SpecToken, SpecTokenEntry, view_tokens};
use crate::types::{Function, Parameter, SpecFunction, SpecParameter, Type, view_functions,
    view_params};
use crate::statements::parse_statements_at;

verus! {

// ---------------------------------------------------------------------------
// Parse errors.
// ---------------------------------------------------------------------------

/// What the parser expected where the offending token stood.
#[derive(Debug, PartialEq, Eq, Clone, Copy)]
pub enum Expected {
    Def,
    FunctionName,
    OpenParenthesisAfterName,
    CommaAfterParameter,
    ScalarReturnType,
    ColonAfterParameters,
    NewLineAfterHeader,
    ColonBeforeBlock,
    NewLineBeforeBlock,
    IndentBeforeBody,
    MatchingIndentation,
    BlockIndentation,
    DeeperIndentation,
    SpacesBeforeStatement,
    VariableName,
    ColonAfterVariableName,
    TypeName,
    OpenBracketAfterList,
    ListElementType,
    CloseBracketAfterType,
    ForVariableName,
    InKeyword,
    IterableName,
    EqualsInDeclaration,
    NewLineAfterStatement,
    StatementEnd,
    InfixOperator,
    CloseParenthesis,
    CommaOrCloseBracket,
    Primary,
    CloseBracketAfterIndex,
    OpenParenthesisForArguments,
    CommaOrCloseParenthesis,
}

/// A parse error: what was expected, the offending token, and the 1-based
/// line that token began on. The first error aborts parsing of the unit.
#[derive(Debug, PartialEq)]
pub struct ParseError {
    pub expected: Expected,
    pub found: Token,
    pub line_number: usize,
}

/// The model of a parse error.
pub ghost struct SpecParseError {
    pub expected: Expected,
    pub found: SpecToken,
    pub line: nat,
}

impl View for ParseError {
    type V = SpecParseError;

    open spec fn view(&self) -> SpecParseError {
        SpecParseError {
            expected: self.expected,
            found: self.found@,
            line: self.line_number as nat,
        }
    }
}

/// The error reported at a given offending token.
pub open spec fn sp_error(expected: Expected, found: SpecTokenEntry) -> SpecParseError {
    SpecParseError { expected, found: found.token, line: found.line_number }
}

/// The error reported at a given offending token.
pub fn make_error(expected: Expected, found: TokenEntry) -> (e: ParseError)
    ensures
        e@ == sp_error(expected, found@),
{
    ParseError { expected, found: found.token, line_number: found.line_number }
}

// ---------------------------------------------------------------------------
// The model of one parsing step: a result and the tokens left over.
// ---------------------------------------------------------------------------

/// What a parse of a prefix of `ts` produces: the parsed value or the first
/// error, and the tokens not consumed.
pub ghost struct Parsed<T> {
    pub res: Result<T, SpecParseError>,
    pub rest: Seq<SpecTokenEntry>,
}

/// A successful parse leaving `rest`.
pub open spec fn p_ok<T>(v: T, rest: Seq<SpecTokenEntry>) -> Parsed<T> {
    Parsed { res: Ok(v), rest }
}

/// A failed parse at the offending token `found`, leaving `rest`.
pub open spec fn p_err<T>(expected: Expected, found: SpecTokenEntry, rest: Seq<SpecTokenEntry>)
    -> Parsed<T> {
    Parsed { res: Err(sp_error(expected, found)), rest }
}

/// An error propagated from a sub-parse.
pub open spec fn p_pass<T>(e: SpecParseError, rest: Seq<SpecTokenEntry>) -> Parsed<T> {
    Parsed { res: Err(e), rest }
}

/// A sub-parse always consumes at least the tokens its grammar names; this
/// value stands in the branches where the stream would not have shrunk, which
/// are never reached.
pub open spec fn p_stopped<T>(expected: Expected, ts: Seq<SpecTokenEntry>) -> Parsed<T> {
    p_err(expected, sp_peek_entry(ts), ts)
}

/// The front token and the rest; past the end, the end-of-stream sentinel.
pub open spec fn sp_eat(ts: Seq<SpecTokenEntry>) -> (SpecTokenEntry, Seq<SpecTokenEntry>) {
    if ts.len() == 0 {
        (SpecTokenEntry { token: SpecToken::EOF, line_number: 0 }, ts)
    } else {
        (ts[0], ts.drop_first())
    }
}

/// The front token without consuming it.
pub open spec fn sp_peek_entry(ts: Seq<SpecTokenEntry>) -> SpecTokenEntry {
    sp_eat(ts).0
}

/// The token one past the front.
pub open spec fn sp_peek_second(ts: Seq<SpecTokenEntry>) -> SpecTokenEntry {
    sp_peek_entry(sp_eat(ts).1)
}

// ---------------------------------------------------------------------------
// The token cursor: an index over an immutable buffer, consumed front-to-back.
// ---------------------------------------------------------------------------

/// The parser's cursor over the token stream.
pub struct TokenStream {
    pub tokens: Vec<TokenEntry>,
    pub pos: usize,
}

impl TokenStream {
    /// The cursor never stands past the end of the buffer.
    pub open spec fn wf(&self) -> bool {
        self.pos <= self.tokens@.len()
    }

    /// The models of the tokens not yet consumed.
    pub open spec fn remaining(&self) -> Seq<SpecTokenEntry> {
        view_tokens(self.tokens@).skip(self.pos as int)
    }

    /// A cursor at the front of `tokens`.
    pub fn new(tokens: Vec<TokenEntry>) -> (s: TokenStream)
        ensures
            s.wf(),
            s.remaining() == view_tokens(tokens@),
    {
        let s = TokenStream { tokens, pos: 0 };
        proof {
            assert(s.remaining() =~= view_tokens(s.tokens@));
        }
        s
    }

    /// Consumes and returns the front token; past the end, the end-of-stream
    /// sentinel, without moving.
    pub fn eat(&mut self) -> (t: TokenEntry)
        requires
            old(self).wf(),
        ensures
            final(self).wf(),
            final(self).tokens == old(self).tokens,
            old(self).pos <= final(self).pos,
            t@ == sp_eat(old(self).remaining()).0,
            final(self).remaining() == sp_eat(old(self).remaining()).1,
            old(self).remaining().len() > 0 ==> final(self).pos == old(self).pos + 1,
            old(self).remaining().len() == 0 ==> final(self).pos == old(self).pos,
    {
        if self.pos < self.tokens.len() {
            let t = self.tokens[self.pos].duplicate();
            self.pos = self.pos + 1;
            proof {
                assert(view_tokens(self.tokens@)[old(self).pos as int] == self.tokens@[old(
                    self,
                ).pos as int]@);
                assert(old(self).remaining()[0] == view_tokens(self.tokens@)[old(
                    self,
                ).pos as int]);
                assert(final(self).remaining() =~= old(self).remaining().drop_first());
            }
            t
        } else {
            TokenEntry { token: Token::EOF, line_number: 0 }
        }
    }

    /// The front token without consuming it.
    pub fn peek_entry(&self) -> (t: TokenEntry)
        requires
            self.wf(),
        ensures
            t@ == sp_peek_entry(self.remaining()),
    {
        if self.pos < self.tokens.len() {
            let t = self.tokens[self.pos].duplicate();
            proof {
                assert(view_tokens(self.tokens@)[self.pos as int] == self.tokens@[self.pos as int]@);
                assert(self.remaining()[0] == view_tokens(self.tokens@)[self.pos as int]);
            }
            t
        } else {
            TokenEntry { token: Token::EOF, line_number: 0 }
        }
    }

    /// The token one past the front, without consuming anything.
    pub fn peek_second(&self) -> (t: TokenEntry)
        requires
            self.wf(),
        ensures
            t@ == sp_peek_second(self.remaining()),
    {
        if self.pos < self.tokens.len() && self.pos + 1 < self.tokens.len() {
            let t = self.tokens[self.pos + 1].duplicate();
            proof {
                assert(view_tokens(self.tokens@)[self.pos + 1] == self.tokens@[self.pos + 1]@);
                assert(self.remaining().drop_first() =~= view_tokens(self.tokens@).skip(
                    self.pos + 1,
                ));
                assert(self.remaining().drop_first()[0] == view_tokens(self.tokens@)[self.pos
                    + 1]);
            }
            t
        } else {
            proof {
                if self.pos < self.tokens@.len() {
                    assert(self.remaining().drop_first() =~= view_tokens(self.tokens@).skip(
                        self.pos + 1,
                    ));
                }
            }
            TokenEntry { token: Token::EOF, line_number: 0 }
        }
    }

    /// Whether every token has been consumed.
    pub fn is_empty(&self) -> (b: bool)
        requires
            self.wf(),
        ensures
            b == (self.remaining().len() == 0),
    {
        self.pos >= self.tokens.len()
    }
}

/// The cursor stepped from `a` to `b`, leaving exactly `rest`.
pub open spec fn stepped(a: TokenStream, b: TokenStream, rest: Seq<SpecTokenEntry>) -> bool {
    &&& b.wf()
    &&& b.tokens == a.tokens
    &&& a.pos <= b.pos
    &&& b.remaining() == rest
}

// ---------------------------------------------------------------------------
// The type, parameter and function grammar.
// ---------------------------------------------------------------------------

/// Parses a type: a scalar keyword, or `list[` an element type `]` where the
/// element type is restricted to integer, float and complex.
pub open spec fn sp_parse_type(ts: Seq<SpecTokenEntry>) -> Parsed<Type>
    decreases ts.len(), 0nat,
{
    let (t, r1) = sp_eat(ts);
    match t.token {
        SpecToken::IntType => p_ok(Type::Int, r1),
        SpecToken::StringType => p_ok(Type::String, r1),
        SpecToken::Float => p_ok(Type::Float, r1),
        SpecToken::Matrix => p_ok(Type::Matrix, r1),
        SpecToken::Complex => p_ok(Type::Complex, r1),
        SpecToken::List => {
            let (ob, r2) = sp_eat(r1);
            if !(ob.token is OpenBracket) {
                p_err(Expected::OpenBracketAfterList, ob, r2)
            } else {
                let (el, r3) = sp_eat(r2);
                let elem: Option<Type> = match el.token {
                    SpecToken::IntType => Some(Type::IntList),
                    SpecToken::Complex => Some(Type::ComplexList),
                    SpecToken::Float => Some(Type::FloatList),
                    _ => None,
                };
                match elem {
                    None => p_err(Expected::ListElementType, el, r3),
                    Some(ty) => {
                        let (cb, r4) = sp_eat(r3);
                        if cb.token is CloseBracket {
                            p_ok(ty, r4)
                        } else {
                            p_err(Expected::CloseBracketAfterType, cb, r4)
                        }
                    },
                }
            }
        },
        _ => p_err(Expected::TypeName, t, r1),
    }
}

/// Parses one `name: type` parameter declaration.
pub open spec fn sp_parse_var_dec(ts: Seq<SpecTokenEntry>) -> Parsed<SpecParameter>
    decreases ts.len(), 13nat,
{
    let (nt, r1) = sp_eat(ts);
    match nt.token {
        SpecToken::Identifier(name) => {
            let (ct, r2) = sp_eat(r1);
            if ct.token is Colon {
                let p = sp_parse_type(r2);
                match p.res {
                    Ok(ty) => p_ok(SpecParameter { name, typetype: ty }, p.rest),
                    Err(e) => p_pass(e, p.rest),
                }
            } else {
                p_err(Expected::ColonAfterVariableName, ct, r2)
            }
        },
        _ => p_err(Expected::VariableName, nt, r1),
    }
}

/// Parses the parameters that follow the first one: each introduced by a
/// comma, until the closing parenthesis.
pub open spec fn sp_params_more(ts: Seq<SpecTokenEntry>, acc: Seq<SpecParameter>) -> Parsed<
    Seq<SpecParameter>,
>
    decreases ts.len(), 14nat,
{
    if sp_peek_entry(ts).token is CloseParenthesis {
        p_ok(acc, ts)
    } else {
        let (c, r1) = sp_eat(ts);
        if !(c.token is Comma) {
            p_err(Expected::CommaAfterParameter, c, r1)
        } else {
            let p = sp_parse_var_dec(r1);
            match p.res {
                Err(e) => p_pass(e, p.rest),
                Ok(param) => if p.rest.len() < ts.len() {
                    sp_params_more(p.rest, acc.push(param))
                } else {
                    p_stopped(Expected::CommaAfterParameter, p.rest)
                },
            }
        }
    }
}

/// The model of a function header: name, parameters and return type.
pub ghost struct SpecHeader {
    pub name: Seq<char>,
    pub parameters: Seq<SpecParameter>,
    pub return_type: Option<Type>,
}

/// Parses a function header after its `def` token: a name, a typed
/// parameter list in parentheses, and an optional scalar return type after
/// an arrow.
pub open spec fn sp_parse_fn_header(ts: Seq<SpecTokenEntry>) -> Parsed<SpecHeader>
    decreases ts.len(), 15nat,
{
    let (nt, r1) = sp_eat(ts);
    match nt.token {
        SpecToken::Identifier(name) => {
            let (op, r2) = sp_eat(r1);
            if !(op.token is OpenParenthesis) {
                p_err(Expected::OpenParenthesisAfterName, op, r2)
            } else {
                let params: Parsed<Seq<SpecParameter>> = if sp_peek_entry(r2).token
                    is CloseParenthesis {
                    p_ok(Seq::empty(), r2)
                } else {
                    let p0 = sp_parse_var_dec(r2);
                    match p0.res {
                        Err(e) => p_pass(e, p0.rest),
                        Ok(param) => if p0.rest.len() < ts.len() {
                            sp_params_more(p0.rest, seq![param])
                        } else {
                            p_stopped(Expected::CommaAfterParameter, p0.rest)
                        },
                    }
                };
                match params.res {
                    Err(e) => p_pass(e, params.rest),
                    Ok(ps) => {
                        let r3 = sp_eat(params.rest).1;
                        let rt: Parsed<Option<Type>> = if sp_peek_entry(r3).token is RightArrow {
                            let r4 = sp_eat(r3).1;
                            let tp = if r4.len() < ts.len() {
                                sp_parse_type(r4)
                            } else {
                                p_stopped(Expected::TypeName, r4)
                            };
                            match tp.res {
                                Err(e) => p_pass(e, tp.rest),
                                Ok(ty) => if ty == Type::Int || ty == Type::Float || ty
                                    == Type::Complex {
                                    p_ok(Some(ty), tp.rest)
                                } else {
                                    p_err(
                                        Expected::ScalarReturnType,
                                        sp_peek_entry(r4),
                                        tp.rest,
                                    )
                                },
                            }
                        } else {
                            p_ok(None, r3)
                        };
                        match rt.res {
                            Err(e) => p_pass(e, rt.rest),
                            Ok(return_type) => p_ok(
                                SpecHeader { name, parameters: ps, return_type },
                                rt.rest,
                            ),
                        }
                    },
                }
            }
        },
        _ => p_err(Expected::FunctionName, nt, r1),
    }
}

/// Parses a function definition after its `def` token: the header, then a
/// colon, a line break, and a body at the indentation width of its first
/// line, which must strictly exceed the width `outer` of the `def` line.
pub open spec fn sp_parse_function(ts: Seq<SpecTokenEntry>, outer: nat) -> Parsed<SpecFunction>
    decreases ts.len(), 16nat,
{
    let h = sp_parse_fn_header(ts);
    match h.res {
        Err(e) => p_pass(e, h.rest),
        Ok(hd) => {
            let (col, r5) = sp_eat(h.rest);
            if !(col.token is Colon) {
                p_err(Expected::ColonAfterParameters, col, r5)
            } else {
                let (nl, r6) = sp_eat(r5);
                if !(nl.token is NewLine) {
                    p_err(Expected::NewLineAfterHeader, nl, r6)
                } else {
                    match sp_peek_entry(r6).token {
                        SpecToken::Spaces(req) => if req > outer {
                            let body = if r6.len() < ts.len() {
                                crate::statements::sp_stmts_at(r6, req, Seq::empty())
                            } else {
                                p_stopped(Expected::IndentBeforeBody, r6)
                            };
                            match body.res {
                                Err(e) => p_pass(e, body.rest),
                                Ok(stmts) => p_ok(
                                    SpecFunction {
                                        name: hd.name,
                                        parameters: hd.parameters,
                                        return_type: hd.return_type,
                                        statements: stmts,
                                    },
                                    body.rest,
                                ),
                            }
                        } else {
                            p_err(Expected::DeeperIndentation, sp_peek_entry(r6), r6)
                        },
                        _ => p_err(Expected::IndentBeforeBody, sp_peek_entry(r6), r6),
                    }
                }
            }
        },
    }
}

/// Parses the whole unit: function definitions, each introduced by a line's
/// leading-spaces token and the `def` keyword; blank lines between
/// definitions are skipped.
pub open spec fn sp_parse_tokens_more(ts: Seq<SpecTokenEntry>, acc: Seq<SpecFunction>) -> Parsed<
    Seq<SpecFunction>,
>
    decreases ts.len(), 17nat,
{
    if ts.len() == 0 {
        p_ok(acc, ts)
    } else {
        let (t, r1) = sp_eat(ts);
        match t.token {
            SpecToken::Spaces(k) => {
                let (t2, r2) = sp_eat(r1);
                match t2.token {
                    SpecToken::Def => {
                        let f = sp_parse_function(r2, k);
                        match f.res {
                            Err(e) => p_pass(e, f.rest),
                            Ok(func) => if f.rest.len() < ts.len() {
                                sp_parse_tokens_more(f.rest, acc.push(func))
                            } else {
                                p_stopped(Expected::Def, f.rest)
                            },
                        }
                    },
                    SpecToken::NewLine => sp_parse_tokens_more(r2, acc),
                    _ => p_err(Expected::Def, t2, r2),
                }
            },
            SpecToken::NewLine => sp_parse_tokens_more(r1, acc),
            _ => p_err(Expected::Def, t, r1),
        }
    }
}

/// The model of parsing a unit's token stream into its function list.
pub open spec fn sp_parse_tokens(ts: Seq<SpecTokenEntry>) -> Parsed<Seq<SpecFunction>> {
    sp_parse_tokens_more(ts, Seq::empty())
}

/// Parses a type; see [`sp_parse_type`].
pub fn parse_type(ts: &mut TokenStream) -> (r: Result<Type, ParseError>)
    requires
        old(ts).wf(),
    ensures
        ({
            let p = sp_parse_type(old(ts).remaining());
            stepped(*old(ts), *final(ts), p.rest) && match (r, p.res) {
                (Ok(t), Ok(st)) => t == st,
                (Err(e), Err(se)) => e@ == se,
                _ => false,
            }
        }),
    decreases old(ts).remaining().len(), 0nat,
{
    let t = ts.eat();
    match t.token {
        Token::IntType => Ok(Type::Int),
        Token::StringType => Ok(Type::String),
        Token::Float => Ok(Type::Float),
        Token::Matrix => Ok(Type::Matrix),
        Token::Complex => Ok(Type::Complex),
        Token::List => {
            let ob = ts.eat();
            if !matches!(ob.token, Token::OpenBracket) {
                return Err(make_error(Expected::OpenBracketAfterList, ob));
            }
            let el = ts.eat();
            let ty = match el.token {
                Token::IntType => Type::IntList,
                Token::Complex => Type::ComplexList,
                Token::Float => Type::FloatList,
                _ => {
                    return Err(make_error(Expected::ListElementType, el));
                },
            };
            let cb = ts.eat();
            if matches!(cb.token, Token::CloseBracket) {
                Ok(ty)
            } else {
                Err(make_error(Expected::CloseBracketAfterType, cb))
            }
        },
        _ => Err(make_error(Expected::TypeName, t)),
    }
}

/// Parses one `name: type` parameter declaration; see [`sp_parse_var_dec`].
pub fn parse_var_dec(ts: &mut TokenStream) -> (r: Result<Parameter, ParseError>)
    requires
        old(ts).wf(),
    ensures
        ({
            let p = sp_parse_var_dec(old(ts).remaining());
            stepped(*old(ts), *final(ts), p.rest) && match (r, p.res) {
                (Ok(v), Ok(sv)) => v@ == sv,
                (Err(e), Err(se)) => e@ == se,
                _ => false,
            } && (r is Ok ==> old(ts).pos < final(ts).pos)
        }),
    decreases old(ts).remaining().len(), 13nat,
{
    let nt = ts.eat();
    match nt.token {
        Token::Identifier(name) => {
            let ct = ts.eat();
            if matches!(ct.token, Token::Colon) {
                let ty = match parse_type(ts) {
                    Ok(v) => v,
                    Err(e) => {
                        return Err(e);
                    },
                };
                Ok(Parameter { name, typetype: ty })
            } else {
                Err(make_error(Expected::ColonAfterVariableName, ct))
            }
        },
        t => Err(make_error(
            Expected::VariableName,
            TokenEntry { token: t, line_number: nt.line_number },
        )),
    }
}

/// Parses a function header after its `def` token; see
/// [`sp_parse_fn_header`].
#[verifier::loop_isolation(false)]
#[verifier::rlimit(100)]
fn parse_fn_header(ts: &mut TokenStream) -> (r: Result<
    (String, Vec<Parameter>, Option<Type>),
    ParseError,
>)
    requires
        old(ts).wf(),
    ensures
        ({
            let p = sp_parse_fn_header(old(ts).remaining());
            stepped(*old(ts), *final(ts), p.rest) && match (r, p.res) {
                (Ok(h), Ok(sh)) => h.0@ == sh.name && view_params(h.1@) == sh.parameters && h.2
                    == sh.return_type,
                (Err(e), Err(se)) => e@ == se,
                _ => false,
            }
        }),
    decreases old(ts).remaining().len(), 15nat,
{
    let ghost rem0 = old(ts).remaining();
    let nt = ts.eat();
    let name = match nt.token {
        Token::Identifier(name) => name,
        t => {
            return Err(make_error(
                Expected::FunctionName,
                TokenEntry { token: t, line_number: nt.line_number },
            ));
        },
    };
    let op = ts.eat();
    if !matches!(op.token, Token::OpenParenthesis) {
        return Err(make_error(Expected::OpenParenthesisAfterName, op));
    }
    let mut parameters: Vec<Parameter> = Vec::new();
    let pk0 = ts.peek_entry();
    let ghost sp_params = (if sp_peek_entry(ts.remaining()).token is CloseParenthesis {
        p_ok(Seq::<SpecParameter>::empty(), ts.remaining())
    } else {
        let p0 = sp_parse_var_dec(ts.remaining());
        match p0.res {
            Err(e) => p_pass(e, p0.rest),
            Ok(param) => if p0.rest.len() < rem0.len() {
                sp_params_more(p0.rest, seq![param])
            } else {
                p_stopped(Expected::CommaAfterParameter, p0.rest)
            },
        }
    });
    if !matches!(pk0.token, Token::CloseParenthesis) {
        let first = match parse_var_dec(ts) {
            Ok(v) => v,
            Err(e) => {
                return Err(e);
            },
        };
        parameters.push(first);
        proof {
            assert(view_params(parameters@) =~= seq![first@]);
        }
        loop
            invariant
                ts.wf(),
                ts.tokens == old(ts).tokens,
                old(ts).pos <= ts.pos,
                sp_params_more(ts.remaining(), view_params(parameters@)) == sp_params,
            decreases ts.remaining().len(),
        {
            let ghost rem_here = ts.remaining();
            let ghost acc0 = view_params(parameters@);
            let pk = ts.peek_entry();
            if matches!(pk.token, Token::CloseParenthesis) {
                proof {
                    assert(sp_params_more(rem_here, acc0) == p_ok::<Seq<SpecParameter>>(
                        acc0,
                        rem_here,
                    ));
                }
                break;
            }
            let c = ts.eat();
            if !matches!(c.token, Token::Comma) {
                return Err(make_error(Expected::CommaAfterParameter, c));
            }
            let param = match parse_var_dec(ts) {
                Ok(v) => v,
                Err(e) => {
                    return Err(e);
                },
            };
            parameters.push(param);
            proof {
                assert(view_params(parameters@) =~= acc0.push(param@));
                assert(ts.remaining().len() < rem_here.len());
                assert(sp_params_more(rem_here, acc0) == sp_params_more(
                    ts.remaining(),
                    view_params(parameters@),
                ));
            }
        }
    } else {
        proof {
            assert(view_params(parameters@) =~= Seq::<SpecParameter>::empty());
        }
    }
    proof {
        assert(sp_params == p_ok::<Seq<SpecParameter>>(view_params(parameters@), ts.remaining()));
    }
    let _ = ts.eat();
    let pk1 = ts.peek_entry();
    let return_type: Option<Type> = if matches!(pk1.token, Token::RightArrow) {
        let _ = ts.eat();
        let type_tok = ts.peek_entry();
        let ty = match parse_type(ts) {
            Ok(v) => v,
            Err(e) => {
                return Err(e);
            },
        };
        match ty {
            Type::Int | Type::Float | Type::Complex => {},
            _ => {
                return Err(make_error(Expected::ScalarReturnType, type_tok));
            },
        }
        Some(ty)
    } else {
        None
    };
    Ok((name, parameters, return_type))
}

/// Parses a function definition after its `def` token; see
/// [`sp_parse_function`]. `outer` is the width of the `def` line, which the
/// body's width must strictly exceed.
#[verifier::rlimit(100)]
pub fn parse_function(ts: &mut TokenStream, outer: usize) -> (r: Result<Function, ParseError>)
    requires
        old(ts).wf(),
    ensures
        ({
            let p = sp_parse_function(old(ts).remaining(), outer as nat);
            stepped(*old(ts), *final(ts), p.rest) && match (r, p.res) {
                (Ok(f), Ok(sf)) => f@ == sf,
                (Err(e), Err(se)) => e@ == se,
                _ => false,
            }
        }),
    decreases old(ts).remaining().len(), 16nat,
{
    let (name, parameters, return_type) = match parse_fn_header(ts) {
        Ok(v) => v,
        Err(e) => {
            return Err(e);
        },
    };
    let col = ts.eat();
    if !matches!(col.token, Token::Colon) {
        return Err(make_error(Expected::ColonAfterParameters, col));
    }
    let nl = ts.eat();
    if !matches!(nl.token, Token::NewLine) {
        return Err(make_error(Expected::NewLineAfterHeader, nl));
    }
    let pk2 = ts.peek_entry();
    let spacing_req: usize = match pk2.token {
        Token::Spaces(v) => v,
        _ => {
            return Err(make_error(Expected::IndentBeforeBody, pk2));
        },
    };
    if spacing_req <= outer {
        return Err(make_error(Expected::DeeperIndentation, pk2));
    }
    let statements = match parse_statements_at(ts, spacing_req) {
        Ok(v) => v,
        Err(e) => {
            return Err(e);
        },
    };
    Ok(Function { name, parameters, return_type, statements })
}

/// Parses a unit's token stream into its ordered function definitions; see
/// [`sp_parse_tokens`]. The first syntax error aborts the parse.
#[verifier::loop_isolation(false)]
#[verifier::rlimit(100)]
pub fn parse_tokens(tokens: Vec<TokenEntry>) -> (r: Result<Vec<Function>, ParseError>)
    ensures
        ({
            let p = sp_parse_tokens(view_tokens(tokens@));
            match (r, p.res) {
                (Ok(fs), Ok(sfs)) => view_functions(fs@) == sfs,
                (Err(e), Err(se)) => e@ == se,
                _ => false,
            }
        }),
{
    let ghost whole = view_tokens(tokens@);
    let ghost target = sp_parse_tokens(whole);
    let mut ts = TokenStream::new(tokens);
    let mut functions: Vec<Function> = Vec::new();
    proof {
        assert(view_functions(functions@) =~= Seq::<SpecFunction>::empty());
    }
    loop
        invariant
            ts.wf(),
            sp_parse_tokens_more(ts.remaining(), view_functions(functions@)) == target,
        decreases ts.remaining().len(),
    {
        let ghost rem_here = ts.remaining();
        let ghost acc0 = view_functions(functions@);
        if ts.is_empty() {
            proof {
                assert(sp_parse_tokens_more(rem_here, acc0) == p_ok::<Seq<SpecFunction>>(
                    acc0,
                    rem_here,
                ));
            }
            return Ok(functions);
        }
        let t = ts.eat();
        match t.token {
            Token::Spaces(k) => {
                let t2 = ts.eat();
                match t2.token {
                    Token::Def => {
                        let func = match parse_function(&mut ts, k) {
                            Ok(v) => v,
                            Err(e) => {
                                return Err(e);
                            },
                        };
                        let ghost fs0 = functions@;
                        functions.push(func);
                        proof {
                            assert(view_functions(functions@) =~= acc0.push(func@));
                            assert(ts.remaining().len() < rem_here.len());
                        }
                    },
                    Token::NewLine => {},
                    _ => {
                        return Err(make_error(Expected::Def, t2));
                    },
                }
            },
            Token::NewLine => {},
            _ => {
                return Err(make_error(Expected::Def, t));
            },
        }
    }
}

} // verus!
