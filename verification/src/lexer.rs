//! Lexical analysis: the token type and the tokenizer.
//!
//! The tokenizer makes a single left-to-right pass over the source text with
//! one character of lookahead. Its behaviour is specified exactly by
//! [`spec_tokenize`], and [`to_tokens`] is proved to return exactly that
//! token sequence.

use vstd::prelude::*;

verus! {

/// One lexical unit. Literals carry their value; a float literal carries the
/// source text it was written with, since the front end never computes with
/// float values. `Spaces` carries the count of leading spaces of a logical
/// line, `NewLine` marks a line break, and `EOF` is the sentinel the token
/// cursor hands out past the end of the stream.
#[derive(Debug, PartialEq, Clone)]
pub enum Token {
    Identifier(String),
    Colon,
    OpenBracket,
    CloseBracket,
    OpenParenthesis,
    CloseParenthesis,
    EmptyList,
    Comma,
    Plus,
    Minus,
    Increment,
    Decrement,
    Star,
    Slash,
    Percent,
    Equals,
    EqualsEquals,
    NotEquals,
    GreaterThan,
    GreaterThanEquals,
    LessThan,
    LessThanEquals,
    PlusEquals,
    MinusEquals,
    MultiplyEquals,
    DivideEquals,
    PercentEquals,
    LeftShift,
    RightShift,
    Not,
    AndAnd,
    And,
    OrOr,
    Or,
    StringLiteral(String),
    BoolLiteral(bool),
    IntLiteral(i64),
    FloatLiteral(String),
    Return,
    If,
    While,
    Else,
    For,
    IntType,
    StringType,
    Def,
    Pass,
    Spaces(usize),
    List,
    Del,
    Float,
    EOF,
    Matrix,
    Complex,
    RightArrow,
    NewLine,
}

/// The mathematical model of a token: text as `Seq<char>`, counts as `nat`,
/// integer literals as unbounded `int`.
pub ghost enum SpecToken {
    Identifier(Seq<char>),
    Colon,
    OpenBracket,
    CloseBracket,
    OpenParenthesis,
    CloseParenthesis,
    EmptyList,
    Comma,
    Plus,
    Minus,
    Increment,
    Decrement,
    Star,
    Slash,
    Percent,
    Equals,
    EqualsEquals,
    NotEquals,
    GreaterThan,
    GreaterThanEquals,
    LessThan,
    LessThanEquals,
    PlusEquals,
    MinusEquals,
    MultiplyEquals,
    DivideEquals,
    PercentEquals,
    LeftShift,
    RightShift,
    Not,
    AndAnd,
    And,
    OrOr,
    Or,
    StringLiteral(Seq<char>),
    BoolLiteral(bool),
    IntLiteral(int),
    FloatLiteral(Seq<char>),
    Return,
    If,
    While,
    Else,
    For,
    IntType,
    StringType,
    Def,
    Pass,
    Spaces(nat),
    List,
    Del,
    Float,
    EOF,
    Matrix,
    Complex,
    RightArrow,
    NewLine,
}

impl View for Token {
    type V = SpecToken;

    open spec fn view(&self) -> SpecToken {
        match self {
            Token::Identifier(s) => SpecToken::Identifier(s@),
            Token::Colon => SpecToken::Colon,
            Token::OpenBracket => SpecToken::OpenBracket,
            Token::CloseBracket => SpecToken::CloseBracket,
            Token::OpenParenthesis => SpecToken::OpenParenthesis,
            Token::CloseParenthesis => SpecToken::CloseParenthesis,
            Token::EmptyList => SpecToken::EmptyList,
            Token::Comma => SpecToken::Comma,
            Token::Plus => SpecToken::Plus,
            Token::Minus => SpecToken::Minus,
            Token::Increment => SpecToken::Increment,
            Token::Decrement => SpecToken::Decrement,
            Token::Star => SpecToken::Star,
            Token::Slash => SpecToken::Slash,
            Token::Percent => SpecToken::Percent,
            Token::Equals => SpecToken::Equals,
            Token::EqualsEquals => SpecToken::EqualsEquals,
            Token::NotEquals => SpecToken::NotEquals,
            Token::GreaterThan => SpecToken::GreaterThan,
            Token::GreaterThanEquals => SpecToken::GreaterThanEquals,
            Token::LessThan => SpecToken::LessThan,
            Token::LessThanEquals => SpecToken::LessThanEquals,
            Token::PlusEquals => SpecToken::PlusEquals,
            Token::MinusEquals => SpecToken::MinusEquals,
            Token::MultiplyEquals => SpecToken::MultiplyEquals,
            Token::DivideEquals => SpecToken::DivideEquals,
            Token::PercentEquals => SpecToken::PercentEquals,
            Token::LeftShift => SpecToken::LeftShift,
            Token::RightShift => SpecToken::RightShift,
            Token::Not => SpecToken::Not,
            Token::AndAnd => SpecToken::AndAnd,
            Token::And => SpecToken::And,
            Token::OrOr => SpecToken::OrOr,
            Token::Or => SpecToken::Or,
            Token::StringLiteral(s) => SpecToken::StringLiteral(s@),
            Token::BoolLiteral(b) => SpecToken::BoolLiteral(*b),
            Token::IntLiteral(i) => SpecToken::IntLiteral(*i as int),
            Token::FloatLiteral(s) => SpecToken::FloatLiteral(s@),
            Token::Return => SpecToken::Return,
            Token::If => SpecToken::If,
            Token::While => SpecToken::While,
            Token::Else => SpecToken::Else,
            Token::For => SpecToken::For,
            Token::IntType => SpecToken::IntType,
            Token::StringType => SpecToken::StringType,
            Token::Def => SpecToken::Def,
            Token::Pass => SpecToken::Pass,
            Token::Spaces(n) => SpecToken::Spaces(*n as nat),
            Token::List => SpecToken::List,
            Token::Del => SpecToken::Del,
            Token::Float => SpecToken::Float,
            Token::EOF => SpecToken::EOF,
            Token::Matrix => SpecToken::Matrix,
            Token::Complex => SpecToken::Complex,
            Token::RightArrow => SpecToken::RightArrow,
            Token::NewLine => SpecToken::NewLine,
        }
    }
}

impl Token {
    /// An owned copy whose model is the same as this token's.
    pub fn duplicate(&self) -> (t: Token)
        ensures
            t@ == self@,
    {
        match self {
            Token::Identifier(s) => Token::Identifier(s.clone()),
            Token::Colon => Token::Colon,
            Token::OpenBracket => Token::OpenBracket,
            Token::CloseBracket => Token::CloseBracket,
            Token::OpenParenthesis => Token::OpenParenthesis,
            Token::CloseParenthesis => Token::CloseParenthesis,
            Token::EmptyList => Token::EmptyList,
            Token::Comma => Token::Comma,
            Token::Plus => Token::Plus,
            Token::Minus => Token::Minus,
            Token::Increment => Token::Increment,
            Token::Decrement => Token::Decrement,
            Token::Star => Token::Star,
            Token::Slash => Token::Slash,
            Token::Percent => Token::Percent,
            Token::Equals => Token::Equals,
            Token::EqualsEquals => Token::EqualsEquals,
            Token::NotEquals => Token::NotEquals,
            Token::GreaterThan => Token::GreaterThan,
            Token::GreaterThanEquals => Token::GreaterThanEquals,
            Token::LessThan => Token::LessThan,
            Token::LessThanEquals => Token::LessThanEquals,
            Token::PlusEquals => Token::PlusEquals,
            Token::MinusEquals => Token::MinusEquals,
            Token::MultiplyEquals => Token::MultiplyEquals,
            Token::DivideEquals => Token::DivideEquals,
            Token::PercentEquals => Token::PercentEquals,
            Token::LeftShift => Token::LeftShift,
            Token::RightShift => Token::RightShift,
            Token::Not => Token::Not,
            Token::AndAnd => Token::AndAnd,
            Token::And => Token::And,
            Token::OrOr => Token::OrOr,
            Token::Or => Token::Or,
            Token::StringLiteral(s) => Token::StringLiteral(s.clone()),
            Token::BoolLiteral(b) => Token::BoolLiteral(*b),
            Token::IntLiteral(i) => Token::IntLiteral(*i),
            Token::FloatLiteral(s) => Token::FloatLiteral(s.clone()),
            Token::Return => Token::Return,
            Token::If => Token::If,
            Token::While => Token::While,
            Token::Else => Token::Else,
            Token::For => Token::For,
            Token::IntType => Token::IntType,
            Token::StringType => Token::StringType,
            Token::Def => Token::Def,
            Token::Pass => Token::Pass,
            Token::Spaces(n) => Token::Spaces(*n),
            Token::List => Token::List,
            Token::Del => Token::Del,
            Token::Float => Token::Float,
            Token::EOF => Token::EOF,
            Token::Matrix => Token::Matrix,
            Token::Complex => Token::Complex,
            Token::RightArrow => Token::RightArrow,
            Token::NewLine => Token::NewLine,
        }
    }
}

/// A token paired with the 1-based source line on which it began.
#[derive(Debug, PartialEq, Clone)]
pub struct TokenEntry {
    pub token: Token,
    pub line_number: usize,
}

/// The model of a token entry.
pub ghost struct SpecTokenEntry {
    pub token: SpecToken,
    pub line_number: nat,
}

impl View for TokenEntry {
    type V = SpecTokenEntry;

    open spec fn view(&self) -> SpecTokenEntry {
        SpecTokenEntry { token: self.token@, line_number: self.line_number as nat }
    }
}

impl TokenEntry {
    /// An owned copy whose model is the same as this entry's.
    pub fn duplicate(&self) -> (t: TokenEntry)
        ensures
            t@ == self@,
    {
        TokenEntry { token: self.token.duplicate(), line_number: self.line_number }
    }
}

/// The model of a whole token stream.
pub open spec fn view_tokens(ts: Seq<TokenEntry>) -> Seq<SpecTokenEntry> {
    ts.map_values(|t: TokenEntry| t@)
}

// ---------------------------------------------------------------------------
// Word classification: keyword, boolean, integer, float, else identifier.
// ---------------------------------------------------------------------------

/// `c` is a decimal digit.
pub open spec fn is_digit(c: char) -> bool {
    48 <= c as u32 <= 57
}

/// The numeric value of a run of decimal digits.
pub open spec fn digits_val(w: Seq<char>) -> int
    decreases w.len(),
{
    if w.len() == 0 {
        0
    } else {
        digits_val(w.drop_last()) * 10 + (w.last() as u32 - 48)
    }
}

/// Every character of `w` is a decimal digit.
pub open spec fn all_digits(w: Seq<char>) -> bool {
    forall|i: int| 0 <= i < w.len() ==> is_digit(w[i])
}

/// The value a word denotes when read as a signed 64-bit decimal integer:
/// an optional sign, then at least one digit, with the value in range.
pub open spec fn spec_parse_i64(w: Seq<char>) -> Option<int> {
    let neg = w.len() > 0 && w[0] == '-';
    let digits = if w.len() > 0 && (w[0] == '-' || w[0] == '+') {
        w.drop_first()
    } else {
        w
    };
    if digits.len() > 0 && all_digits(digits) {
        let v = if neg {
            -digits_val(digits)
        } else {
            digits_val(digits)
        };
        if i64::MIN <= v <= i64::MAX {
            Some(v)
        } else {
            None
        }
    } else {
        None
    }
}

/// The states of the float-syntax automaton, entered after an optional sign:
/// an integer part, a fraction introduced by a dot (which needs a digit when
/// no integer part preceded it), and an exponent with an optional sign.
#[derive(Clone, Copy, PartialEq, Eq, Structural, Debug)]
pub enum FloatSt {
    Start,
    Int,
    DotNeedDigit,
    Frac,
    ExpStart,
    ExpSign,
    ExpDigits,
}

/// One step of the float-syntax automaton; `None` rejects the word.
pub open spec fn float_step(st: FloatSt, c: char) -> Option<FloatSt> {
    match st {
        FloatSt::Start => if is_digit(c) {
            Some(FloatSt::Int)
        } else if c == '.' {
            Some(FloatSt::DotNeedDigit)
        } else {
            None
        },
        FloatSt::Int => if is_digit(c) {
            Some(FloatSt::Int)
        } else if c == '.' {
            Some(FloatSt::Frac)
        } else if c == 'e' || c == 'E' {
            Some(FloatSt::ExpStart)
        } else {
            None
        },
        FloatSt::DotNeedDigit => if is_digit(c) {
            Some(FloatSt::Frac)
        } else {
            None
        },
        FloatSt::Frac => if is_digit(c) {
            Some(FloatSt::Frac)
        } else if c == 'e' || c == 'E' {
            Some(FloatSt::ExpStart)
        } else {
            None
        },
        FloatSt::ExpStart => if is_digit(c) {
            Some(FloatSt::ExpDigits)
        } else if c == '+' || c == '-' {
            Some(FloatSt::ExpSign)
        } else {
            None
        },
        FloatSt::ExpSign => if is_digit(c) {
            Some(FloatSt::ExpDigits)
        } else {
            None
        },
        FloatSt::ExpDigits => if is_digit(c) {
            Some(FloatSt::ExpDigits)
        } else {
            None
        },
    }
}

/// Whether ending in state `st` accepts the word.
pub open spec fn float_accept(st: FloatSt) -> bool {
    st == FloatSt::Int || st == FloatSt::Frac || st == FloatSt::ExpDigits
}

/// Runs the float-syntax automaton over `s` from state `st`.
pub open spec fn float_run(st: FloatSt, s: Seq<char>) -> bool
    decreases s.len(),
{
    if s.len() == 0 {
        float_accept(st)
    } else {
        match float_step(st, s[0]) {
            None => false,
            Some(st2) => float_run(st2, s.drop_first()),
        }
    }
}

/// The ASCII-lowercase codepoint of `c`.
pub open spec fn lower_code(c: char) -> int {
    if 65 <= c as u32 <= 90 {
        c as u32 + 32
    } else {
        c as u32 as int
    }
}

/// `w` equals `lit` up to ASCII case.
pub open spec fn eq_ignore_case(w: Seq<char>, lit: Seq<char>) -> bool {
    w.len() == lit.len() && forall|i: int| 0 <= i < w.len() ==> lower_code(w[i]) == lower_code(
        lit[i],
    )
}

/// The word has the syntax of a 64-bit float literal: an optional sign, then
/// one of the words `inf`, `infinity` or `nan` in any case, or digits with an
/// optional fraction and exponent.
pub open spec fn spec_is_float(w: Seq<char>) -> bool {
    let body = if w.len() > 0 && (w[0] == '-' || w[0] == '+') {
        w.drop_first()
    } else {
        w
    };
    ||| eq_ignore_case(body, seq!['i', 'n', 'f'])
    ||| eq_ignore_case(body, seq!['i', 'n', 'f', 'i', 'n', 'i', 't', 'y'])
    ||| eq_ignore_case(body, seq!['n', 'a', 'n'])
    ||| float_run(FloatSt::Start, body)
}

/// Classifies a completed word, in this fixed priority order: exact keyword
/// match, then boolean literal, then integer literal, then float literal,
/// else a plain identifier.
pub open spec fn spec_classify(w: Seq<char>) -> SpecToken {
    if w == "return"@ {
        SpecToken::Return
    } else if w == "if"@ {
        SpecToken::If
    } else if w == "while"@ {
        SpecToken::While
    } else if w == "else"@ {
        SpecToken::Else
    } else if w == "for"@ {
        SpecToken::For
    } else if w == "int"@ {
        SpecToken::IntType
    } else if w == "str"@ {
        SpecToken::StringType
    } else if w == "def"@ {
        SpecToken::Def
    } else if w == "pass"@ {
        SpecToken::Pass
    } else if w == "list"@ {
        SpecToken::List
    } else if w == "Matrix"@ {
        SpecToken::Matrix
    } else if w == "Complex"@ {
        SpecToken::Complex
    } else if w == "del"@ {
        SpecToken::Del
    } else if w == "float"@ {
        SpecToken::Float
    } else if w == "true"@ {
        SpecToken::BoolLiteral(true)
    } else if w == "false"@ {
        SpecToken::BoolLiteral(false)
    } else if spec_parse_i64(w) is Some {
        SpecToken::IntLiteral(spec_parse_i64(w)->Some_0)
    } else if spec_is_float(w) {
        SpecToken::FloatLiteral(w)
    } else {
        SpecToken::Identifier(w)
    }
}

// ---------------------------------------------------------------------------
// The scan itself: a single pass with one character of lookahead.
// ---------------------------------------------------------------------------

/// The scanner's state between characters.
pub ghost struct LexState {
    /// Inside a string literal.
    pub in_string: bool,
    /// Inside a comment, which runs to the next line break.
    pub commenting: bool,
    /// Still counting leading spaces of the current logical line.
    pub counting: bool,
    /// The word accumulated so far.
    pub word: Seq<char>,
    /// The 1-based line the scanner is on.
    pub line: nat,
    /// Leading spaces counted so far on this line.
    pub spaces: nat,
}

/// The scanner's state at the start of the source.
pub open spec fn init_state() -> LexState {
    LexState {
        in_string: false,
        commenting: false,
        counting: true,
        word: Seq::empty(),
        line: 1,
        spaces: 0,
    }
}

/// A token entry at a line.
pub open spec fn tok_at(t: SpecToken, line: nat) -> SpecTokenEntry {
    SpecTokenEntry { token: t, line_number: line }
}

/// The tokens emitted when the accumulated word (if any) is completed.
pub open spec fn flush(st: LexState) -> Seq<SpecTokenEntry> {
    if st.word.len() == 0 {
        Seq::empty()
    } else {
        seq![tok_at(spec_classify(st.word), st.line)]
    }
}

/// The single leading-spaces token of a logical line, emitted at the first
/// token of the line even when the count is zero.
pub open spec fn lead(st: LexState) -> Seq<SpecTokenEntry> {
    if st.counting {
        seq![tok_at(SpecToken::Spaces(st.spaces), st.line)]
    } else {
        Seq::empty()
    }
}

/// A double-character operator follows: the next character decides.
pub open spec fn two_char(cs: Seq<char>, second: char) -> bool {
    cs.len() > 1 && cs[1] == second
}

/// The tokens produced by scanning the rest of the source `cs` in state `st`.
///
/// Inside a string literal all other rules are suspended; a backslash escapes
/// a following quote, and the backslash itself is not retained. A `##`
/// comment discards everything to the next line break. Leading spaces of each
/// logical line are counted and emitted as one `Spaces` token at the line's
/// first other token; a blank line emits none. Operator characters look one
/// character ahead to decide between single- and double-character forms. Any
/// other character run accumulates into a word, completed by a space, tab,
/// carriage return, line break or operator character and then classified.
pub open spec fn spec_scan(cs: Seq<char>, st: LexState) -> Seq<SpecTokenEntry>
    decreases cs.len(),
{
    if cs.len() == 0 {
        flush(st)
    } else {
        let c = cs[0];
        let rest = cs.drop_first();
        if st.in_string {
            if c == '\\' && two_char(cs, '"') {
                spec_scan(cs.skip(2), LexState { word: st.word.push('"'), ..st })
            } else if c == '\\' && two_char(cs, '\'') {
                spec_scan(cs.skip(2), LexState { word: st.word.push('\''), ..st })
            } else if c == '"' {
                seq![tok_at(SpecToken::StringLiteral(st.word), st.line)] + spec_scan(
                    rest,
                    LexState { in_string: false, word: Seq::empty(), ..st },
                )
            } else {
                spec_scan(rest, LexState { word: st.word.push(c), ..st })
            }
        } else if st.commenting && c != '\n' && c != '\r' {
            spec_scan(rest, st)
        } else if !st.commenting && c == '#' && two_char(cs, '#') {
            spec_scan(rest, LexState { commenting: true, ..st })
        } else {
            // Reaching here, `c` closes any open comment.
            let st0 = LexState { commenting: false, ..st };
            if c == '\n' {
                flush(st0) + seq![tok_at(SpecToken::NewLine, st0.line)] + spec_scan(
                    rest,
                    LexState {
                        commenting: false,
                        counting: true,
                        word: Seq::empty(),
                        line: st0.line + 1,
                        spaces: 0,
                        ..st0
                    },
                )
            } else if c == ' ' {
                let sp = if st0.counting {
                    st0.spaces + 1
                } else {
                    st0.spaces
                };
                flush(st0) + spec_scan(rest, LexState { word: Seq::empty(), spaces: sp, ..st0 })
            } else {
                // The line's first token: emit the leading-spaces count.
                let led = lead(st0);
                let st1 = LexState { counting: false, spaces: 0, ..st0 };
                if c == '\\' && two_char(cs, '"') {
                    led + spec_scan(cs.skip(2), LexState { word: st1.word.push('"'), ..st1 })
                } else if c == '\\' && two_char(cs, '\'') {
                    led + spec_scan(cs.skip(2), LexState { word: st1.word.push('\''), ..st1 })
                } else if c == '"' {
                    led + spec_scan(rest, LexState { in_string: true, ..st1 })
                } else if c == '\r' || c == '\t' {
                    led + flush(st1) + spec_scan(rest, LexState { word: Seq::empty(), ..st1 })
                } else if is_op_char(c) {
                    let (t, used) = op_token(cs);
                    led + flush(st1) + seq![tok_at(t, st1.line)] + spec_scan(
                        cs.skip(used),
                        LexState { word: Seq::empty(), ..st1 },
                    )
                } else {
                    led + spec_scan(rest, LexState { word: st1.word.push(c), ..st1 })
                }
            }
        }
    }
}

/// `c` begins an operator or punctuation token.
pub open spec fn is_op_char(c: char) -> bool {
    ||| c == ':'
    ||| c == '['
    ||| c == ']'
    ||| c == '('
    ||| c == ')'
    ||| c == ','
    ||| c == '+'
    ||| c == '-'
    ||| c == '*'
    ||| c == '/'
    ||| c == '%'
    ||| c == '<'
    ||| c == '>'
    ||| c == '='
    ||| c == '!'
    ||| c == '&'
    ||| c == '|'
}

/// The operator token begun at `cs[0]`, with one character of lookahead, and
/// how many characters it uses.
pub open spec fn op_token(cs: Seq<char>) -> (SpecToken, int) {
    let c = cs[0];
    if c == ':' {
        (SpecToken::Colon, 1)
    } else if c == '[' {
        if two_char(cs, ']') {
            (SpecToken::EmptyList, 2)
        } else {
            (SpecToken::OpenBracket, 1)
        }
    } else if c == ']' {
        (SpecToken::CloseBracket, 1)
    } else if c == '(' {
        (SpecToken::OpenParenthesis, 1)
    } else if c == ')' {
        (SpecToken::CloseParenthesis, 1)
    } else if c == ',' {
        (SpecToken::Comma, 1)
    } else if c == '+' {
        if two_char(cs, '=') {
            (SpecToken::PlusEquals, 2)
        } else if two_char(cs, '+') {
            (SpecToken::Increment, 2)
        } else {
            (SpecToken::Plus, 1)
        }
    } else if c == '-' {
        if two_char(cs, '-') {
            (SpecToken::Decrement, 2)
        } else if two_char(cs, '=') {
            (SpecToken::MinusEquals, 2)
        } else if two_char(cs, '>') {
            (SpecToken::RightArrow, 2)
        } else {
            (SpecToken::Minus, 1)
        }
    } else if c == '*' {
        if two_char(cs, '=') {
            (SpecToken::MultiplyEquals, 2)
        } else {
            (SpecToken::Star, 1)
        }
    } else if c == '/' {
        if two_char(cs, '=') {
            (SpecToken::DivideEquals, 2)
        } else {
            (SpecToken::Slash, 1)
        }
    } else if c == '%' {
        if two_char(cs, '=') {
            (SpecToken::PercentEquals, 2)
        } else {
            (SpecToken::Percent, 1)
        }
    } else if c == '<' {
        if two_char(cs, '<') {
            (SpecToken::LeftShift, 2)
        } else if two_char(cs, '=') {
            (SpecToken::LessThanEquals, 2)
        } else {
            (SpecToken::LessThan, 1)
        }
    } else if c == '>' {
        if two_char(cs, '>') {
            (SpecToken::RightShift, 2)
        } else if two_char(cs, '=') {
            (SpecToken::GreaterThanEquals, 2)
        } else {
            (SpecToken::GreaterThan, 1)
        }
    } else if c == '=' {
        if two_char(cs, '=') {
            (SpecToken::EqualsEquals, 2)
        } else {
            (SpecToken::Equals, 1)
        }
    } else if c == '!' {
        if two_char(cs, '=') {
            (SpecToken::NotEquals, 2)
        } else {
            (SpecToken::Not, 1)
        }
    } else if c == '&' {
        if two_char(cs, '&') {
            (SpecToken::AndAnd, 2)
        } else {
            (SpecToken::And, 1)
        }
    } else {
        if two_char(cs, '|') {
            (SpecToken::OrOr, 2)
        } else {
            (SpecToken::Or, 1)
        }
    }
}

// ---------------------------------------------------------------------------
// Preprocessing and the post-pass.
// ---------------------------------------------------------------------------

/// The import-boilerplate substring removed before scanning.
pub open spec fn boilerplate() -> Seq<char> {
    seq![
        'f',
        'r',
        'o',
        'm',
        ' ',
        'c',
        'r',
        'u',
        'n',
        'c',
        'h',
        '_',
        'l',
        'i',
        'b',
        ' ',
        'i',
        'm',
        'p',
        'o',
        'r',
        't',
        ' ',
        '*',
    ]
}

/// Removes every occurrence of the boilerplate substring, left to right.
pub open spec fn spec_strip(cs: Seq<char>) -> Seq<char>
    decreases cs.len(),
{
    if cs.len() >= boilerplate().len() && cs.subrange(0, boilerplate().len() as int)
        == boilerplate() {
        spec_strip(cs.skip(boilerplate().len() as int))
    } else if cs.len() == 0 {
        Seq::empty()
    } else {
        seq![cs[0]] + spec_strip(cs.drop_first())
    }
}

/// Drops the first token while the stream begins with two consecutive
/// leading-spaces tokens, an artifact of the boilerplate substitution.
pub open spec fn spec_cleanup(ts: Seq<SpecTokenEntry>) -> Seq<SpecTokenEntry>
    decreases ts.len(),
{
    if ts.len() >= 2 && (ts[0].token is Spaces) && (ts[1].token is Spaces) {
        spec_cleanup(ts.drop_first())
    } else {
        ts
    }
}

/// The token sequence of a compilation unit: the boilerplate substring is
/// removed, the text is scanned, and leading duplicate spaces tokens are
/// dropped.
pub open spec fn spec_tokenize(s: Seq<char>) -> Seq<SpecTokenEntry> {
    spec_cleanup(spec_scan(spec_strip(s), init_state()))
}

/// The tokens emitted when a word `w` collected on line `line` is completed.
pub open spec fn flush_at(w: Seq<char>, line: nat) -> Seq<SpecTokenEntry> {
    if w.len() == 0 {
        Seq::empty()
    } else {
        seq![tok_at(spec_classify(w), line)]
    }
}

/// The broadcast form used by proofs: `flush` reads only the word and line.
pub broadcast proof fn lemma_flush_is_flush_at(st: LexState)
    ensures
        #[trigger] flush(st) == flush_at(st.word, st.line),
{
}

// ---------------------------------------------------------------------------
// Executable helpers.
// ---------------------------------------------------------------------------

/// Relies on `String::push`: appends one character to the string.
#[verifier::external_body]
fn push_char(s: &mut String, c: char)
    ensures
        final(s)@ == old(s)@.push(c),
{
    s.push(c)
}

/// The characters of `s`, as a vector.
fn str_chars(s: &str) -> (v: Vec<char>)
    ensures
        v@ == s@,
{
    let n = s.unicode_len();
    let mut v: Vec<char> = Vec::new();
    let mut i: usize = 0;
    while i < n
        invariant
            i <= n,
            n == s@.len(),
            v@ == s@.subrange(0, i as int),
        decreases n - i,
    {
        v.push(s.get_char(i));
        i = i + 1;
        proof {
            assert(v@ =~= s@.subrange(0, i as int));
        }
    }
    proof {
        assert(v@ =~= s@);
    }
    v
}

/// Whether `a` and `b` hold the same characters.
pub fn str_eq(a: &str, b: &str) -> (r: bool)
    ensures
        r == (a@ == b@),
{
    let n = a.unicode_len();
    if n != b.unicode_len() {
        return false;
    }
    let mut i: usize = 0;
    while i < n
        invariant
            i <= n,
            n == a@.len() == b@.len(),
            forall|j: int| 0 <= j < i ==> a@[j] == b@[j],
        decreases n - i,
    {
        if a.get_char(i) != b.get_char(i) {
            return false;
        }
        i = i + 1;
    }
    proof {
        assert(a@ =~= b@);
    }
    true
}

/// The value of the word read as a signed 64-bit decimal integer, or `None`
/// where it is not one.
#[verifier::loop_isolation(false)]
fn parse_i64_str(s: &str) -> (r: Option<i64>)
    ensures
        match r {
            Some(v) => spec_parse_i64(s@) == Some(v as int),
            None => spec_parse_i64(s@) is None,
        },
{
    let n = s.unicode_len();
    if n == 0 {
        return None;
    }
    let first = s.get_char(0);
    let neg = first == '-';
    let start: usize = if first == '-' || first == '+' {
        1
    } else {
        0
    };
    let ghost digits = if start == 1 {
        s@.drop_first()
    } else {
        s@
    };
    proof {
        assert(digits =~= s@.subrange(start as int, n as int));
    }
    if n == start {
        return None;
    }
    let mut mag: u128 = 0;
    let mut i: usize = start;
    while i < n
        invariant
            start <= i <= n,
            n == s@.len(),
            digits == s@.subrange(start as int, n as int),
            forall|j: int| start <= j < i ==> is_digit(s@[j]),
            mag <= 0x8000_0000_0000_0000u128 ==> mag as int == digits_val(
                s@.subrange(start as int, i as int),
            ),
            mag > 0x8000_0000_0000_0000u128 ==> digits_val(s@.subrange(start as int, i as int))
                > 0x8000_0000_0000_0000,
            mag <= 0x5000_0000_0000_0000_9u128,
        decreases n - i,
    {
        let c = s.get_char(i);
        let code = c as u32;
        if code < 48 || code > 57 {
            proof {
                assert(digits[i - start] == s@[i as int]);
                assert(!all_digits(digits));
                let sd = if s@.len() > 0 && (s@[0] == '-' || s@[0] == '+') {
                    s@.drop_first()
                } else {
                    s@
                };
                assert(sd == digits);
                assert(spec_parse_i64(s@) is None);
            }
            return None;
        }
        let ghost pre = s@.subrange(start as int, i as int);
        let ghost post = s@.subrange(start as int, i + 1 as int);
        proof {
            assert(post.drop_last() =~= pre);
            assert(post.last() == s@[i as int]);
            assert(all_digits(pre));
            lemma_digits_val_nonneg(pre);
        }
        let d = (code - 48) as u128;
        if mag <= 0x8000_0000_0000_0000u128 {
            mag = mag * 10 + d;
        }
        i = i + 1;
    }
    proof {
        assert(s@.subrange(start as int, i as int) =~= digits);
        assert(all_digits(digits));
    }
    if neg {
        if mag > 0x8000_0000_0000_0000u128 {
            None
        } else if mag == 0x8000_0000_0000_0000u128 {
            Some(i64::MIN)
        } else {
            Some(-(mag as i64))
        }
    } else {
        if mag >= 0x8000_0000_0000_0000u128 {
            None
        } else {
            Some(mag as i64)
        }
    }
}

/// The value of a digit run is never negative.
proof fn lemma_digits_val_nonneg(w: Seq<char>)
    requires
        all_digits(w),
    ensures
        digits_val(w) >= 0,
    decreases w.len(),
{
    if w.len() > 0 {
        assert(forall|i: int| 0 <= i < w.len() - 1 ==> w.drop_last()[i] == w[i]);
        lemma_digits_val_nonneg(w.drop_last());
        assert(is_digit(w.last()));
    }
}

/// The ASCII-lowercase codepoint of `c`.
fn lower_c(c: char) -> (r: u32)
    ensures
        r as int == lower_code(c),
{
    let code = c as u32;
    if 65 <= code && code <= 90 {
        code + 32
    } else {
        code
    }
}

/// Whether `s` from index `start` equals `lit` up to ASCII case.
fn eq_ci_lit(s: &str, start: usize, lit: &str) -> (b: bool)
    requires
        start <= s@.len(),
    ensures
        b == eq_ignore_case(s@.skip(start as int), lit@),
{
    let n = s.unicode_len();
    let m = lit.unicode_len();
    if n - start != m {
        return false;
    }
    let mut i: usize = 0;
    while i < m
        invariant
            i <= m,
            start + m <= n,
            n == s@.len(),
            m == lit@.len(),
            forall|j: int| 0 <= j < i ==> lower_code(s@[start + j]) == lower_code(lit@[j]),
        decreases m - i,
    {
        if lower_c(s.get_char(start + i)) != lower_c(lit.get_char(i)) {
            proof {
                assert(s@.skip(start as int)[i as int] == s@[start + i]);
            }
            return false;
        }
        i = i + 1;
    }
    proof {
        assert(forall|j: int|
            0 <= j < m ==> s@.skip(start as int)[j] == s@[start + j]);
    }
    true
}

/// One step of the float-syntax automaton.
fn float_step_exec(st: FloatSt, c: char) -> (r: Option<FloatSt>)
    ensures
        r == float_step(st, c),
{
    let code = c as u32;
    let digit = 48 <= code && code <= 57;
    match st {
        FloatSt::Start => if digit {
            Some(FloatSt::Int)
        } else if c == '.' {
            Some(FloatSt::DotNeedDigit)
        } else {
            None
        },
        FloatSt::Int => if digit {
            Some(FloatSt::Int)
        } else if c == '.' {
            Some(FloatSt::Frac)
        } else if c == 'e' || c == 'E' {
            Some(FloatSt::ExpStart)
        } else {
            None
        },
        FloatSt::DotNeedDigit => if digit {
            Some(FloatSt::Frac)
        } else {
            None
        },
        FloatSt::Frac => if digit {
            Some(FloatSt::Frac)
        } else if c == 'e' || c == 'E' {
            Some(FloatSt::ExpStart)
        } else {
            None
        },
        FloatSt::ExpStart => if digit {
            Some(FloatSt::ExpDigits)
        } else if c == '+' || c == '-' {
            Some(FloatSt::ExpSign)
        } else {
            None
        },
        FloatSt::ExpSign => if digit {
            Some(FloatSt::ExpDigits)
        } else {
            None
        },
        FloatSt::ExpDigits => if digit {
            Some(FloatSt::ExpDigits)
        } else {
            None
        },
    }
}

/// Whether the word has the syntax of a 64-bit float literal.
#[verifier::loop_isolation(false)]
fn is_float_str(s: &str) -> (b: bool)
    ensures
        b == spec_is_float(s@),
{
    let n = s.unicode_len();
    let start: usize = if n > 0 && (s.get_char(0) == '-' || s.get_char(0) == '+') {
        1
    } else {
        0
    };
    let ghost body = if start == 1 {
        s@.drop_first()
    } else {
        s@
    };
    proof {
        assert(body =~= s@.skip(start as int));
        reveal_strlit("inf");
        reveal_strlit("infinity");
        reveal_strlit("nan");
        assert("inf"@ =~= seq!['i', 'n', 'f']);
        assert("infinity"@ =~= seq!['i', 'n', 'f', 'i', 'n', 'i', 't', 'y']);
        assert("nan"@ =~= seq!['n', 'a', 'n']);
    }
    if eq_ci_lit(s, start, "inf") || eq_ci_lit(s, start, "infinity") || eq_ci_lit(s, start, "nan")
    {
        return true;
    }
    let mut st = FloatSt::Start;
    let mut i: usize = start;
    while i < n
        invariant
            start <= i <= n,
            n == s@.len(),
            body == s@.skip(start as int),
            float_run(FloatSt::Start, body) == float_run(st, s@.skip(i as int)),
        decreases n - i,
    {
        let ghost rest = s@.skip(i as int);
        proof {
            assert(rest.len() == n - i);
            assert(rest[0] == s@[i as int]);
            assert(rest.drop_first() =~= s@.skip(i + 1));
        }
        match float_step_exec(st, s.get_char(i)) {
            Some(st2) => {
                st = st2;
            },
            None => {
                proof {
                    assert(!float_run(st, rest));
                    let sb = if s@.len() > 0 && (s@[0] == '-' || s@[0] == '+') {
                        s@.drop_first()
                    } else {
                        s@
                    };
                    assert(sb == body);
                    assert(!spec_is_float(s@));
                }
                return false;
            },
        }
        i = i + 1;
    }
    proof {
        assert(s@.skip(n as int) =~= Seq::<char>::empty());
    }
    match st {
        FloatSt::Int => true,
        FloatSt::Frac => true,
        FloatSt::ExpDigits => true,
        _ => false,
    }
}

/// Classifies a completed word into its token.
fn classify_word(w: String) -> (t: Token)
    ensures
        t@ == spec_classify(w@),
{
    if str_eq(w.as_str(), "return") {
        Token::Return
    } else if str_eq(w.as_str(), "if") {
        Token::If
    } else if str_eq(w.as_str(), "while") {
        Token::While
    } else if str_eq(w.as_str(), "else") {
        Token::Else
    } else if str_eq(w.as_str(), "for") {
        Token::For
    } else if str_eq(w.as_str(), "int") {
        Token::IntType
    } else if str_eq(w.as_str(), "str") {
        Token::StringType
    } else if str_eq(w.as_str(), "def") {
        Token::Def
    } else if str_eq(w.as_str(), "pass") {
        Token::Pass
    } else if str_eq(w.as_str(), "list") {
        Token::List
    } else if str_eq(w.as_str(), "Matrix") {
        Token::Matrix
    } else if str_eq(w.as_str(), "Complex") {
        Token::Complex
    } else if str_eq(w.as_str(), "del") {
        Token::Del
    } else if str_eq(w.as_str(), "float") {
        Token::Float
    } else if str_eq(w.as_str(), "true") {
        Token::BoolLiteral(true)
    } else if str_eq(w.as_str(), "false") {
        Token::BoolLiteral(false)
    } else if let Some(v) = parse_i64_str(w.as_str()) {
        Token::IntLiteral(v)
    } else if is_float_str(w.as_str()) {
        Token::FloatLiteral(w)
    } else {
        Token::Identifier(w)
    }
}

/// `view_tokens` distributes over `push`.
proof fn lemma_view_push(ts: Seq<TokenEntry>, e: TokenEntry)
    ensures
        view_tokens(ts.push(e)) == view_tokens(ts).push(e@),
{
    assert(view_tokens(ts.push(e)) =~= view_tokens(ts).push(e@));
}

/// Completes the collected word, if any: classifies it and appends its token.
fn flush_word(word: &mut String, tokens: &mut Vec<TokenEntry>, line: usize)
    ensures
        final(word)@ == Seq::<char>::empty(),
        view_tokens(final(tokens)@) == view_tokens(old(tokens)@) + flush_at(
            old(word)@,
            line as nat,
        ),
{
    if word.as_str().is_empty() {
        proof {
            assert(view_tokens(tokens@) =~= view_tokens(tokens@) + flush_at(
                word@,
                line as nat,
            ));
        }
    } else {
        let mut w = String::new();
        core::mem::swap(&mut w, word);
        let t = classify_word(w);
        let e = TokenEntry { token: t, line_number: line };
        tokens.push(e);
        proof {
            lemma_view_push(old(tokens)@, e);
            assert(view_tokens(old(tokens)@).push(e@) =~= view_tokens(old(tokens)@) + flush_at(
                old(word)@,
                line as nat,
            ));
        }
    }
}

/// Appends one token entry; the stream's model grows by the entry's model.
fn push_tok(tokens: &mut Vec<TokenEntry>, t: Token, line: usize)
    ensures
        view_tokens(final(tokens)@) == view_tokens(old(tokens)@).push(tok_at(t@, line as nat)),
{
    let ghost t0 = tokens@;
    let e = TokenEntry { token: t, line_number: line };
    tokens.push(e);
    proof {
        lemma_view_push(t0, e);
    }
}

/// Whether the boilerplate substring stands at position `i` of `v`.
#[verifier::loop_isolation(false)]
fn boiler_at(v: &Vec<char>, i: usize) -> (b: bool)
    requires
        i <= v@.len(),
    ensures
        b == (v@.skip(i as int).len() >= boilerplate().len() && v@.skip(i as int).subrange(
            0,
            boilerplate().len() as int,
        ) == boilerplate()),
{
    let lit = "from crunch_lib import *";
    proof {
        reveal_strlit("from crunch_lib import *");
        assert(lit@ =~= boilerplate());
    }
    let m = lit.unicode_len();
    if v.len() - i < m {
        return false;
    }
    let ghost tail = v@.skip(i as int);
    let mut k: usize = 0;
    while k < m
        invariant
            k <= m,
            m == boilerplate().len(),
            i + m <= v@.len(),
            lit@ == boilerplate(),
            tail == v@.skip(i as int),
            forall|j: int| 0 <= j < k ==> v@[i + j] == boilerplate()[j],
        decreases m - k,
    {
        proof {
            assert(i + k < v@.len());
        }
        if v[i + k] != lit.get_char(k) {
            proof {
                assert(tail.subrange(0, boilerplate().len() as int)[k as int] == v@[i + k]);
            }
            return false;
        }
        k = k + 1;
    }
    proof {
        assert(tail.subrange(0, boilerplate().len() as int) =~= boilerplate());
    }
    true
}

/// Removes every occurrence of the boilerplate substring, left to right.
fn strip_boilerplate(v: &Vec<char>) -> (out: Vec<char>)
    ensures
        out@ == spec_strip(v@),
{
    let n = v.len();
    let mut out: Vec<char> = Vec::new();
    let mut i: usize = 0;
    proof {
        assert(v@.skip(0) =~= v@);
        assert(out@ + spec_strip(v@) =~= spec_strip(v@));
    }
    while i < n
        invariant
            i <= n,
            n == v@.len(),
            spec_strip(v@) == out@ + spec_strip(v@.skip(i as int)),
        decreases n - i,
    {
        let ghost pre = v@.skip(i as int);
        let ghost out0 = out@;
        if boiler_at(v, i) {
            proof {
                assert(pre.skip(boilerplate().len() as int) =~= v@.skip(i + boilerplate().len()));
            }
            i = i + 24;
            proof {
                assert(spec_strip(pre) == spec_strip(v@.skip(i as int)));
            }
        } else {
            out.push(v[i]);
            i = i + 1;
            proof {
                assert(pre.drop_first() =~= v@.skip(i as int));
                assert(spec_strip(pre) == seq![pre[0]] + spec_strip(v@.skip(i as int)));
                assert(out@ =~= out0 + seq![pre[0]]);
                assert(out0 + (seq![pre[0]] + spec_strip(v@.skip(i as int))) =~= out@ + spec_strip(
                    v@.skip(i as int),
                ));
            }
        }
    }
    proof {
        assert(v@.skip(n as int) =~= Seq::<char>::empty());
        assert(out@ =~= out@ + spec_strip(v@.skip(n as int)));
    }
    out
}

/// Stripping never lengthens the text.
proof fn lemma_strip_len_le(cs: Seq<char>)
    ensures
        spec_strip(cs).len() <= cs.len(),
    decreases cs.len(),
{
    if cs.len() >= boilerplate().len() && cs.subrange(0, boilerplate().len() as int)
        == boilerplate() {
        lemma_strip_len_le(cs.skip(boilerplate().len() as int));
    } else if cs.len() == 0 {
    } else {
        lemma_strip_len_le(cs.drop_first());
    }
}

/// The operator token begun at `v[i]`, with one character of lookahead, and
/// how many characters it uses.
#[verifier::loop_isolation(false)]
fn op_token_exec(v: &Vec<char>, i: usize) -> (r: (Token, usize))
    requires
        i < v@.len(),
        is_op_char(v@[i as int]),
    ensures
        (r.0@, r.1 as int) == op_token(v@.skip(i as int)),
        1 <= r.1 <= 2,
        i + r.1 <= v@.len(),
{
    let ghost cs = v@.skip(i as int);
    proof {
        assert(cs[0] == v@[i as int]);
        assert(cs.len() == v@.len() - i);
        if i + 1 < v@.len() {
            assert(cs[1] == v@[i + 1]);
        }
    }
    let n = v.len();
    let c = v[i];
    let two = |x: char| -> bool { i + 1 < n && v[i + 1] == x };
    if c == ':' {
        (Token::Colon, 1)
    } else if c == '[' {
        if i + 1 < n && v[i + 1] == ']' {
            (Token::EmptyList, 2)
        } else {
            (Token::OpenBracket, 1)
        }
    } else if c == ']' {
        (Token::CloseBracket, 1)
    } else if c == '(' {
        (Token::OpenParenthesis, 1)
    } else if c == ')' {
        (Token::CloseParenthesis, 1)
    } else if c == ',' {
        (Token::Comma, 1)
    } else if c == '+' {
        if i + 1 < n && v[i + 1] == '=' {
            (Token::PlusEquals, 2)
        } else if i + 1 < n && v[i + 1] == '+' {
            (Token::Increment, 2)
        } else {
            (Token::Plus, 1)
        }
    } else if c == '-' {
        if i + 1 < n && v[i + 1] == '-' {
            (Token::Decrement, 2)
        } else if i + 1 < n && v[i + 1] == '=' {
            (Token::MinusEquals, 2)
        } else if i + 1 < n && v[i + 1] == '>' {
            (Token::RightArrow, 2)
        } else {
            (Token::Minus, 1)
        }
    } else if c == '*' {
        if i + 1 < n && v[i + 1] == '=' {
            (Token::MultiplyEquals, 2)
        } else {
            (Token::Star, 1)
        }
    } else if c == '/' {
        if i + 1 < n && v[i + 1] == '=' {
            (Token::DivideEquals, 2)
        } else {
            (Token::Slash, 1)
        }
    } else if c == '%' {
        if i + 1 < n && v[i + 1] == '=' {
            (Token::PercentEquals, 2)
        } else {
            (Token::Percent, 1)
        }
    } else if c == '<' {
        if i + 1 < n && v[i + 1] == '<' {
            (Token::LeftShift, 2)
        } else if i + 1 < n && v[i + 1] == '=' {
            (Token::LessThanEquals, 2)
        } else {
            (Token::LessThan, 1)
        }
    } else if c == '>' {
        if i + 1 < n && v[i + 1] == '>' {
            (Token::RightShift, 2)
        } else if i + 1 < n && v[i + 1] == '=' {
            (Token::GreaterThanEquals, 2)
        } else {
            (Token::GreaterThan, 1)
        }
    } else if c == '=' {
        if i + 1 < n && v[i + 1] == '=' {
            (Token::EqualsEquals, 2)
        } else {
            (Token::Equals, 1)
        }
    } else if c == '!' {
        if i + 1 < n && v[i + 1] == '=' {
            (Token::NotEquals, 2)
        } else {
            (Token::Not, 1)
        }
    } else if c == '&' {
        if i + 1 < n && v[i + 1] == '&' {
            (Token::AndAnd, 2)
        } else {
            (Token::And, 1)
        }
    } else {
        if i + 1 < n && v[i + 1] == '|' {
            (Token::OrOr, 2)
        } else {
            (Token::Or, 1)
        }
    }
}

/// Whether `c` begins an operator or punctuation token.
fn is_op_char_exec(c: char) -> (b: bool)
    ensures
        b == is_op_char(c),
{
    c == ':' || c == '[' || c == ']' || c == '(' || c == ')' || c == ',' || c == '+' || c == '-'
        || c == '*' || c == '/' || c == '%' || c == '<' || c == '>' || c == '=' || c == '!'
        || c == '&' || c == '|'
}

/// Tokenizes one compilation unit: the boilerplate substring is removed, the
/// text is scanned in a single left-to-right pass with one character of
/// lookahead, and leading duplicate spaces tokens are dropped. Lexing is
/// total, so the result is always `Ok` and equals [`spec_tokenize`] exactly.
#[verifier::loop_isolation(false)]
#[verifier::rlimit(100)]
pub fn to_tokens(source: &str) -> (r: Result<Vec<TokenEntry>, String>)
    requires
        source@.len() < usize::MAX,
    ensures
        r is Ok,
        match r {
            Ok(v) => view_tokens(v@) == spec_tokenize(source@),
            Err(_) => false,
        },
{
    let cs = str_chars(source);
    let stripped = strip_boilerplate(&cs);
    proof {
        lemma_strip_len_le(cs@);
    }
    let n = stripped.len();
    let mut tokens: Vec<TokenEntry> = Vec::new();
    let mut word = String::new();
    let mut in_string = false;
    let mut commenting = false;
    let mut counting = true;
    let mut line: usize = 1;
    let mut spaces: usize = 0;
    let mut i: usize = 0;
    proof {
        assert(stripped@.skip(0) =~= stripped@);
        assert(view_tokens(tokens@) =~= Seq::<SpecTokenEntry>::empty());
        assert(word@ =~= Seq::<char>::empty());
        assert(view_tokens(tokens@) + spec_scan(stripped@, init_state()) =~= spec_scan(
            stripped@,
            init_state(),
        ));
    }
    while i < n
        invariant
            i <= n,
            line <= 1 + i,
            spaces <= i,
            !counting ==> spaces == 0,
            spec_scan(stripped@, init_state()) == view_tokens(tokens@) + spec_scan(
                stripped@.skip(i as int),
                LexState {
                    in_string: in_string,
                    commenting: commenting,
                    counting: counting,
                    word: word@,
                    line: line as nat,
                    spaces: spaces as nat,
                },
            ),
        decreases n - i,
    {
        let ghost i0 = i as int;
        let ghost st0 = LexState {
            in_string: in_string,
            commenting: commenting,
            counting: counting,
            word: word@,
            line: line as nat,
            spaces: spaces as nat,
        };
        let ghost cs0 = stripped@.skip(i0);
        let ghost v0 = view_tokens(tokens@);
        proof {
            assert(cs0.len() == n - i0);
            assert(cs0[0] == stripped@[i0]);
            assert(cs0.drop_first() =~= stripped@.skip(i0 + 1));
            if i0 + 1 < n {
                assert(cs0[1] == stripped@[i0 + 1]);
                assert(cs0.skip(2) =~= stripped@.skip(i0 + 2));
            }
        }
        let c = stripped[i];
        if in_string {
            if c == '\\' && i + 1 < n && (stripped[i + 1] == '"' || stripped[i + 1] == '\'') {
                push_char(&mut word, stripped[i + 1]);
                i = i + 2;
            } else if c == '"' {
                let mut w = String::new();
                core::mem::swap(&mut w, &mut word);
                push_tok(&mut tokens, Token::StringLiteral(w), line);
                in_string = false;
                i = i + 1;
            } else {
                push_char(&mut word, c);
                i = i + 1;
            }
        } else if commenting && c != '\n' && c != '\r' {
            i = i + 1;
        } else if !commenting && c == '#' && i + 1 < n && stripped[i + 1] == '#' {
            commenting = true;
            i = i + 1;
        } else {
            commenting = false;
            if c == '\n' {
                flush_word(&mut word, &mut tokens, line);
                push_tok(&mut tokens, Token::NewLine, line);
                line = line + 1;
                counting = true;
                spaces = 0;
                i = i + 1;
            } else if c == ' ' {
                if counting {
                    spaces = spaces + 1;
                }
                flush_word(&mut word, &mut tokens, line);
                i = i + 1;
            } else {
                if counting {
                    push_tok(&mut tokens, Token::Spaces(spaces), line);
                    counting = false;
                    spaces = 0;
                }
                if c == '\\' && i + 1 < n && (stripped[i + 1] == '"' || stripped[i + 1] == '\'') {
                    push_char(&mut word, stripped[i + 1]);
                    i = i + 2;
                } else if c == '"' {
                    in_string = true;
                    i = i + 1;
                } else if c == '\r' || c == '\t' {
                    flush_word(&mut word, &mut tokens, line);
                    i = i + 1;
                } else if is_op_char_exec(c) {
                    flush_word(&mut word, &mut tokens, line);
                    let (t, used) = op_token_exec(&stripped, i);
                    push_tok(&mut tokens, t, line);
                    i = i + used;
                } else {
                    push_char(&mut word, c);
                    i = i + 1;
                }
            }
        }
        proof {
            broadcast use lemma_flush_is_flush_at;

            let st1 = LexState {
                in_string: in_string,
                commenting: commenting,
                counting: counting,
                word: word@,
                line: line as nat,
                spaces: spaces as nat,
            };
            let v1 = view_tokens(tokens@);
            let emitted = v1.skip(v0.len() as int);
            assert(v1 =~= v0 + emitted);
            assert(spec_scan(cs0, st0) =~= emitted + spec_scan(stripped@.skip(i as int), st1));
            assert(v0 + (emitted + spec_scan(stripped@.skip(i as int), st1)) =~= (v0 + emitted)
                + spec_scan(stripped@.skip(i as int), st1));
        }
    }
    proof {
        assert(stripped@.skip(n as int) =~= Seq::<char>::empty());
    }
    flush_word(&mut word, &mut tokens, line);
    proof {
        broadcast use lemma_flush_is_flush_at;

        assert(view_tokens(tokens@) =~= spec_scan(stripped@, init_state()));
    }
    let ghost target = spec_tokenize(source@);
    proof {
        assert(spec_cleanup(view_tokens(tokens@)) == target);
    }
    while tokens.len() >= 2 && matches!(tokens[0].token, Token::Spaces(_)) && matches!(
        tokens[1].token,
        Token::Spaces(_),
    )
        invariant
            spec_cleanup(view_tokens(tokens@)) == target,
        decreases tokens@.len(),
    {
        let ghost t0 = view_tokens(tokens@);
        proof {
            assert(t0[0].token is Spaces);
            assert(t0[1].token is Spaces);
        }
        tokens.remove(0);
        proof {
            assert(view_tokens(tokens@) =~= t0.drop_first());
        }
    }
    proof {
        assert(spec_cleanup(view_tokens(tokens@)) == view_tokens(tokens@));
    }
    Ok(tokens)
}

// ---------------------------------------------------------------------------
// The round-trip law: for source free of strings, comments and the
// boilerplate substring, whose integer words are written canonically,
// re-joining the text of the tokens reconstructs exactly the non-whitespace
// character sequence of the source.
// ---------------------------------------------------------------------------

/// The whitespace characters the tokenizer normalizes away.
pub open spec fn is_ws(c: char) -> bool {
    c == ' ' || c == '\n' || c == '\r' || c == '\t'
}

/// A character that accumulates into a word: neither an operator character
/// nor whitespace.
pub open spec fn is_word_char(c: char) -> bool {
    !is_op_char(c) && !is_ws(c)
}

/// The non-whitespace characters of the source, in order.
pub open spec fn non_ws(cs: Seq<char>) -> Seq<char>
    decreases cs.len(),
{
    if cs.len() == 0 {
        Seq::empty()
    } else if is_ws(cs[0]) {
        non_ws(cs.drop_first())
    } else {
        seq![cs[0]] + non_ws(cs.drop_first())
    }
}

/// The decimal digit character of a value below ten.
pub open spec fn digit_char(d: int) -> char {
    if d == 0 {
        '0'
    } else if d == 1 {
        '1'
    } else if d == 2 {
        '2'
    } else if d == 3 {
        '3'
    } else if d == 4 {
        '4'
    } else if d == 5 {
        '5'
    } else if d == 6 {
        '6'
    } else if d == 7 {
        '7'
    } else if d == 8 {
        '8'
    } else {
        '9'
    }
}

/// The canonical decimal text of a value of at least zero.
pub open spec fn nat_text(n: int) -> Seq<char>
    decreases n,
{
    if n < 10 {
        seq![digit_char(n)]
    } else {
        nat_text(n / 10) + seq![digit_char(n % 10)]
    }
}

/// The canonical decimal text of an integer.
pub open spec fn int_text(i: int) -> Seq<char> {
    if i < 0 {
        seq!['-'] + nat_text(-i)
    } else {
        nat_text(i)
    }
}

/// The text a token joins back as. Leading-spaces counts, line breaks and
/// the end-of-stream sentinel hold no text: whitespace normalization is
/// intentional.
pub open spec fn token_text(t: SpecToken) -> Seq<char> {
    match t {
        SpecToken::Identifier(s) => s,
        SpecToken::Colon => seq![':'],
        SpecToken::OpenBracket => seq!['['],
        SpecToken::CloseBracket => seq![']'],
        SpecToken::OpenParenthesis => seq!['('],
        SpecToken::CloseParenthesis => seq![')'],
        SpecToken::EmptyList => seq!['[', ']'],
        SpecToken::Comma => seq![','],
        SpecToken::Plus => seq!['+'],
        SpecToken::Minus => seq!['-'],
        SpecToken::Increment => seq!['+', '+'],
        SpecToken::Decrement => seq!['-', '-'],
        SpecToken::Star => seq!['*'],
        SpecToken::Slash => seq!['/'],
        SpecToken::Percent => seq!['%'],
        SpecToken::Equals => seq!['='],
        SpecToken::EqualsEquals => seq!['=', '='],
        SpecToken::NotEquals => seq!['!', '='],
        SpecToken::GreaterThan => seq!['>'],
        SpecToken::GreaterThanEquals => seq!['>', '='],
        SpecToken::LessThan => seq!['<'],
        SpecToken::LessThanEquals => seq!['<', '='],
        SpecToken::PlusEquals => seq!['+', '='],
        SpecToken::MinusEquals => seq!['-', '='],
        SpecToken::MultiplyEquals => seq!['*', '='],
        SpecToken::DivideEquals => seq!['/', '='],
        SpecToken::PercentEquals => seq!['%', '='],
        SpecToken::LeftShift => seq!['<', '<'],
        SpecToken::RightShift => seq!['>', '>'],
        SpecToken::Not => seq!['!'],
        SpecToken::AndAnd => seq!['&', '&'],
        SpecToken::And => seq!['&'],
        SpecToken::OrOr => seq!['|', '|'],
        SpecToken::Or => seq!['|'],
        SpecToken::StringLiteral(s) => s,
        SpecToken::BoolLiteral(b) => if b {
            seq!['t', 'r', 'u', 'e']
        } else {
            seq!['f', 'a', 'l', 's', 'e']
        },
        SpecToken::IntLiteral(i) => int_text(i),
        SpecToken::FloatLiteral(s) => s,
        SpecToken::Return => seq!['r', 'e', 't', 'u', 'r', 'n'],
        SpecToken::If => seq!['i', 'f'],
        SpecToken::While => seq!['w', 'h', 'i', 'l', 'e'],
        SpecToken::Else => seq!['e', 'l', 's', 'e'],
        SpecToken::For => seq!['f', 'o', 'r'],
        SpecToken::IntType => seq!['i', 'n', 't'],
        SpecToken::StringType => seq!['s', 't', 'r'],
        SpecToken::Def => seq!['d', 'e', 'f'],
        SpecToken::Pass => seq!['p', 'a', 's', 's'],
        SpecToken::Spaces(_) => Seq::empty(),
        SpecToken::List => seq!['l', 'i', 's', 't'],
        SpecToken::Del => seq!['d', 'e', 'l'],
        SpecToken::Float => seq!['f', 'l', 'o', 'a', 't'],
        SpecToken::EOF => Seq::empty(),
        SpecToken::Matrix => seq!['M', 'a', 't', 'r', 'i', 'x'],
        SpecToken::Complex => seq!['C', 'o', 'm', 'p', 'l', 'e', 'x'],
        SpecToken::RightArrow => seq!['-', '>'],
        SpecToken::NewLine => Seq::empty(),
    }
}

/// The texts of a token stream, joined in order.
pub open spec fn join_text(ts: Seq<SpecTokenEntry>) -> Seq<char>
    decreases ts.len(),
{
    if ts.len() == 0 {
        Seq::empty()
    } else {
        token_text(ts[0].token) + join_text(ts.drop_first())
    }
}

/// The word's classified token joins back as the word itself. This holds of
/// every word except an integer literal written non-canonically, whose value
/// is re-rendered.
pub open spec fn word_text_ok(w: Seq<char>) -> bool {
    token_text(spec_classify(w)) == w
}

/// Every word the scan of `cs` will complete, starting with `word` already
/// accumulated, joins back as itself.
pub open spec fn scan_words_ok(cs: Seq<char>, word: Seq<char>) -> bool
    decreases cs.len(),
{
    if cs.len() == 0 {
        word.len() == 0 || word_text_ok(word)
    } else if is_word_char(cs[0]) {
        scan_words_ok(cs.drop_first(), word.push(cs[0]))
    } else {
        (word.len() == 0 || word_text_ok(word)) && scan_words_ok(cs.drop_first(), Seq::empty())
    }
}

/// Joining distributes over concatenation.
proof fn lemma_join_add(a: Seq<SpecTokenEntry>, b: Seq<SpecTokenEntry>)
    ensures
        join_text(a + b) == join_text(a) + join_text(b),
    decreases a.len(),
{
    if a.len() == 0 {
        assert(a + b =~= b);
        assert(join_text(a) + join_text(b) =~= join_text(b));
    } else {
        assert((a + b).drop_first() =~= a.drop_first() + b);
        lemma_join_add(a.drop_first(), b);
        assert(join_text(a + b) == token_text(a[0].token) + (join_text(a.drop_first())
            + join_text(b)));
        assert(token_text(a[0].token) + (join_text(a.drop_first()) + join_text(b)) =~= (
        token_text(a[0].token) + join_text(a.drop_first())) + join_text(b));
    }
}

/// A single token joins to its own text.
proof fn lemma_join_single(e: SpecTokenEntry)
    ensures
        join_text(seq![e]) == token_text(e.token),
{
    assert(seq![e].drop_first() =~= Seq::<SpecTokenEntry>::empty());
    assert(token_text(e.token) + join_text(Seq::<SpecTokenEntry>::empty()) =~= token_text(
        e.token,
    ));
}

/// Completing a word that joins back as itself emits exactly that text.
proof fn lemma_join_flush(st: LexState)
    requires
        st.word.len() == 0 || word_text_ok(st.word),
    ensures
        join_text(flush(st)) == st.word,
{
    if st.word.len() == 0 {
        assert(flush(st) =~= Seq::<SpecTokenEntry>::empty());
        assert(join_text(flush(st)) =~= st.word);
    } else {
        lemma_join_single(tok_at(spec_classify(st.word), st.line));
    }
}

/// The scan's round trip: with no string quotes and no comment openers in
/// the rest of the source, and every completed word joining back as itself,
/// the emitted tokens join to the accumulated word followed by the rest's
/// non-whitespace characters.
#[verifier::rlimit(100)]
proof fn lemma_scan_round_trip(cs: Seq<char>, st: LexState)
    requires
        !st.in_string,
        !st.commenting,
        forall|i: int| 0 <= i < cs.len() ==> (#[trigger] cs[i]) != '"' && cs[i] != '\'',
        forall|i: int| 0 <= i < cs.len() - 1 ==> !((#[trigger] cs[i]) == '#' && cs[i + 1] == '#'),
        scan_words_ok(cs, st.word),
    ensures
        join_text(spec_scan(cs, st)) == st.word + non_ws(cs),
    decreases cs.len(),
{
    if cs.len() == 0 {
        assert(st.word + non_ws(cs) =~= st.word);
        if st.word.len() == 0 {
            assert(join_text(flush(st)) =~= st.word);
        } else {
            assert(join_text(flush(st).drop_first()) =~= Seq::<char>::empty());
            assert(join_text(flush(st)) =~= token_text(spec_classify(st.word)));
        }
    } else {
        let c = cs[0];
        let rest = cs.drop_first();
        assert(forall|i: int| 0 <= i < rest.len() ==> rest[i] == cs[i + 1]);
        let st0 = LexState { commenting: false, ..st };
        broadcast use lemma_flush_is_flush_at;

        if c == '\n' {
            let st1 = LexState {
                commenting: false,
                counting: true,
                word: Seq::empty(),
                line: st0.line + 1,
                spaces: 0,
                ..st0
            };
            lemma_scan_round_trip(rest, st1);
            let emitted = flush(st0) + seq![tok_at(SpecToken::NewLine, st0.line)];
            lemma_join_add(emitted, spec_scan(rest, st1));
            lemma_join_add(flush(st0), seq![tok_at(SpecToken::NewLine, st0.line)]);
            lemma_join_single(tok_at(SpecToken::NewLine, st0.line));
            lemma_join_flush(st0);
            assert(spec_scan(cs, st) =~= emitted + spec_scan(rest, st1));
            assert(join_text(spec_scan(cs, st)) =~= st.word + non_ws(cs));
        } else if c == ' ' {
            let sp = if st0.counting {
                st0.spaces + 1
            } else {
                st0.spaces
            };
            let st1 = LexState { word: Seq::empty(), spaces: sp, ..st0 };
            lemma_scan_round_trip(rest, st1);
            lemma_join_add(flush(st0), spec_scan(rest, st1));
            lemma_join_flush(st0);
            assert(join_text(spec_scan(cs, st)) =~= st.word + non_ws(cs));
        } else {
            let led = lead(st0);
            let st1 = LexState { counting: false, spaces: 0, ..st0 };
            assert(join_text(led) =~= Seq::<char>::empty()) by {
                if st0.counting {
                    lemma_join_single(tok_at(SpecToken::Spaces(st0.spaces), st0.line));
                }
            }
            if c == '\r' || c == '\t' {
                let st2 = LexState { word: Seq::empty(), ..st1 };
                lemma_scan_round_trip(rest, st2);
                lemma_join_add(flush(st1), spec_scan(rest, st2));
                lemma_join_add(led, flush(st1) + spec_scan(rest, st2));
                lemma_join_flush(st1);
                assert(spec_scan(cs, st) =~= led + (flush(st1) + spec_scan(rest, st2)));
                assert(join_text(spec_scan(cs, st)) =~= st.word + non_ws(cs));
            } else if is_op_char(c) {
                let (t, used) = op_token(cs);
                let st2 = LexState { word: Seq::empty(), ..st1 };
                let tail = cs.skip(used);
                assert(used == 1 || used == 2);
                assert(tail =~= if used == 1 {
                    rest
                } else {
                    rest.drop_first()
                });
                if used == 2 {
                    assert(!is_word_char(cs[1]));
                    assert(rest[0] == cs[1]);
                    assert(rest.drop_first() =~= cs.skip(2));
                    assert(forall|i: int|
                        0 <= i < rest.drop_first().len() ==> rest.drop_first()[i] == cs[i + 2]);
                }
                assert(forall|i: int| 0 <= i < tail.len() ==> #[trigger] tail[i] == cs[i + used]);
                assert(forall|i: int|
                    0 <= i < tail.len() ==> (#[trigger] tail[i]) != '"' && tail[i] != '\'');
                assert(forall|i: int|
                    0 <= i < tail.len() - 1 ==> !((#[trigger] tail[i]) == '#' && tail[i + 1]
                        == '#'));
                assert(!is_word_char(cs[0]));
                assert(scan_words_ok(rest, Seq::empty()));
                if used == 2 {
                    assert(scan_words_ok(rest.drop_first(), Seq::empty()));
                }
                assert(scan_words_ok(tail, st2.word));
                lemma_scan_round_trip(tail, st2);
                let emitted = led + flush(st1) + seq![tok_at(t, st1.line)];
                lemma_join_add(emitted, spec_scan(tail, st2));
                lemma_join_add(led + flush(st1), seq![tok_at(t, st1.line)]);
                lemma_join_add(led, flush(st1));
                lemma_join_flush(st1);
                lemma_join_single(tok_at(t, st1.line));
                assert(cs.subrange(0, 1) =~= seq![cs[0]]);
                if used == 2 {
                    assert(cs.subrange(0, 2) =~= seq![cs[0], cs[1]]);
                }
                assert(token_text(t) =~= cs.subrange(0, used));
                assert(non_ws(cs) =~= cs.subrange(0, used) + non_ws(tail)) by {
                    if used == 2 {
                        assert(non_ws(rest) == seq![cs[1]] + non_ws(rest.drop_first()));
                        assert(non_ws(cs) == seq![cs[0]] + (seq![cs[1]] + non_ws(
                            rest.drop_first(),
                        )));
                        assert(seq![cs[0]] + (seq![cs[1]] + non_ws(rest.drop_first())) =~= cs
                            .subrange(0, 2) + non_ws(rest.drop_first()));
                    } else {
                        assert(seq![cs[0]] + non_ws(rest) =~= cs.subrange(0, 1) + non_ws(rest));
                    }
                }
                assert(spec_scan(cs, st) =~= emitted + spec_scan(tail, st2));
                lemma_join_add(led + flush(st1) + seq![tok_at(t, st1.line)], spec_scan(
                    tail,
                    st2,
                ));
                assert(join_text(spec_scan(cs, st)) =~= st.word + non_ws(cs));
            } else {
                // a word character accumulates
                let st2 = LexState { word: st1.word.push(c), ..st1 };
                lemma_scan_round_trip(rest, st2);
                lemma_join_add(led, spec_scan(rest, st2));
                assert(spec_scan(cs, st) =~= led + spec_scan(rest, st2));
                assert(st.word.push(c) + non_ws(rest) =~= st.word + (seq![c] + non_ws(rest)));
                assert(join_text(spec_scan(cs, st)) =~= st.word + non_ws(cs));
            }
        }
    }
}

/// Dropping leading duplicate spaces tokens keeps the joined text.
proof fn lemma_cleanup_join(ts: Seq<SpecTokenEntry>)
    ensures
        join_text(spec_cleanup(ts)) == join_text(ts),
    decreases ts.len(),
{
    if ts.len() >= 2 && (ts[0].token is Spaces) && (ts[1].token is Spaces) {
        lemma_cleanup_join(ts.drop_first());
        assert(join_text(ts) =~= join_text(ts.drop_first()));
    }
}

/// Without an occurrence of the boilerplate substring, stripping changes
/// nothing.
proof fn lemma_strip_identity(cs: Seq<char>)
    requires
        forall|i: int|
            0 <= i <= cs.len() - boilerplate().len() ==> #[trigger] cs.subrange(
                i,
                i + boilerplate().len(),
            ) != boilerplate(),
    ensures
        spec_strip(cs) == cs,
    decreases cs.len(),
{
    if cs.len() >= boilerplate().len() && cs.subrange(0, boilerplate().len() as int)
        == boilerplate() {
        assert(cs.subrange(0int, 0int + boilerplate().len()) != boilerplate());
        assert(cs.subrange(0, boilerplate().len() as int) =~= cs.subrange(
            0int,
            0int + boilerplate().len(),
        ));
        assert(false);
    } else if cs.len() == 0 {
        assert(spec_strip(cs) =~= cs);
    } else {
        assert(forall|i: int|
            0 <= i <= cs.drop_first().len() - boilerplate().len() ==> #[trigger] cs.drop_first()
                .subrange(i, i + boilerplate().len()) =~= cs.subrange(
                i + 1,
                i + 1 + boilerplate().len(),
            ));
        lemma_strip_identity(cs.drop_first());
        assert(spec_strip(cs) =~= cs);
    }
}

/// Law: for source text free of string quotes, comment openers and the
/// boilerplate substring, in which every completed word joins back as
/// itself (which fails only of an integer literal written non-canonically),
/// re-joining the text of the tokens reconstructs exactly the source's
/// non-whitespace character sequence. Whitespace normalization is
/// intentional: one leading-spaces count per logical line, no interior
/// space tokens.
pub proof fn lemma_tokenizer_round_trip(s: Seq<char>)
    requires
        forall|i: int| 0 <= i < s.len() ==> (#[trigger] s[i]) != '"' && s[i] != '\'',
        forall|i: int| 0 <= i < s.len() - 1 ==> !((#[trigger] s[i]) == '#' && s[i + 1] == '#'),
        forall|i: int|
            0 <= i <= s.len() - boilerplate().len() ==> #[trigger] s.subrange(
                i,
                i + boilerplate().len(),
            ) != boilerplate(),
        scan_words_ok(s, Seq::empty()),
    ensures
        join_text(spec_tokenize(s)) == non_ws(s),
{
    lemma_strip_identity(s);
    lemma_scan_round_trip(s, init_state());
    lemma_cleanup_join(spec_scan(s, init_state()));
    assert(Seq::<char>::empty() + non_ws(s) =~= non_ws(s));
}

// ---------------------------------------------------------------------------
// The whitespace-structure law: spaces tokens are line-leading only, and
// line-break tokens match the source's breaks one for one.
// ---------------------------------------------------------------------------

/// Every leading-spaces token stands at the start of the stream or directly
/// after a line-break token: spaces count only as line-leading indentation,
/// never as interior separators.
pub open spec fn spaces_only_lead_lines(ts: Seq<SpecTokenEntry>) -> bool {
    forall|i: int|
        1 <= i < ts.len() && (#[trigger] ts[i].token) is Spaces ==> ts[i - 1].token is NewLine
}

/// The number of line-break tokens in the stream.
pub open spec fn count_breaks(ts: Seq<SpecTokenEntry>) -> int
    decreases ts.len(),
{
    if ts.len() == 0 {
        0
    } else {
        (if ts[0].token is NewLine {
            1int
        } else {
            0int
        }) + count_breaks(ts.drop_first())
    }
}

/// The number of line breaks in the text.
pub open spec fn count_newlines(cs: Seq<char>) -> int
    decreases cs.len(),
{
    if cs.len() == 0 {
        0
    } else {
        (if cs[0] == '\n' {
            1int
        } else {
            0int
        }) + count_newlines(cs.drop_first())
    }
}

/// Break counting distributes over concatenation.
proof fn lemma_count_breaks_add(a: Seq<SpecTokenEntry>, b: Seq<SpecTokenEntry>)
    ensures
        count_breaks(a + b) == count_breaks(a) + count_breaks(b),
    decreases a.len(),
{
    if a.len() == 0 {
        assert(a + b =~= b);
    } else {
        assert((a + b).drop_first() =~= a.drop_first() + b);
        lemma_count_breaks_add(a.drop_first(), b);
    }
}

/// The line-leading placement of spaces tokens survives concatenation when
/// the seam is sound.
proof fn lemma_spaces_lead_add(a: Seq<SpecTokenEntry>, b: Seq<SpecTokenEntry>)
    requires
        spaces_only_lead_lines(a),
        spaces_only_lead_lines(b),
        b.len() > 0 && b[0].token is Spaces ==> a.len() == 0 || a.last().token is NewLine,
    ensures
        spaces_only_lead_lines(a + b),
{
    assert forall|i: int|
        1 <= i < (a + b).len() && ((#[trigger] (a + b)[i]).token) is Spaces implies (a + b)[i
        - 1].token is NewLine by {
        if i < a.len() {
            assert((a + b)[i] == a[i] && (a + b)[i - 1] == a[i - 1]);
        } else if i == a.len() {
            assert((a + b)[i] == b[0] && (a + b)[i - 1] == a[i - 1]);
        } else {
            assert((a + b)[i] == b[i - a.len()] && (a + b)[i - 1] == b[i - a.len() - 1]);
        }
    }
}

/// A single token contributes one break exactly when it is a line break.
proof fn lemma_count_breaks_single(e: SpecTokenEntry)
    ensures
        count_breaks(seq![e]) == if e.token is NewLine {
            1int
        } else {
            0int
        },
{
    assert(seq![e].drop_first() =~= Seq::<SpecTokenEntry>::empty());
    assert(count_breaks(Seq::<SpecTokenEntry>::empty()) == 0);
}

/// Completing a word emits no line break.
proof fn lemma_count_breaks_flush(st: LexState)
    ensures
        count_breaks(flush(st)) == 0,
{
    broadcast use lemma_flush_is_flush_at;

    if st.word.len() > 0 {
        lemma_count_breaks_single(tok_at(spec_classify(st.word), st.line));
        assert(!(spec_classify(st.word) is NewLine));
    } else {
        assert(flush(st) =~= Seq::<SpecTokenEntry>::empty());
    }
}

/// A leading-spaces token is no line break.
proof fn lemma_count_breaks_lead(st: LexState)
    ensures
        count_breaks(lead(st)) == 0,
{
    if st.counting {
        lemma_count_breaks_single(tok_at(SpecToken::Spaces(st.spaces), st.line));
    } else {
        assert(lead(st) =~= Seq::<SpecTokenEntry>::empty());
    }
}

/// The scan's whitespace structure: with no string quotes and no comment
/// openers in the rest of the source, and an empty word wherever leading
/// spaces are still being counted, spaces tokens appear only where a line
/// begins and break tokens match the remaining breaks one for one.
#[verifier::rlimit(100)]
proof fn lemma_scan_spaces_structure(cs: Seq<char>, st: LexState)
    requires
        !st.in_string,
        !st.commenting,
        forall|i: int| 0 <= i < cs.len() ==> (#[trigger] cs[i]) != '"' && cs[i] != '\'',
        forall|i: int| 0 <= i < cs.len() - 1 ==> !((#[trigger] cs[i]) == '#' && cs[i + 1] == '#'),
        st.counting ==> st.word.len() == 0,
    ensures
        spaces_only_lead_lines(spec_scan(cs, st)),
        spec_scan(cs, st).len() > 0 && spec_scan(cs, st)[0].token is Spaces ==> st.counting,
        count_breaks(spec_scan(cs, st)) == count_newlines(cs),
    decreases cs.len(),
{
    broadcast use lemma_flush_is_flush_at;

    if cs.len() == 0 {
        assert(spaces_only_lead_lines(flush(st)));
        assert(count_breaks(flush(st)) == count_newlines(cs)) by {
            assert(count_newlines(cs) == 0);
            if st.word.len() > 0 {
                assert(flush(st).drop_first() =~= Seq::<SpecTokenEntry>::empty());
                assert(count_breaks(Seq::<SpecTokenEntry>::empty()) == 0);
                assert(!(flush(st)[0].token is NewLine));
            } else {
                assert(flush(st) =~= Seq::<SpecTokenEntry>::empty());
            }
        }
    } else {
        let c = cs[0];
        let rest = cs.drop_first();
        assert(forall|i: int| 0 <= i < rest.len() ==> #[trigger] rest[i] == cs[i + 1]);
        assert(count_newlines(cs) == (if c == '\n' {
            1int
        } else {
            0int
        }) + count_newlines(rest));
        let st0 = LexState { commenting: false, ..st };
        if c == '\n' {
            let st1 = LexState {
                commenting: false,
                counting: true,
                word: Seq::empty(),
                line: st0.line + 1,
                spaces: 0,
                ..st0
            };
            lemma_scan_spaces_structure(rest, st1);
            let emitted = flush(st0) + seq![tok_at(SpecToken::NewLine, st0.line)];
            assert(emitted.last().token is NewLine);
            assert(spaces_only_lead_lines(emitted));
            lemma_spaces_lead_add(emitted, spec_scan(rest, st1));
            lemma_count_breaks_add(emitted, spec_scan(rest, st1));
            lemma_count_breaks_add(flush(st0), seq![tok_at(SpecToken::NewLine, st0.line)]);
            lemma_count_breaks_flush(st0);
            if st0.word.len() > 0 {
                assert(flush(st0).drop_first() =~= Seq::<SpecTokenEntry>::empty());
            }
            assert(count_breaks(seq![tok_at(SpecToken::NewLine, st0.line)]) == 1) by {
                assert(seq![tok_at(SpecToken::NewLine, st0.line)].drop_first() =~= Seq::<
                    SpecTokenEntry,
                >::empty());
                assert(count_breaks(Seq::<SpecTokenEntry>::empty()) == 0);
                assert(seq![tok_at(SpecToken::NewLine, st0.line)][0].token is NewLine);
            }
            assert(count_newlines(cs) == 1 + count_newlines(rest));
            assert(spec_scan(cs, st) =~= emitted + spec_scan(rest, st1));
        } else if c == ' ' {
            let sp = if st0.counting {
                st0.spaces + 1
            } else {
                st0.spaces
            };
            let st1 = LexState { word: Seq::empty(), spaces: sp, ..st0 };
            lemma_scan_spaces_structure(rest, st1);
            lemma_spaces_lead_add(flush(st0), spec_scan(rest, st1));
            lemma_count_breaks_add(flush(st0), spec_scan(rest, st1));
            lemma_count_breaks_flush(st0);
            if st0.word.len() > 0 {
                assert(flush(st0).drop_first() =~= Seq::<SpecTokenEntry>::empty());
            }
            assert(spec_scan(cs, st) =~= flush(st0) + spec_scan(rest, st1));
        } else {
            let led = lead(st0);
            let st1 = LexState { counting: false, spaces: 0, ..st0 };
            if st0.counting {
                assert(led.drop_first() =~= Seq::<SpecTokenEntry>::empty());
            }
            if c == '\r' || c == '\t' {
                let st2 = LexState { word: Seq::empty(), ..st1 };
                lemma_scan_spaces_structure(rest, st2);
                let emitted = led + flush(st1);
                if st1.word.len() > 0 {
                    assert(flush(st1).drop_first() =~= Seq::<SpecTokenEntry>::empty());
                }
                assert(spaces_only_lead_lines(emitted)) by {
                    if st0.counting {
                        assert(st1.word.len() == 0);
                        assert(emitted =~= led);
                    }
                }
                lemma_spaces_lead_add(emitted, spec_scan(rest, st2));
                lemma_count_breaks_add(emitted, spec_scan(rest, st2));
                lemma_count_breaks_add(led, flush(st1));
                lemma_count_breaks_flush(st1);
                lemma_count_breaks_lead(st0);
                assert(count_breaks(lead(st0)) == count_breaks(led));
                assert(spec_scan(cs, st) =~= emitted + spec_scan(rest, st2));
            } else if is_op_char(c) {
                let (t, used) = op_token(cs);
                let st2 = LexState { word: Seq::empty(), ..st1 };
                let tail = cs.skip(used);
                assert(used == 1 || used == 2);
                assert(tail =~= if used == 1 {
                    rest
                } else {
                    rest.drop_first()
                });
                assert(forall|i: int| 0 <= i < tail.len() ==> #[trigger] tail[i] == cs[i + used]);
                assert(forall|i: int|
                    0 <= i < tail.len() ==> (#[trigger] tail[i]) != '"' && tail[i] != '\'');
                assert(forall|i: int|
                    0 <= i < tail.len() - 1 ==> !((#[trigger] tail[i]) == '#' && tail[i + 1]
                        == '#'));
                lemma_scan_spaces_structure(tail, st2);
                let emitted = led + flush(st1) + seq![tok_at(t, st1.line)];
                if st1.word.len() > 0 {
                    assert(flush(st1).drop_first() =~= Seq::<SpecTokenEntry>::empty());
                }
                assert(!(t is Spaces) && !(t is NewLine));
                assert(seq![tok_at(t, st1.line)].drop_first() =~= Seq::<SpecTokenEntry>::empty());
                assert(spaces_only_lead_lines(emitted)) by {
                    if st0.counting {
                        assert(st1.word.len() == 0);
                        assert(emitted =~= led + seq![tok_at(t, st1.line)]);
                    }
                }
                lemma_spaces_lead_add(emitted, spec_scan(tail, st2));
                lemma_count_breaks_add(emitted, spec_scan(tail, st2));
                lemma_count_breaks_add(led + flush(st1), seq![tok_at(t, st1.line)]);
                lemma_count_breaks_add(led, flush(st1));
                lemma_count_breaks_flush(st1);
                lemma_count_breaks_lead(st0);
                lemma_count_breaks_single(tok_at(t, st1.line));
                assert(count_newlines(cs) == count_newlines(tail)) by {
                    assert(count_newlines(cs) == (if c == '\n' {
                        1int
                    } else {
                        0int
                    }) + count_newlines(rest));
                    if used == 2 {
                        assert(rest[0] == cs[1]);
                        assert(cs[1] != '\n');
                        assert(count_newlines(rest) == (if rest[0] == '\n' {
                            1int
                        } else {
                            0int
                        }) + count_newlines(rest.drop_first()));
                        assert(rest.drop_first() =~= cs.skip(2));
                    }
                }
                assert(spec_scan(cs, st) =~= emitted + spec_scan(tail, st2));
            } else {
                let st2 = LexState { word: st1.word.push(c), ..st1 };
                lemma_scan_spaces_structure(rest, st2);
                lemma_spaces_lead_add(led, spec_scan(rest, st2));
                lemma_count_breaks_add(led, spec_scan(rest, st2));
                lemma_count_breaks_lead(st0);
                assert(spec_scan(cs, st) =~= led + spec_scan(rest, st2));
            }
        }
    }
}

/// Law: for source text free of string quotes, comment openers and the
/// boilerplate substring, the only whitespace-derived tokens are a single
/// leading-spaces token where a logical line's content begins — never in the
/// interior of a line — and one line-break token per line break of the
/// source.
pub proof fn lemma_whitespace_structure(s: Seq<char>)
    requires
        forall|i: int| 0 <= i < s.len() ==> (#[trigger] s[i]) != '"' && s[i] != '\'',
        forall|i: int| 0 <= i < s.len() - 1 ==> !((#[trigger] s[i]) == '#' && s[i + 1] == '#'),
        forall|i: int|
            0 <= i <= s.len() - boilerplate().len() ==> #[trigger] s.subrange(
                i,
                i + boilerplate().len(),
            ) != boilerplate(),
    ensures
        spaces_only_lead_lines(spec_tokenize(s)),
        count_breaks(spec_tokenize(s)) == count_newlines(s),
{
    lemma_strip_identity(s);
    lemma_scan_spaces_structure(s, init_state());
    let scanned = spec_scan(s, init_state());
    if scanned.len() >= 2 && (scanned[0].token is Spaces) && (scanned[1].token is Spaces) {
        assert(scanned[0].token is NewLine);
        assert(false);
    }
    assert(spec_cleanup(scanned) == scanned);
}

} // verus!


