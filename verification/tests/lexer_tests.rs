use crunch_front::lexer::{to_tokens, Token, TokenEntry};

fn lex(src: &str) -> Vec<TokenEntry> {
    to_tokens(src).expect("lexing is total")
}

fn kinds(src: &str) -> Vec<Token> {
    lex(src).into_iter().map(|e| e.token).collect()
}

#[test]
fn empty_source_gives_no_tokens() {
    assert_eq!(lex("").len(), 0);
}

#[test]
fn single_identifier_line() {
    assert_eq!(
        kinds("abc"),
        vec![Token::Spaces(0), Token::Identifier(String::from("abc"))]
    );
}

#[test]
fn keywords_classify_exactly() {
    assert_eq!(
        kinds("return if while else for int str def pass list Matrix Complex del float"),
        vec![
            Token::Spaces(0),
            Token::Return,
            Token::If,
            Token::While,
            Token::Else,
            Token::For,
            Token::IntType,
            Token::StringType,
            Token::Def,
            Token::Pass,
            Token::List,
            Token::Matrix,
            Token::Complex,
            Token::Del,
            Token::Float,
        ]
    );
}

#[test]
fn near_keywords_are_identifiers() {
    assert_eq!(
        kinds("returns If in elif"),
        vec![
            Token::Spaces(0),
            Token::Identifier(String::from("returns")),
            Token::Identifier(String::from("If")),
            Token::Identifier(String::from("in")),
            Token::Identifier(String::from("elif")),
        ]
    );
}

#[test]
fn literal_classification_order() {
    assert_eq!(
        kinds("true false 42 -x 3.14 inf nan 1e3 abc1"),
        vec![
            Token::Spaces(0),
            Token::BoolLiteral(true),
            Token::BoolLiteral(false),
            Token::IntLiteral(42),
            Token::Minus,
            Token::Identifier(String::from("x")),
            Token::FloatLiteral(String::from("3.14")),
            Token::FloatLiteral(String::from("inf")),
            Token::FloatLiteral(String::from("nan")),
            Token::FloatLiteral(String::from("1e3")),
            Token::Identifier(String::from("abc1")),
        ]
    );
}

#[test]
fn int_too_large_falls_through_to_float() {
    assert_eq!(
        kinds("9223372036854775807 9223372036854775808"),
        vec![
            Token::Spaces(0),
            Token::IntLiteral(i64::MAX),
            Token::FloatLiteral(String::from("9223372036854775808")),
        ]
    );
}

#[test]
fn word_that_is_no_number_is_identifier() {
    assert_eq!(
        kinds("12ab 1.2.3 e5"),
        vec![
            Token::Spaces(0),
            Token::Identifier(String::from("12ab")),
            Token::Identifier(String::from("1.2.3")),
            Token::Identifier(String::from("e5")),
        ]
    );
}

#[test]
fn double_character_operators_look_ahead() {
    assert_eq!(
        kinds("a += b ++ -- -= -> *= /= %= << <= >> >= == != && || & | ="),
        vec![
            Token::Spaces(0),
            Token::Identifier(String::from("a")),
            Token::PlusEquals,
            Token::Identifier(String::from("b")),
            Token::Increment,
            Token::Decrement,
            Token::MinusEquals,
            Token::RightArrow,
            Token::MultiplyEquals,
            Token::DivideEquals,
            Token::PercentEquals,
            Token::LeftShift,
            Token::LessThanEquals,
            Token::RightShift,
            Token::GreaterThanEquals,
            Token::EqualsEquals,
            Token::NotEquals,
            Token::AndAnd,
            Token::OrOr,
            Token::And,
            Token::Or,
            Token::Equals,
        ]
    );
}

#[test]
fn empty_list_lexes_as_one_token() {
    assert_eq!(
        kinds("[] [ ] [1]"),
        vec![
            Token::Spaces(0),
            Token::EmptyList,
            Token::OpenBracket,
            Token::CloseBracket,
            Token::OpenBracket,
            Token::IntLiteral(1),
            Token::CloseBracket,
        ]
    );
}

#[test]
fn operators_split_words_without_spaces() {
    assert_eq!(
        kinds("x+=1"),
        vec![
            Token::Spaces(0),
            Token::Identifier(String::from("x")),
            Token::PlusEquals,
            Token::IntLiteral(1),
        ]
    );
}

#[test]
fn string_escaping_keeps_quote_drops_backslash() {
    // The text "He said \"hi\"" lexes to one string literal containing
    // He said "hi".
    assert_eq!(
        kinds("\"He said \\\"hi\\\"\""),
        vec![
            Token::Spaces(0),
            Token::StringLiteral(String::from("He said \"hi\"")),
        ]
    );
}

#[test]
fn string_suspends_other_rules() {
    assert_eq!(
        kinds("\"a ## b + c\""),
        vec![
            Token::Spaces(0),
            Token::StringLiteral(String::from("a ## b + c")),
        ]
    );
}

#[test]
fn comments_run_to_line_break() {
    assert_eq!(
        kinds("x ## all + of * this\ny"),
        vec![
            Token::Spaces(0),
            Token::Identifier(String::from("x")),
            Token::NewLine,
            Token::Spaces(0),
            Token::Identifier(String::from("y")),
        ]
    );
}

#[test]
fn single_hash_is_a_word_character() {
    assert_eq!(
        kinds("a#b"),
        vec![Token::Spaces(0), Token::Identifier(String::from("a#b"))]
    );
}

#[test]
fn indentation_counted_once_per_line() {
    assert_eq!(
        kinds("    x y\n  z"),
        vec![
            Token::Spaces(4),
            Token::Identifier(String::from("x")),
            Token::Identifier(String::from("y")),
            Token::NewLine,
            Token::Spaces(2),
            Token::Identifier(String::from("z")),
        ]
    );
}

#[test]
fn blank_line_emits_no_spaces_token() {
    assert_eq!(
        kinds("x\n   \ny"),
        vec![
            Token::Spaces(0),
            Token::Identifier(String::from("x")),
            Token::NewLine,
            Token::NewLine,
            Token::Spaces(0),
            Token::Identifier(String::from("y")),
        ]
    );
}

#[test]
fn line_numbers_advance_at_breaks() {
    let ts = lex("a\nb\nc");
    let lines: Vec<usize> = ts.iter().map(|e| e.line_number).collect();
    // Spaces a NewLine | Spaces b NewLine | Spaces c
    assert_eq!(lines, vec![1, 1, 1, 2, 2, 2, 3, 3]);
}

#[test]
fn boilerplate_import_is_stripped() {
    assert_eq!(
        kinds("from crunch_lib import *\nx"),
        vec![Token::NewLine, Token::Spaces(0), Token::Identifier(String::from("x"))]
    );
}

#[test]
fn round_trip_keeps_non_whitespace_text() {
    // For source free of strings and comments, re-joining token text
    // reconstructs the non-whitespace character sequence.
    let src = "def f(a: int) -> int:\n    return a + 1.5e3 * x\n";
    let mut joined = String::new();
    for e in lex(src) {
        joined.push_str(&token_text(&e.token));
    }
    let expected: String = src.chars().filter(|c| !c.is_whitespace()).collect();
    assert_eq!(joined, expected);
}

fn token_text(t: &Token) -> String {
    match t {
        Token::Identifier(s) => s.clone(),
        Token::Colon => String::from(":"),
        Token::OpenBracket => String::from("["),
        Token::CloseBracket => String::from("]"),
        Token::OpenParenthesis => String::from("("),
        Token::CloseParenthesis => String::from(")"),
        Token::EmptyList => String::from("[]"),
        Token::Comma => String::from(","),
        Token::Plus => String::from("+"),
        Token::Minus => String::from("-"),
        Token::Increment => String::from("++"),
        Token::Decrement => String::from("--"),
        Token::Star => String::from("*"),
        Token::Slash => String::from("/"),
        Token::Percent => String::from("%"),
        Token::Equals => String::from("="),
        Token::EqualsEquals => String::from("=="),
        Token::NotEquals => String::from("!="),
        Token::GreaterThan => String::from(">"),
        Token::GreaterThanEquals => String::from(">="),
        Token::LessThan => String::from("<"),
        Token::LessThanEquals => String::from("<="),
        Token::PlusEquals => String::from("+="),
        Token::MinusEquals => String::from("-="),
        Token::MultiplyEquals => String::from("*="),
        Token::DivideEquals => String::from("/="),
        Token::PercentEquals => String::from("%="),
        Token::LeftShift => String::from("<<"),
        Token::RightShift => String::from(">>"),
        Token::Not => String::from("!"),
        Token::AndAnd => String::from("&&"),
        Token::And => String::from("&"),
        Token::OrOr => String::from("||"),
        Token::Or => String::from("|"),
        Token::StringLiteral(s) => s.clone(),
        Token::BoolLiteral(b) => String::from(if *b { "true" } else { "false" }),
        Token::IntLiteral(i) => i.to_string(),
        Token::FloatLiteral(s) => s.clone(),
        Token::Return => String::from("return"),
        Token::If => String::from("if"),
        Token::While => String::from("while"),
        Token::Else => String::from("else"),
        Token::For => String::from("for"),
        Token::IntType => String::from("int"),
        Token::StringType => String::from("str"),
        Token::Def => String::from("def"),
        Token::Pass => String::from("pass"),
        Token::Spaces(_) => String::new(),
        Token::List => String::from("list"),
        Token::Del => String::from("del"),
        Token::Float => String::from("float"),
        Token::EOF => String::new(),
        Token::Matrix => String::from("Matrix"),
        Token::Complex => String::from("Complex"),
        Token::RightArrow => String::from("->"),
        Token::NewLine => String::new(),
    }
}
