use crunch_front::lexer::to_tokens;
use crunch_front::parser::{parse_tokens, Expected, ParseError, TokenStream};
use crunch_front::statements::{
    parse_expression, Expression, ExpressionType, Operation, Statement, StatementType,
};
use crunch_front::types::{Function, Parameter, Type};
use crunch_front::unwrap_io;

fn parse(src: &str) -> Result<Vec<Function>, ParseError> {
    parse_tokens(to_tokens(src).expect("lexing is total"))
}

fn parsed(src: &str) -> Vec<Function> {
    parse(src).expect("source parses")
}

fn num(i: i64, line: usize) -> Expression {
    Expression::new(ExpressionType::IntLiteral(i), line)
}

fn field(name: &str, line: usize) -> Expression {
    Expression::new(ExpressionType::Field(String::from(name)), line)
}

fn op(operation: Operation, line: usize) -> Expression {
    Expression::new(ExpressionType::Operation(operation), line)
}

#[test]
fn end_to_end_add_function() {
    // def add(a: int, b: int) -> int:  =>  one function, two integer
    // parameters, integer return type, one return of Add(Field(a), Field(b)).
    let fs = parsed("def add(a: int, b: int) -> int:\n    return a + b\n");
    assert_eq!(fs.len(), 1);
    let f = &fs[0];
    assert_eq!(f.name, "add");
    assert_eq!(
        f.parameters,
        vec![
            Parameter { name: String::from("a"), typetype: Type::Int },
            Parameter { name: String::from("b"), typetype: Type::Int },
        ]
    );
    assert_eq!(f.return_type, Some(Type::Int));
    let expected_value = op(Operation::Add(field("a", 2), field("b", 2)), 2);
    assert_eq!(
        f.statements,
        vec![Statement::new(StatementType::Return(Some(expected_value)), 2)]
    );
}

#[test]
fn precedence_multiplication_binds_tighter() {
    // "1 + 2 * 3" parses as Add(1, Mul(2, 3)), never Mul(Add(1, 2), 3).
    let fs = parsed("def f():\n    return 1 + 2 * 3\n");
    let expected = op(
        Operation::Add(num(1, 2), op(Operation::Mul(num(2, 2), num(3, 2)), 2)),
        2,
    );
    assert_eq!(
        fs[0].statements,
        vec![Statement::new(StatementType::Return(Some(expected)), 2)]
    );
}

#[test]
fn same_precedence_groups_left_to_right() {
    let fs = parsed("def f():\n    return 1 - 2 - 3\n");
    let expected = op(
        Operation::Sub(op(Operation::Sub(num(1, 2), num(2, 2)), 2), num(3, 2)),
        2,
    );
    assert_eq!(
        fs[0].statements,
        vec![Statement::new(StatementType::Return(Some(expected)), 2)]
    );
}

#[test]
fn parentheses_override_precedence() {
    let fs = parsed("def f():\n    return (1 + 2) * 3\n");
    let expected = op(
        Operation::Mul(op(Operation::Add(num(1, 2), num(2, 2)), 2), num(3, 2)),
        2,
    );
    assert_eq!(
        fs[0].statements,
        vec![Statement::new(StatementType::Return(Some(expected)), 2)]
    );
}

#[test]
fn compound_assignment_desugars_with_duplicated_target() {
    // "x += 1" parses to an assignment whose value is Add(x, 1), with the
    // target duplicated structurally, not shared.
    let fs = parsed("def f():\n    x += 1\n");
    let expected = Statement::new(
        StatementType::Assignment(
            field("x", 2),
            op(Operation::Add(field("x", 2), num(1, 2)), 2),
        ),
        2,
    );
    assert_eq!(fs[0].statements, vec![expected]);
}

#[test]
fn empty_list_token_and_literal_agree() {
    // "[]" produces the same empty-list node a list literal with zero
    // elements would.
    let fs = parsed("def f():\n    x: list[int] = []\n");
    let expected = Statement::new(
        StatementType::Declaration(
            field("x", 2),
            Type::IntList,
            Expression::new(ExpressionType::ListLiteral(Vec::new()), 2),
        ),
        2,
    );
    assert_eq!(fs[0].statements, vec![expected]);
}

#[test]
fn else_if_chains_as_nested_conditional() {
    let fs = parsed(
        "def f():\n    if a:\n        x = 1\n    else if b:\n        y = 2\n    else:\n        z = 3\n",
    );
    assert_eq!(fs[0].statements.len(), 1);
    let outer = &fs[0].statements[0];
    let (cond_a, body_a, chain) = match outer.type_.as_ref() {
        StatementType::If(c, b, e) => (c, b, e.as_ref().expect("has an else-branch")),
        other => panic!("expected a conditional, found {:?}", other),
    };
    assert_eq!(*cond_a, field("a", 2));
    assert_eq!(body_a.len(), 1);
    let (cond_b, body_b, last) = match chain.type_.as_ref() {
        StatementType::If(c, b, e) => (c, b, e.as_ref().expect("chain continues")),
        other => panic!("expected a nested conditional, found {:?}", other),
    };
    assert_eq!(*cond_b, field("b", 4));
    assert_eq!(body_b.len(), 1);
    let (cond_true, body_z, none) = match last.type_.as_ref() {
        StatementType::If(c, b, e) => (c, b, e),
        other => panic!("expected a wrapped else block, found {:?}", other),
    };
    assert_eq!(*cond_true, Expression::new(ExpressionType::BoolLiteral(true), 6));
    assert_eq!(body_z.len(), 1);
    assert!(none.is_none());
}

#[test]
fn deeper_indentation_is_an_error_naming_the_line() {
    let err = parse("def f():\n    x = 1\n        y = 2\n").unwrap_err();
    assert_eq!(err.line_number, 3);
    assert_eq!(err.expected, Expected::BlockIndentation);
}

#[test]
fn dedent_ends_the_block_without_consuming() {
    let fs = parsed("def f():\n    if a:\n        x = 1\n    y = 2\n");
    assert_eq!(fs[0].statements.len(), 2);
    assert!(matches!(*fs[0].statements[0].type_, StatementType::If(..)));
    assert!(matches!(*fs[0].statements[1].type_, StatementType::Assignment(..)));
}

#[test]
fn while_loop_parses() {
    let fs = parsed("def f():\n    while a < 10:\n        a += 1\n");
    let (cond, body) = match fs[0].statements[0].type_.as_ref() {
        StatementType::While(c, b) => (c, b),
        other => panic!("expected a while loop, found {:?}", other),
    };
    assert_eq!(*cond, op(Operation::LessThan(field("a", 2), num(10, 2)), 2));
    assert_eq!(body.len(), 1);
}

#[test]
fn for_loop_parses_bound_identifiers() {
    let fs = parsed("def f():\n    for item in items:\n        x += 1\n");
    match fs[0].statements[0].type_.as_ref() {
        StatementType::For(loop_var, looped, body) => {
            assert_eq!(loop_var, "item");
            assert_eq!(looped, "items");
            assert_eq!(body.len(), 1);
        },
        other => panic!("expected a for loop, found {:?}", other),
    }
}

#[test]
fn for_loop_without_in_is_an_error() {
    let err = parse("def f():\n    for item of items:\n        x = 1\n").unwrap_err();
    assert_eq!(err.expected, Expected::InKeyword);
    assert_eq!(err.line_number, 2);
}

#[test]
fn bare_return_has_no_value() {
    let fs = parsed("def f():\n    return\n");
    assert_eq!(
        fs[0].statements,
        vec![Statement::new(StatementType::Return(None), 2)]
    );
}

#[test]
fn call_with_arguments_and_index() {
    let fs = parsed("def f():\n    return g(1, h()) + xs[0]\n");
    let call = Expression::new(
        ExpressionType::Call(
            String::from("g"),
            vec![
                num(1, 2),
                Expression::new(ExpressionType::Call(String::from("h"), Vec::new()), 2),
            ],
        ),
        2,
    );
    let index = op(Operation::ArrayIndex(field("xs", 2), num(0, 2)), 2);
    let expected = op(Operation::Add(call, index), 2);
    assert_eq!(
        fs[0].statements,
        vec![Statement::new(StatementType::Return(Some(expected)), 2)]
    );
}

#[test]
fn prefix_and_postfix_operators() {
    let fs = parsed("def f():\n    return -a + b++\n");
    let neg = op(Operation::Negative(field("a", 2)), 2);
    let inc = op(Operation::Increment(field("b", 2)), 2);
    let expected = op(Operation::Add(neg, inc), 2);
    assert_eq!(
        fs[0].statements,
        vec![Statement::new(StatementType::Return(Some(expected)), 2)]
    );
}

#[test]
fn discarded_expression_statement() {
    let fs = parsed("def f():\n    g(1)\n");
    let call = Expression::new(ExpressionType::Call(String::from("g"), vec![num(1, 2)]), 2);
    assert_eq!(
        fs[0].statements,
        vec![Statement::new(StatementType::Ignored(call), 2)]
    );
}

#[test]
fn declaration_requires_equals() {
    let err = parse("def f():\n    x: int\n").unwrap_err();
    assert_eq!(err.expected, Expected::EqualsInDeclaration);
    assert_eq!(err.line_number, 2);
}

#[test]
fn list_type_grammar() {
    let fs = parsed("def f(xs: list[float], m: Matrix):\n    return\n");
    assert_eq!(
        fs[0].parameters,
        vec![
            Parameter { name: String::from("xs"), typetype: Type::FloatList },
            Parameter { name: String::from("m"), typetype: Type::Matrix },
        ]
    );
}

#[test]
fn list_type_rejects_string_element() {
    let err = parse("def f(xs: list[str]):\n    return\n").unwrap_err();
    assert_eq!(err.expected, Expected::ListElementType);
}

#[test]
fn return_type_must_be_scalar() {
    let err = parse("def f() -> str:\n    return\n").unwrap_err();
    assert_eq!(err.expected, Expected::ScalarReturnType);
    assert_eq!(err.line_number, 1);
}

#[test]
fn unmatched_parenthesis_is_an_error() {
    let err = parse("def f():\n    return (1 + 2\n").unwrap_err();
    assert_eq!(err.expected, Expected::CloseParenthesis);
}

#[test]
fn missing_body_indentation_is_an_error() {
    let err = parse("def f():\n\n    return\n").unwrap_err();
    assert_eq!(err.expected, Expected::IndentBeforeBody);
}

#[test]
fn body_must_be_deeper_than_the_def_line() {
    // A function body at the def line's own width is rejected.
    let err = parse("def f():\nreturn\n").unwrap_err();
    assert_eq!(err.expected, Expected::DeeperIndentation);
    assert_eq!(err.line_number, 2);
}

#[test]
fn nested_block_shallower_than_enclosing_is_an_error() {
    let err = parse("def f():\n    if a:\n  x = 1\n").unwrap_err();
    assert_eq!(err.expected, Expected::DeeperIndentation);
    assert_eq!(err.line_number, 3);
}

#[test]
fn nested_block_at_enclosing_width_is_an_error() {
    let err = parse("def f():\n    if a:\n    x = 1\n").unwrap_err();
    assert_eq!(err.expected, Expected::DeeperIndentation);
    assert_eq!(err.line_number, 3);
}

#[test]
fn valued_return_requires_its_line_break() {
    let err = parse("def f():\n    return 1 2\n").unwrap_err();
    assert_eq!(err.expected, Expected::NewLineAfterStatement);
    assert_eq!(err.line_number, 2);
}

#[test]
fn blank_line_of_whitespace_yields_no_statement() {
    // A line of spaces and a tab lexes to a leading-spaces token directly
    // before the break; it is skipped, not parsed as a statement.
    let fs = parsed("def f():\n    x = 1\n    \t\n    y = 2\n");
    assert_eq!(fs[0].statements.len(), 2);
}

#[test]
fn else_at_outer_width_belongs_to_the_outer_if() {
    let fs = parsed(
        "def f():\n    if a:\n        if b:\n            x = 1\n    else:\n        y = 2\n",
    );
    assert_eq!(fs[0].statements.len(), 1);
    let (_, body, els) = match fs[0].statements[0].type_.as_ref() {
        StatementType::If(c, b, e) => (c, b, e),
        other => panic!("expected a conditional, found {:?}", other),
    };
    // the inner conditional carries no else-branch of its own
    match body[0].type_.as_ref() {
        StatementType::If(_, _, inner_els) => assert!(inner_els.is_none()),
        other => panic!("expected a nested conditional, found {:?}", other),
    }
    assert!(els.is_some());
}

#[test]
fn top_level_must_start_with_def() {
    let err = parse("x = 1\n").unwrap_err();
    assert_eq!(err.expected, Expected::Def);
    assert_eq!(err.line_number, 1);
}

#[test]
fn blank_lines_between_functions_are_skipped() {
    let fs = parsed("def f():\n    return 1\n\ndef g():\n    return 2\n");
    assert_eq!(fs.len(), 2);
    assert_eq!(fs[0].name, "f");
    assert_eq!(fs[1].name, "g");
}

#[test]
fn empty_expression_is_a_lone_line_break() {
    let mut ts = TokenStream::new(to_tokens("\n").expect("lexing is total"));
    let e = parse_expression(&mut ts, 0).expect("a lone break is the empty expression");
    assert_eq!(e, Expression::new(ExpressionType::Empty, 1));
}

#[test]
fn list_literal_with_elements() {
    let fs = parsed("def f():\n    xs: list[int] = [1, 2, 3]\n");
    let lit = Expression::new(
        ExpressionType::ListLiteral(vec![num(1, 2), num(2, 2), num(3, 2)]),
        2,
    );
    let expected = Statement::new(
        StatementType::Declaration(field("xs", 2), Type::IntList, lit),
        2,
    );
    assert_eq!(fs[0].statements, vec![expected]);
}

#[test]
fn string_literal_expression() {
    let fs = parsed("def f():\n    s: str = \"hi\"\n");
    let lit = Expression::new(ExpressionType::StringLiteral(String::from("hi")), 2);
    let expected = Statement::new(
        StatementType::Declaration(field("s", 2), Type::String, lit),
        2,
    );
    assert_eq!(fs[0].statements, vec![expected]);
}

#[test]
fn unwrap_io_returns_the_value() {
    let v: Result<i32, String> = Ok(7);
    assert_eq!(unwrap_io(v), 7);
}
