use dataflow_extensions::kql::arithmetic::{
    parse_arithmetic_expression, parse_arithmetic_with_pratt, MathOp, QueryLocation,
    ScalarExpression, Token,
};
use dataflow_extensions::kql::errors::{map_kql_errors, ParserError};
use dataflow_extensions::kql::primary::{parse_primary, Primary, Rule, StaticReader};
use dataflow_extensions::kql::repl::{repl_command, ReplCommand};
use dataflow_extensions::kql::tree::{print_pair, ParseTree};

fn at() -> QueryLocation {
    QueryLocation { start: 0, end: 9, line_number: 1, column_number: 1 }
}

fn number(n: i32) -> Token<Result<i32, String>> {
    Token::Primary(Ok(n))
}

fn op(o: MathOp) -> Token<Result<i32, String>> {
    Token::Infix(o)
}

fn shown(tree: &ScalarExpression<i32>) -> String {
    match tree {
        ScalarExpression::Primary(n) => format!("{n}"),
        ScalarExpression::Negate(loc, x) => {
            assert_eq!(*loc, at());
            format!("-{}", shown(x))
        }
        ScalarExpression::Math(loc, o, l, r) => {
            assert_eq!(*loc, at());
            let sign = match o {
                MathOp::Add => "+",
                MathOp::Subtract => "-",
                MathOp::Multiply => "*",
                MathOp::Divide => "/",
                MathOp::Modulus => "%",
            };
            format!("({} {} {})", shown(l), sign, shown(r))
        }
    }
}

#[test]
fn products_bind_more_than_sums() {
    let row = vec![number(2), op(MathOp::Add), number(3), op(MathOp::Multiply), number(4)];
    let tree = parse_arithmetic_expression(at(), row).unwrap();
    assert_eq!(shown(&tree), "(2 + (3 * 4))");
}

#[test]
fn operators_of_one_rank_group_to_the_left() {
    let row = vec![
        number(9),
        op(MathOp::Subtract),
        number(3),
        op(MathOp::Add),
        number(8),
        op(MathOp::Divide),
        number(4),
        op(MathOp::Modulus),
        number(5),
    ];
    let tree = parse_arithmetic_with_pratt(at(), row).unwrap();
    assert_eq!(shown(&tree), "((9 - 3) + ((8 / 4) % 5))");
}

#[test]
fn a_minus_in_front_binds_most() {
    let row = vec![Token::UnaryMinus, number(5), op(MathOp::Add), number(3)];
    assert_eq!(shown(&parse_arithmetic_expression(at(), row).unwrap()), "(-5 + 3)");
    let row = vec![
        number(2),
        op(MathOp::Multiply),
        Token::UnaryMinus,
        Token::UnaryMinus,
        number(7),
    ];
    assert_eq!(shown(&parse_arithmetic_expression(at(), row).unwrap()), "(2 * --7)");
}

#[test]
fn a_lone_operand_is_the_whole_tree() {
    let tree = parse_arithmetic_expression(at(), vec![number(1)]).unwrap();
    assert!(matches!(tree, ScalarExpression::Primary(1)));
}

#[test]
fn the_first_operand_that_cannot_be_read_is_the_error() {
    let row = vec![
        number(1),
        op(MathOp::Add),
        Token::Primary(Err("first".to_string())),
        op(MathOp::Add),
        Token::Primary(Err("second".to_string())),
    ];
    assert_eq!(parse_arithmetic_expression(at(), row).unwrap_err(), "first");
}

#[test]
fn an_unknown_name_becomes_a_diagnostic() {
    let mapped = map_kql_errors(ParserError::KeyNotFound {
        location: at(),
        key: "Severity".to_string(),
    });
    match mapped {
        ParserError::QueryLanguageDiagnostic { location, diagnostic_id, message } => {
            assert_eq!(location, at());
            assert_eq!(diagnostic_id, "KS142");
            assert_eq!(
                message,
                "The name 'Severity' does not refer to any known column, table, variable or function"
            );
        }
        other => panic!("unexpected error {other:?}"),
    }
}

#[test]
fn other_parser_errors_stay() {
    let mapped = map_kql_errors(ParserError::BudgetExceeded("input length".to_string()));
    assert!(matches!(mapped, ParserError::BudgetExceeded(m) if m == "input length"));
}

#[test]
fn literals_are_static_and_expressions_need_the_scope() {
    assert_eq!(parse_primary(Rule::NullLiteral), Primary::Static(StaticReader::Null));
    assert_eq!(parse_primary(Rule::TrueLiteral), Primary::Static(StaticReader::Bool));
    assert_eq!(parse_primary(Rule::FalseLiteral), Primary::Static(StaticReader::Bool));
    assert_eq!(parse_primary(Rule::IntegerLiteral), Primary::Static(StaticReader::Integer));
    assert_eq!(parse_primary(Rule::DoubleLiteral), Primary::Static(StaticReader::Double));
    assert_eq!(parse_primary(Rule::StringLiteral), Primary::Static(StaticReader::Text));
    assert_eq!(parse_primary(Rule::StrlenExpression), Primary::Scoped(Rule::StrlenExpression));
    assert_eq!(
        parse_primary(Rule::AccessorExpression),
        Primary::Accessor { allow_root_scalar: true }
    );
}

#[test]
fn the_prompt_quits_skips_and_parses() {
    assert_eq!(repl_command("quit"), ReplCommand::Quit);
    assert_eq!(repl_command("  quit \n"), ReplCommand::Quit);
    assert_eq!(repl_command("\u{2003}quit\u{a0}"), ReplCommand::Quit);
    assert_eq!(repl_command(""), ReplCommand::Skip);
    assert_eq!(repl_command(" \t "), ReplCommand::Skip);
    assert_eq!(repl_command("quit now"), ReplCommand::Parse);
    assert_eq!(repl_command("2 + 3"), ReplCommand::Parse);
}

fn leaf(rule: &str, text: &str) -> ParseTree {
    ParseTree { rule: rule.to_string(), text: text.to_string(), inner: vec![] }
}

#[test]
fn a_parse_tree_is_shown_with_indentation() {
    let tree = ParseTree {
        rule: "scalar_expression".to_string(),
        text: "1 + x".to_string(),
        inner: vec![
            leaf("integer_literal", "1"),
            ParseTree {
                rule: "accessor_expression".to_string(),
                text: "x".to_string(),
                inner: vec![leaf("identifier_literal", "x")],
            },
        ],
    };
    assert_eq!(
        print_pair(&tree, 0),
        vec![
            "scalar_expression",
            "  integer_literal = \"1\"",
            "  accessor_expression",
            "    identifier_literal = \"x\"",
        ]
    );
    assert_eq!(print_pair(&leaf("true_literal", "true"), 2), vec!["    true_literal = \"true\""]);
}
