use toyparse::{ASTNode, ASTParser, ParseError, Token, Tokenizer};

fn parse_src(src: &str) -> Result<Vec<ASTNode>, ParseError> {
    ASTParser::new(Tokenizer::new(src.to_string())).parse()
}

fn op_text(t: &Token) -> &'static str {
    match t {
        Token::Plus => "+",
        Token::Minus => "-",
        Token::Star => "*",
        Token::FSlash => "/",
        _ => "?",
    }
}

fn show(n: &ASTNode) -> String {
    match n {
        ASTNode::AST { token, children } => {
            assert_eq!(children.len(), 2);
            format!(
                "({} {} {})",
                show(&children[0]),
                op_text(token),
                show(&children[1])
            )
        }
        ASTNode::Operator(t) => op_text(t).to_string(),
        ASTNode::BinaryOperation { left, op, right } => {
            format!("({} {} {})", show(left), show(op), show(right))
        }
        ASTNode::UnaryOperation { op, expression } => {
            format!("[{}{}]", show(op), show(expression))
        }
        ASTNode::NumberLiteral { raw, .. } => raw.clone(),
    }
}

fn eval(n: &ASTNode) -> i64 {
    match n {
        ASTNode::AST { token, children } => {
            let (a, b) = (eval(&children[0]), eval(&children[1]));
            match token {
                Token::Plus => a + b,
                Token::Minus => a - b,
                Token::Star => a * b,
                Token::FSlash => a / b,
                _ => panic!("not an operator"),
            }
        }
        ASTNode::UnaryOperation { op, expression } => match &**op {
            ASTNode::Operator(Token::Minus) => -eval(expression),
            _ => eval(expression),
        },
        ASTNode::NumberLiteral { parsed, .. } => *parsed as i64,
        _ => panic!("unexpected node"),
    }
}

fn shown(src: &str) -> Vec<String> {
    parse_src(src).unwrap().iter().map(show).collect()
}

#[test]
fn empty_input_is_an_empty_program() {
    assert_eq!(parse_src("").unwrap().len(), 0);
    assert_eq!(parse_src("  \n ").unwrap().len(), 0);
}

#[test]
fn multiplication_binds_tighter_than_addition() {
    assert_eq!(shown("2 + 3 * 4"), vec!["(2 + (3 * 4))"]);
    assert_ne!(shown("2 + 3 * 4"), vec!["((2 + 3) * 4)"]);
    assert_eq!(eval(&parse_src("2 + 3 * 4").unwrap()[0]), 14);
}

#[test]
fn subtraction_groups_from_the_left() {
    assert_eq!(shown("8 - 3 - 2"), vec!["((8 - 3) - 2)"]);
    assert_eq!(eval(&parse_src("8 - 3 - 2").unwrap()[0]), 3);
}

#[test]
fn division_groups_from_the_left() {
    assert_eq!(shown("16 / 4 / 2"), vec!["((16 / 4) / 2)"]);
    assert_eq!(eval(&parse_src("16 / 4 / 2").unwrap()[0]), 2);
}

#[test]
fn nested_unary_minus() {
    let p = parse_src("- -5").unwrap();
    assert_eq!(p.len(), 1);
    match &p[0] {
        ASTNode::UnaryOperation { op, expression } => {
            assert!(matches!(&**op, ASTNode::Operator(Token::Minus)));
            match &**expression {
                ASTNode::UnaryOperation { op, expression } => {
                    assert!(matches!(&**op, ASTNode::Operator(Token::Minus)));
                    match &**expression {
                        ASTNode::NumberLiteral { raw, parsed } => {
                            assert_eq!(raw, "5");
                            assert_eq!(*parsed, 5);
                        }
                        other => panic!("expected a literal, got {:?}", other),
                    }
                }
                other => panic!("expected a unary node, got {:?}", other),
            }
        }
        other => panic!("expected a unary node, got {:?}", other),
    }
}

#[test]
fn unary_plus_and_minus_apply_to_a_factor() {
    assert_eq!(shown("+3"), vec!["[+3]"]);
    assert_eq!(shown("-2 * 3"), vec!["([-2] * 3)"]);
    assert_eq!(eval(&parse_src("-2 * 3").unwrap()[0]), -6);
}

#[test]
fn parentheses_group() {
    assert_eq!(shown("(1 + 2) * 3"), vec!["((1 + 2) * 3)"]);
    assert_eq!(shown("1 + 2 * 3"), vec!["(1 + (2 * 3))"]);
    assert_ne!(shown("1 + 2 * 3"), shown("(1 + 2) * 3"));
    assert_eq!(eval(&parse_src("(1 + 2) * 3").unwrap()[0]), 9);
}

#[test]
fn leading_operator_fails_the_program() {
    assert_eq!(parse_src("*5").unwrap_err(), ParseError::Malformed);
}

#[test]
fn one_bad_expression_fails_everything() {
    assert_eq!(parse_src("1 + 2 )").unwrap_err(), ParseError::Malformed);
    assert_eq!(parse_src("1 x").unwrap_err(), ParseError::Malformed);
    assert_eq!(parse_src("1 +").unwrap_err(), ParseError::Malformed);
    assert_eq!(parse_src("mut").unwrap_err(), ParseError::Malformed);
}

#[test]
fn oversized_literal_is_its_own_error() {
    assert_eq!(
        parse_src("99999999999").unwrap_err(),
        ParseError::LiteralOverflow
    );
    assert_eq!(
        parse_src("1 + 2147483648").unwrap_err(),
        ParseError::LiteralOverflow
    );
    assert_eq!(
        parse_src("2147483647").unwrap()[0],
        ASTNode::NumberLiteral {
            raw: "2147483647".to_string(),
            parsed: 2147483647
        }
    );
}

#[test]
fn missing_close_paren_is_passed_over() {
    assert_eq!(shown("(1 + 2"), vec!["(1 + 2)"]);
    assert_eq!(shown("(4 5"), vec!["4", "5"]);
}

#[test]
fn several_expressions_make_a_program() {
    assert_eq!(shown("1 2 + 3 (4)"), vec!["1", "(2 + 3)", "4"]);
}

#[test]
fn literals_round_trip_through_i32() {
    let p = parse_src("007 + -12 * (3 - 0042)").unwrap();
    fn check(n: &ASTNode) {
        match n {
            ASTNode::AST { children, .. } => children.iter().for_each(check),
            ASTNode::UnaryOperation { op, expression } => {
                check(op);
                check(expression);
            }
            ASTNode::NumberLiteral { raw, parsed } => {
                assert_eq!(raw.parse::<i32>().unwrap(), *parsed);
            }
            _ => {}
        }
    }
    p.iter().for_each(check);
    assert_eq!(eval(&p[0]), 7 + -12 * (3 - 42));
}

#[test]
fn parsing_is_deterministic() {
    for src in ["2 + 3 * 4", "- -5", "(1 + 2) * 3", "*5", "99999999999", ""] {
        assert_eq!(parse_src(src), parse_src(src));
    }
}

#[test]
fn parser_over_partly_read_tokenizer() {
    let mut t = Tokenizer::new("9 1 + 1".to_string());
    assert_eq!(t.next(), Some(Token::NumberLiteral("9".to_string())));
    assert_eq!(
        ASTParser::new(t).parse().unwrap().iter().map(show).collect::<Vec<_>>(),
        vec!["(1 + 1)"]
    );
}
