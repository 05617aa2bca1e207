use calc::lex::lexer;
use calc::parse::{is_in_group, parse, process_braces};
use calc::{AppError, TreeNode};

/// The tree written with full parentheses.
fn show(t: &TreeNode) -> String {
    match t {
        TreeNode::Ending(Some(n)) => {
            let mut s: String = n.whole.iter().map(|d| (b'0' + d) as char).collect();
            if let Some(f) = &n.frac {
                s.push('.');
                s.extend(f.iter().map(|d| (b'0' + d) as char));
            }
            if n.negative { format!("-{}", s) } else { s }
        }
        TreeNode::WithChilds { data: Some(op), children: Some(ch) } => {
            format!("({} {} {})", show(&ch.0), op, show(&ch.1))
        }
        _ => "?".to_string(),
    }
}

fn tree_of(inp: &str) -> String {
    show(&parse(lexer(inp).unwrap()).unwrap())
}

fn braces_err(inp: &str) -> String {
    match process_braces(&lexer(inp).unwrap()) {
        Err(AppError::ParseError(m)) => m.to_string(),
        other => panic!("{:?}", other),
    }
}

#[test]
fn parse_t_01() {
    let toks = lexer("( 8 * 10 ) - (100^0.5)").unwrap();
    let br_res = process_braces(&toks).unwrap();
    assert_eq!(br_res, vec![(0, 4), (6, 10)]);
}

#[test]
fn parse_t_02() {
    let toks = lexer("( 8 * 10 )").unwrap();
    let br_res = process_braces(&toks).unwrap();
    assert_eq!(br_res, vec![(0, 4)]);
}

#[test]
fn parse_t_03() {
    let toks = lexer("(100^0.5)").unwrap();
    let br_res = process_braces(&toks).unwrap();
    assert_eq!(br_res, vec![(0, 4)]);
}

#[test]
fn t_04() {
    let toks = lexer("( 10 - 3 ) * 17 + (11+-2) / (12 - 7)").unwrap();
    let br_res = process_braces(&toks).unwrap();
    assert_eq!(br_res, vec![(0, 4), (8, 12), (14, 18)]);
}

#[test]
fn braces_nested_groups_are_outermost() {
    assert_eq!(process_braces(&lexer("((1))").unwrap()).unwrap(), vec![(0, 4)]);
    assert_eq!(process_braces(&lexer("1 + 2").unwrap()).unwrap(), vec![]);
    assert_eq!(process_braces(&lexer("(1)+(2)").unwrap()).unwrap(), vec![(0, 2), (4, 6)]);
}

#[test]
fn braces_errors() {
    assert_eq!(braces_err(")("), "Ill-formed braces");
    assert_eq!(braces_err("((1)"), "Ill-formed braces");
    assert_eq!(braces_err("(1"), "Ill-formed braces");
    // a group directly followed by another one
    assert_eq!(braces_err("(1)(2)"), "Bad input");
}

#[test]
fn group_membership() {
    assert!(is_in_group(&['+', '-'], '-'));
    assert!(!is_in_group(&['+', '-'], '*'));
    assert!(!is_in_group(&[], '+'));
}

#[test]
fn parse_precedence() {
    assert_eq!(tree_of("1 + 2 * 3"), "(1 + (2 * 3))");
    assert_eq!(tree_of("2 * 3 + 1"), "((2 * 3) + 1)");
    assert_eq!(tree_of("2 * 3 ^ 2"), "(2 * (3 ^ 2))");
    assert_eq!(tree_of("2 ^ 3 / 4"), "((2 ^ 3) / 4)");
}

#[test]
fn parse_left_associative() {
    assert_eq!(tree_of("8 - 2 - 1"), "((8 - 2) - 1)");
    assert_eq!(tree_of("8 / 2 * 2"), "((8 / 2) * 2)");
    assert_eq!(tree_of("2 ^ 3 ^ 2"), "((2 ^ 3) ^ 2)");
}

#[test]
fn parse_groups_become_nodes() {
    assert_eq!(tree_of("( 10 - 9 )*2"), "((10 - 9) * 2)");
    assert_eq!(tree_of("2 * (1 + 3)"), "(2 * (1 + 3))");
    assert_eq!(tree_of("((5))"), "5");
    assert_eq!(tree_of("(1)+(2)"), "(1 + 2)");
    assert_eq!(tree_of("(11+-2)"), "(11 + -2)");
    assert_eq!(tree_of("7"), "7");
}

#[test]
fn parse_operator_without_operand_fails() {
    match parse(lexer("- 4").unwrap()) {
        Err(AppError::ParseError(m)) => assert_eq!(m, "Empty extended tokens found"),
        other => panic!("{:?}", other),
    }
    match parse(lexer("(2 +)").unwrap()) {
        Err(AppError::ParseError(m)) => assert_eq!(m, "Empty extended tokens found"),
        other => panic!("{:?}", other),
    }
}

#[test]
fn parse_empty_group_fails() {
    let toks = lexer("()").unwrap();
    match parse(toks) {
        Err(AppError::ParseError(m)) => assert_eq!(m, "Empty extended tokens found"),
        other => panic!("{:?}", other),
    }
    match parse(lexer("").unwrap()) {
        Err(AppError::ParseError(m)) => assert_eq!(m, "Empty extended tokens found"),
        other => panic!("{:?}", other),
    }
}

#[test]
fn parse_reports_brace_errors() {
    match parse(lexer("(1)(2)").unwrap()) {
        Err(AppError::ParseError(m)) => assert_eq!(m, "Bad input"),
        other => panic!("{:?}", other),
    }
}
