use calc::lex::lexer;
use calc::{AppError, Token};

fn kinds(toks: &[Token]) -> String {
    toks.iter()
        .map(|t| match t {
            Token::Op(c) => c.to_string(),
            Token::Brace { lhs: true } => "(".to_string(),
            Token::Brace { lhs: false } => ")".to_string(),
            Token::Num(n) => {
                let mut s = String::new();
                if n.negative {
                    s.push('~');
                }
                for d in &n.whole {
                    s.push((b'0' + d) as char);
                }
                if let Some(f) = &n.frac {
                    s.push('.');
                    for d in f {
                        s.push((b'0' + d) as char);
                    }
                }
                s
            }
        })
        .collect::<Vec<_>>()
        .join(" ")
}

fn lex_err(inp: &str) -> String {
    match lexer(inp) {
        Err(AppError::LexError(m)) => m.to_string(),
        other => panic!("{:?}", other),
    }
}

#[test]
fn lex_t_01() {
    println!("{:?}", lexer("( -90 * 7 ) + 5 / 1 - 8^(12 - 2)"));
    assert!(lexer("( -90 * 7 ) + 5 / 1 - 8^(12 - 2)").is_ok());
}

#[test]
fn lex_t_02() {
    println!("{:?}", lexer("( -90 * 7 ) + 5 / 1 - 8^(12 - -2)"));
    assert!(lexer("( -90 * 7 ) + 5 / 1 - 8^(12 - -2)").is_ok());
}

#[test]
fn lex_t_03() {
    println!("{:?}", lexer("( -90 * -7 ) + 5 / -1 - 8^-2"));
    assert!(lexer("( -90 * -7 ) + 5 / -1 - 8^-2").is_ok());
}

#[test]
fn lex_tokens_of_expression() {
    let t = lexer("( -90 * 7 ) + 5 / 1 - 8^(12 - 2)").unwrap();
    assert_eq!(kinds(&t), "( ~90 * 7 ) + 5 / 1 - 8 ^ ( 12 - 2 )");
}

#[test]
fn lex_sign_before_digit() {
    // a '-' directly followed by a digit, where no number is read, is a sign
    assert_eq!(kinds(&lexer("8^-2").unwrap()), "8 ^ ~2");
    assert_eq!(kinds(&lexer("(11+-2)").unwrap()), "( 11 + ~2 )");
    assert_eq!(kinds(&lexer("3-4").unwrap()), "3 - 4");
    assert_eq!(kinds(&lexer("- 4").unwrap()), "- 4");
    // other operators stay operators
    assert_eq!(kinds(&lexer(")*2").unwrap()), ") * 2");
    assert_eq!(kinds(&lexer("*2").unwrap()), "* 2");
    assert_eq!(kinds(&lexer("+2 ^3 /4").unwrap()), "+ 2 ^ 3 / 4");
}

#[test]
fn lex_filters_other_chars() {
    assert_eq!(kinds(&lexer("2a").unwrap()), "2");
    assert_eq!(kinds(&lexer("1 + 2a").unwrap()), kinds(&lexer("1 + 2").unwrap()));
    assert_eq!(kinds(&lexer("1x2").unwrap()), "12");
    assert_eq!(kinds(&lexer("-a2").unwrap()), "~2");
    assert_eq!(kinds(&lexer("1\t2").unwrap()), "12");
}

#[test]
fn lex_decimal_numbers() {
    assert_eq!(kinds(&lexer("100^0.5").unwrap()), "100 ^ 0.5");
    assert_eq!(kinds(&lexer("5.").unwrap()), "5.");
    assert_eq!(kinds(&lexer("007").unwrap()), "007");
}

#[test]
fn lex_spaces_separate_lexemes() {
    let joined = kinds(&lexer("12 (3").unwrap());
    let first = kinds(&lexer("12").unwrap());
    let second = kinds(&lexer("(3").unwrap());
    assert_eq!(joined, format!("{} {}", first, second));
    assert_eq!(kinds(&lexer("1 2").unwrap()), "1 2");
    assert_eq!(lexer("   ").unwrap().len(), 0);
    assert_eq!(lexer("").unwrap().len(), 0);
}

#[test]
fn lex_errors() {
    assert_eq!(lex_err(".5"), "Found dot outside of number");
    assert_eq!(lex_err("1.2.3"), "Found number with 2 dots");
    // the first error in reading order is the one reported
    assert_eq!(lex_err("1.2.3 .4"), "Found number with 2 dots");
    assert_eq!(lex_err("x.5"), "Found dot outside of number");
}

#[test]
fn lex_tokens_are_well_formed() {
    for t in lexer("( -90 * -7 ) + 5 / -1 - 8^-2 3.25").unwrap() {
        match t {
            Token::Op(c) => assert!("+-*/^".contains(c)),
            Token::Num(n) => {
                assert!(!n.whole.is_empty());
                assert!(n.whole.iter().all(|d| *d < 10));
                if let Some(f) = n.frac {
                    assert!(f.iter().all(|d| *d < 10));
                }
            }
            Token::Brace { .. } => {}
        }
    }
}
