use calc::eval::Step;
use calc::pipeline::prepare;
use calc::session::{Action, Calculator};
use calc::{AppError, Msg, Number};

fn value_of(n: &Number) -> f64 {
    let whole = n.whole.iter().fold(0.0f64, |acc, d| acc * 10.0 + *d as f64);
    let value = match &n.frac {
        Some(f) => {
            let frac = f.iter().fold(0.0f64, |acc, d| acc * 10.0 + *d as f64);
            whole + frac * 10.0f64.powi(-(f.len() as i32))
        }
        None => whole,
    };
    if n.negative { -value } else { value }
}

/// Runs a postfix program on floats.
fn run(steps: &[Step]) -> f64 {
    let mut stack: Vec<f64> = Vec::new();
    for s in steps {
        match s {
            Step::Push(n) => stack.push(value_of(n)),
            Step::Apply(op) => {
                let b = stack.pop().unwrap();
                let a = stack.pop().unwrap();
                stack.push(match op {
                    '*' => a * b,
                    '/' => a / b,
                    '+' => a + b,
                    '-' => a - b,
                    '^' => a.powf(b),
                    _ => unreachable!(),
                });
            }
        }
    }
    assert_eq!(stack.len(), 1);
    stack[0]
}

/// The value of a text, as the calculator computes it.
fn perform(inp: String) -> Result<f64, AppError> {
    prepare(&inp).map(|p| run(&p))
}

#[test]
fn perform_tests_t_01() {
    let res = perform("( 10 - 9 )*2".to_string());
    match res {
        Ok(num) => {
            assert_eq!(num, 2.0);
        }
        Err(e) => {
            panic!("{:?}", e)
        }
    }
}

#[test]
fn perform_precedence_and_groups() {
    assert_eq!(perform("1 + 2 * 3".to_string()).unwrap(), 7.0);
    assert_eq!(perform("( 1 + 2 ) * 3".to_string()).unwrap(), 9.0);
    assert_eq!(perform("10 - 4 - 3".to_string()).unwrap(), 3.0);
    assert_eq!(perform("2 ^ 3 * 2".to_string()).unwrap(), 16.0);
    assert_eq!(perform("(100^0.5)".to_string()).unwrap(), 10.0);
    assert_eq!(perform("( -90 * 7 ) + 5 / 1 - 8^(12 - 10)".to_string()).unwrap(), -689.0);
    assert_eq!(perform("1.5 * 2".to_string()).unwrap(), 3.0);
}

#[test]
fn perform_filters_other_chars() {
    assert_eq!(perform("1 + 2a".to_string()).unwrap(), 3.0);
}

#[test]
fn prepare_reports_lex_errors() {
    match prepare("1..2") {
        Err(AppError::LexError(m)) => assert_eq!(m, "Found number with 2 dots"),
        other => panic!("{:?}", other),
    }
}

#[test]
fn prepare_reports_parse_errors() {
    match prepare("(()") {
        Err(AppError::ParseError(m)) => assert_eq!(m, "Ill-formed braces"),
        other => panic!("{:?}", other),
    }
    match prepare("( )") {
        Err(AppError::ParseError(m)) => assert_eq!(m, "Empty extended tokens found"),
        other => panic!("{:?}", other),
    }
}

#[test]
fn session_enter_asks_for_text() {
    let mut c = Calculator::new();
    assert!(matches!(c.update(Msg::TextChange("1 + 2".to_string())), Action::Nothing));
    assert_eq!(c.out, "1 + 2");
    match c.update(Msg::EnterPressed) {
        Action::Compute(t) => assert_eq!(t, "1 + 2"),
        other => panic!("{:?}", other),
    }
    assert_eq!(c.out, "1 + 2");
    assert_eq!(c.status_str, "");
}

#[test]
fn session_output_and_status() {
    let mut c = Calculator::new();
    c.update(Msg::Output("3".to_string()));
    assert_eq!(c.out, "3");
    c.update(Msg::Status("bad".to_string()));
    assert_eq!(c.status_str, "bad");
    assert_eq!(c.out, "3");
}
