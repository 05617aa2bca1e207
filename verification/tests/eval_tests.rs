use calc::eval::{compile, Step};
use calc::{AppError, Number, TreeNode};

/// The number `v` as the lexer would give it.
fn num(v: u64) -> Number {
    let mut whole: Vec<u8> = v.to_string().bytes().map(|b| b - b'0').collect();
    if whole.is_empty() {
        whole.push(0);
    }
    Number { negative: false, whole, frac: None }
}

fn leaf(v: u64) -> TreeNode {
    TreeNode::from_number(num(v))
}

fn value_of(n: &Number) -> f64 {
    let whole = n.whole.iter().fold(0.0f64, |acc, d| acc * 10.0 + *d as f64);
    let value = match &n.frac {
        Some(f) => {
            let frac = f.iter().fold(0.0f64, |acc, d| acc * 10.0 + *d as f64);
            whole + frac * 10.0f64.powi(-(f.len() as i32))
        }
        None => whole,
    };
    if n.negative { -value } else { value }
}

/// Runs a postfix program on floats.
fn run(steps: &[Step]) -> f64 {
    let mut stack: Vec<f64> = Vec::new();
    for s in steps {
        match s {
            Step::Push(n) => stack.push(value_of(n)),
            Step::Apply(op) => {
                let b = stack.pop().unwrap();
                let a = stack.pop().unwrap();
                stack.push(match op {
                    '*' => a * b,
                    '/' => a / b,
                    '+' => a + b,
                    '-' => a - b,
                    '^' => a.powf(b),
                    _ => unreachable!(),
                });
            }
        }
    }
    assert_eq!(stack.len(), 1);
    stack[0]
}

#[test]
fn eval_t_01() {
    let mut tree = TreeNode::from_op('+');
    tree.push_chidren(Box::new((leaf(10), leaf(10))));
    match compile(&tree) {
        Ok(p) => assert_eq!(run(&p), 20.0),
        Err(e) => panic!("{:?}", e),
    }
}

#[test]
fn eval_t_02() {
    let mut tree = TreeNode::from_op('+');
    tree.push_chidren(Box::new((
        {
            let mut tree = TreeNode::from_op('^');
            tree.push_chidren(Box::new((leaf(2), leaf(2))));
            tree
        },
        leaf(10),
    )));
    match compile(&tree) {
        Ok(num) => assert_eq!(run(&num), 14.0),
        Err(e) => panic!("{:?}", e),
    }
}

#[test]
fn eval_program_is_postfix() {
    let mut tree = TreeNode::from_op('-');
    tree.push_chidren(Box::new((leaf(7), leaf(3))));
    let p = compile(&tree).unwrap();
    assert_eq!(p.len(), 3);
    assert!(matches!(&p[0], Step::Push(n) if n.whole == vec![7]));
    assert!(matches!(&p[1], Step::Push(n) if n.whole == vec![3]));
    assert!(matches!(&p[2], Step::Apply('-')));
    assert_eq!(run(&p), 4.0);
}

#[test]
fn eval_left_operand_below_right() {
    let mut tree = TreeNode::from_op('/');
    tree.push_chidren(Box::new((leaf(8), leaf(2))));
    assert_eq!(run(&compile(&tree).unwrap()), 4.0);
}

#[test]
fn eval_ill_formed_ending() {
    let tree = TreeNode::Ending(None);
    match compile(&tree) {
        Err(AppError::EvalError(m)) => assert_eq!(m, "Ill formed ending"),
        other => panic!("{:?}", other),
    }
}

#[test]
fn eval_ill_formed_tree() {
    let tree = TreeNode::from_op('+');
    match compile(&tree) {
        Err(AppError::EvalError(m)) => assert_eq!(m, "Ill formed tree"),
        other => panic!("{:?}", other),
    }
}

#[test]
fn eval_bad_op_after_operands() {
    let mut tree = TreeNode::from_op('%');
    tree.push_chidren(Box::new((leaf(1), leaf(2))));
    match compile(&tree) {
        Err(AppError::EvalError(m)) => assert_eq!(m, "Bad op found"),
        other => panic!("{:?}", other),
    }
    // an error in the left operand is met before the unknown operator
    let mut tree = TreeNode::from_op('%');
    tree.push_chidren(Box::new((TreeNode::Ending(None), leaf(2))));
    match compile(&tree) {
        Err(AppError::EvalError(m)) => assert_eq!(m, "Ill formed ending"),
        other => panic!("{:?}", other),
    }
}

#[test]
fn push_children_on_leaf_keeps_leaf() {
    let mut tree = leaf(5);
    tree.push_chidren(Box::new((leaf(1), leaf(2))));
    assert!(matches!(tree, TreeNode::Ending(Some(_))));
}
