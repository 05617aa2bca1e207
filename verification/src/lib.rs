//! A small calculator: text is split into tokens, the tokens are grouped by
//! parentheses and arranged into a tree, and the tree is flattened into a
//! postfix program that the application evaluates.
use std::borrow::Cow;
use vstd::prelude::*;

pub mod lex;
pub mod parse;
pub mod eval;
pub mod pipeline;
pub mod session;

verus! {

/// The messages of the calculator's window.
#[derive(Debug, Clone)]
pub enum Msg {
    EnterPressed,
    TextChange(String),
    Output(String),
    Status(String),
}

/// What can go wrong while turning text into a result.
#[derive(Debug)]
pub enum AppError {
    ParseError(Cow<'static, str>),
    EvalError(Cow<'static, str>),
    LexError(Cow<'static, str>),
    Test(Cow<'static, str>),
}

/// A number as it was written: its sign, the digits before the dot and,
/// when a dot was written, the digits after it. Each digit is a value 0..=9.
#[derive(Debug)]
pub struct Number {
    pub negative: bool,
    pub whole: Vec<u8>,
    pub frac: Option<Vec<u8>>,
}

/// The mathematical content of a [`Number`].
pub struct NumberV {
    pub negative: bool,
    pub whole: Seq<u8>,
    pub frac: Option<Seq<u8>>,
}

impl View for Number {
    type V = NumberV;

    open spec fn view(&self) -> NumberV {
        NumberV {
            negative: self.negative,
            whole: self.whole@,
            frac: match self.frac {
                Some(f) => Some(f@),
                None => None,
            },
        }
    }
}

/// A lexeme of an expression.
#[derive(Debug)]
pub enum Token {
    Op(char),
    Num(Number),
    Brace { lhs: bool },
}

/// The mathematical content of a [`Token`].
pub enum TokenV {
    Op(char),
    Num(NumberV),
    Brace { lhs: bool },
}

impl View for Token {
    type V = TokenV;

    open spec fn view(&self) -> TokenV {
        match self {
            Token::Op(c) => TokenV::Op(*c),
            Token::Num(n) => TokenV::Num(n@),
            Token::Brace { lhs } => TokenV::Brace { lhs: *lhs },
        }
    }
}

pub open spec fn toks_view(s: Seq<Token>) -> Seq<TokenV> {
    s.map_values(|t: Token| t@)
}

/// An expression tree: a leaf holds a number, an inner node an operator and
/// its two operands.
#[derive(Debug)]
pub enum TreeNode {
    Ending(Option<Number>),
    WithChilds { data: Option<char>, children: Option<Box<(TreeNode, TreeNode)>> },
}

/// The mathematical content of a [`TreeNode`].
pub enum TreeV {
    Ending(Option<NumberV>),
    WithChilds { data: Option<char>, children: Option<Box<(TreeV, TreeV)>> },
}

pub open spec fn opt_number_view(n: Option<Number>) -> Option<NumberV> {
    match n {
        Some(x) => Some(x@),
        None => None,
    }
}

pub open spec fn tree_view(t: TreeNode) -> TreeV
    decreases t,
{
    match t {
        TreeNode::Ending(n) => TreeV::Ending(opt_number_view(n)),
        TreeNode::WithChilds { data, children } => TreeV::WithChilds {
            data,
            children: match children {
                Some(b) => Some(Box::new((tree_view(b.0), tree_view(b.1)))),
                None => None,
            },
        },
    }
}

impl View for TreeNode {
    type V = TreeV;

    open spec fn view(&self) -> TreeV {
        tree_view(*self)
    }
}

/// A copy of a sequence of digits.
pub fn copy_digits(d: &Vec<u8>) -> (r: Vec<u8>)
    ensures
        r@ == d@,
{
    let mut r: Vec<u8> = Vec::new();
    let mut i: usize = 0;
    while i < d.len()
        invariant
            i <= d.len(),
            r@ == d@.take(i as int),
        decreases d.len() - i,
    {
        r.push(d[i]);
        i += 1;
        assert(r@ == d@.take(i as int));
    }
    assert(d@.take(d.len() as int) == d@);
    r
}

impl Number {
    /// A copy of this number.
    pub fn copy(&self) -> (r: Number)
        ensures
            r@ == self@,
    {
        let frac = match &self.frac {
            Some(f) => Some(copy_digits(f)),
            None => None,
        };
        Number { negative: self.negative, whole: copy_digits(&self.whole), frac }
    }
}

impl Token {
    /// A copy of this token.
    pub fn copy(&self) -> (r: Token)
        ensures
            r@ == self@,
    {
        match self {
            Token::Op(c) => Token::Op(*c),
            Token::Num(n) => Token::Num(n.copy()),
            Token::Brace { lhs } => Token::Brace { lhs: *lhs },
        }
    }
}

impl TreeNode {
    /// A leaf that holds `num`.
    pub fn from_number(num: Number) -> (r: TreeNode)
        ensures
            r@ == TreeV::Ending(Some(num@)),
    {
        TreeNode::Ending(Some(num))
    }

    /// An inner node for the operator `op`, with no operands yet.
    pub fn from_op(op: char) -> (r: TreeNode)
        ensures
            r@ == (TreeV::WithChilds { data: Some(op), children: None }),
    {
        TreeNode::WithChilds { data: Some(op), children: None }
    }

    /// Gives an inner node its two operands; a leaf stays as it is.
    pub fn push_chidren(&mut self, ch: Box<(TreeNode, TreeNode)>)
        ensures
            match old(self)@ {
                TreeV::WithChilds { data, children: _ } => final(self)@ == (TreeV::WithChilds {
                    data,
                    children: Some(Box::new((ch.0@, ch.1@))),
                }),
                TreeV::Ending(n) => final(self)@ == TreeV::Ending(n),
            },
    {
        match self {
            TreeNode::WithChilds { data: _, children } => {
                *children = Some(ch);
            },
            TreeNode::Ending(_) => {},
        }
    }

    /// A copy of this tree.
    pub fn copy(&self) -> (r: TreeNode)
        ensures
            r@ == self@,
        decreases self,
    {
        match self {
            TreeNode::Ending(n) => TreeNode::Ending(
                match n {
                    Some(x) => Some(x.copy()),
                    None => None,
                },
            ),
            TreeNode::WithChilds { data, children } => {
                let c = match children {
                    Some(b) => Some(Box::new((b.0.copy(), b.1.copy()))),
                    None => None,
                };
                TreeNode::WithChilds { data: *data, children: c }
            },
        }
    }
}

} // verus!
