//! Flattening an expression tree into a postfix program.
//!
//! The program pushes numbers and applies operators to the two topmost values,
//! the left operand below the right one. Leaves and nodes that cannot be
//! evaluated are reported in the order a left-to-right evaluation meets them.
use std::borrow::Cow;
use vstd::prelude::*;
use crate::{AppError, Number, NumberV, TreeNode, TreeV};

verus! {

/// An instruction of a postfix program.
#[derive(Debug)]
pub enum Step {
    Push(Number),
    Apply(char),
}

/// The mathematical content of a [`Step`].
pub enum StepV {
    Push(NumberV),
    Apply(char),
}

impl View for Step {
    type V = StepV;

    open spec fn view(&self) -> StepV {
        match self {
            Step::Push(n) => StepV::Push(n@),
            Step::Apply(c) => StepV::Apply(*c),
        }
    }
}

pub open spec fn steps_view(s: Seq<Step>) -> Seq<StepV> {
    s.map_values(|x: Step| x@)
}

pub open spec fn eval_err(msg: &'static str) -> AppError {
    AppError::EvalError(Cow::Borrowed(msg))
}

/// The operators an evaluation knows: `* / + - ^`.
pub open spec fn is_known_op(c: char) -> bool {
    c == '*' || c == '/' || c == '+' || c == '-' || c == '^'
}

/// The postfix program of `t`, or the first defect met when evaluating it
/// left to right: a leaf without a number, a node without an operator or
/// without operands, or an unknown operator (reported after both operands).
pub open spec fn spec_compile(t: TreeV) -> Result<Seq<StepV>, AppError>
    decreases t,
{
    match t {
        TreeV::Ending(Some(n)) => Ok(seq![StepV::Push(n)]),
        TreeV::Ending(None) => Err(eval_err("Ill formed ending")),
        TreeV::WithChilds { data: Some(op), children: Some(ch) } => match spec_compile(ch.0) {
            Ok(l) => match spec_compile(ch.1) {
                Ok(r) => if is_known_op(op) {
                    Ok(l + r + seq![StepV::Apply(op)])
                } else {
                    Err(eval_err("Bad op found"))
                },
                Err(e) => Err(e),
            },
            Err(e) => Err(e),
        },
        TreeV::WithChilds { data: _, children: _ } => Err(eval_err("Ill formed tree")),
    }
}

/// The value of `t` for an arithmetic where `lit` gives the value of a number
/// and `app` applies an operator to a left and a right value.
pub open spec fn tree_value<V>(t: TreeV, lit: spec_fn(NumberV) -> V, app: spec_fn(char, V, V) -> V) -> V
    decreases t,
{
    match t {
        TreeV::WithChilds { data: Some(op), children: Some(ch) } => app(
            op,
            tree_value(ch.0, lit, app),
            tree_value(ch.1, lit, app),
        ),
        TreeV::Ending(Some(n)) => lit(n),
        _ => arbitrary(),
    }
}

/// Runs the program `p` on the stack `st` (top at the end): `None` when an
/// operator finds fewer than two values.
pub open spec fn run_steps<V>(
    p: Seq<StepV>,
    st: Seq<V>,
    lit: spec_fn(NumberV) -> V,
    app: spec_fn(char, V, V) -> V,
) -> Option<Seq<V>>
    decreases p.len(),
{
    if p.len() == 0 {
        Some(st)
    } else {
        let st2 = match p[0] {
            StepV::Push(n) => Some(st.push(lit(n))),
            StepV::Apply(op) => if st.len() >= 2 {
                Some(st.subrange(0, st.len() - 2).push(app(op, st[st.len() - 2], st.last())))
            } else {
                None
            },
        };
        match st2 {
            Some(s) => run_steps(p.drop_first(), s, lit, app),
            None => None,
        }
    }
}

proof fn lemma_run_concat<V>(
    a: Seq<StepV>,
    b: Seq<StepV>,
    st: Seq<V>,
    lit: spec_fn(NumberV) -> V,
    app: spec_fn(char, V, V) -> V,
)
    requires
        run_steps(a, st, lit, app) is Some,
    ensures
        run_steps(a + b, st, lit, app) == run_steps(b, run_steps(a, st, lit, app)->0, lit, app),
    decreases a.len(),
{
    if a.len() == 0 {
        assert(a + b =~= b);
    } else {
        assert((a + b).drop_first() =~= a.drop_first() + b);
        let st2 = match a[0] {
            StepV::Push(n) => Some(st.push(lit(n))),
            StepV::Apply(op) => if st.len() >= 2 {
                Some(st.subrange(0, st.len() - 2).push(app(op, st[st.len() - 2], st.last())))
            } else {
                None
            },
        };
        lemma_run_concat(a.drop_first(), b, st2->0, lit, app);
    }
}

/// The program of a tree leaves exactly the tree's value on top of any stack
/// it starts from, whatever the arithmetic.
pub proof fn lemma_compile_runs<V>(
    t: TreeV,
    st: Seq<V>,
    lit: spec_fn(NumberV) -> V,
    app: spec_fn(char, V, V) -> V,
)
    requires
        spec_compile(t) is Ok,
    ensures
        run_steps(spec_compile(t)->Ok_0, st, lit, app) == Some(st.push(tree_value(t, lit, app))),
    decreases t,
{
    match t {
        TreeV::Ending(Some(n)) => {
            let p = spec_compile(t)->Ok_0;
            assert(p.drop_first() =~= Seq::<StepV>::empty());
            assert(p =~= seq![StepV::Push(n)]);
            assert(p[0] == StepV::Push(n));
            assert(run_steps(p.drop_first(), st.push(lit(n)), lit, app) == Some(st.push(lit(n))));
            assert(run_steps(p, st, lit, app) == run_steps(p.drop_first(), st.push(lit(n)), lit, app));
            assert(tree_value(t, lit, app) == lit(n));
        },
        TreeV::WithChilds { data: Some(op), children: Some(ch) } => {
            let l = spec_compile(ch.0)->Ok_0;
            let r = spec_compile(ch.1)->Ok_0;
            let vl = tree_value(ch.0, lit, app);
            let vr = tree_value(ch.1, lit, app);
            lemma_compile_runs(ch.0, st, lit, app);
            lemma_compile_runs(ch.1, st.push(vl), lit, app);
            lemma_run_concat(l, r, st, lit, app);
            lemma_run_concat(l + r, seq![StepV::Apply(op)], st, lit, app);
            let s2 = st.push(vl).push(vr);
            assert(s2.subrange(0, s2.len() - 2) =~= st);
            let one = seq![StepV::Apply(op)];
            assert(one.drop_first() =~= Seq::<StepV>::empty());
            assert(spec_compile(t)->Ok_0 == l + r + one);
            assert(run_steps(l + r, st, lit, app) == Some(s2));
            assert(s2[s2.len() - 2] == vl);
            assert(s2.last() == vr);
            let fin = st.push(app(op, vl, vr));
            assert(run_steps(one.drop_first(), fin, lit, app) == Some(fin));
            assert(one[0] == StepV::Apply(op));
            assert(run_steps(one, s2, lit, app) == Some(fin));
            assert(tree_value(t, lit, app) == app(op, vl, vr));
        },
        _ => {},
    }
}

/// Evaluating the program of a tree from an empty stack ends with exactly one
/// value: that of the tree.
pub proof fn law_program_computes_tree<V>(
    t: TreeV,
    lit: spec_fn(NumberV) -> V,
    app: spec_fn(char, V, V) -> V,
)
    requires
        spec_compile(t) is Ok,
    ensures
        run_steps(spec_compile(t)->Ok_0, Seq::empty(), lit, app) == Some(seq![tree_value(t, lit, app)]),
{
    lemma_compile_runs(t, Seq::<V>::empty(), lit, app);
    assert(Seq::<V>::empty().push(tree_value(t, lit, app)) =~= seq![tree_value(t, lit, app)]);
}

fn append_steps(a: &mut Vec<Step>, b: Vec<Step>)
    ensures
        steps_view(final(a)@) == steps_view(old(a)@) + steps_view(b@),
{
    let mut b = b;
    let ghost bv = b@;
    a.append(&mut b);
    assert(steps_view(a@) =~= steps_view(old(a)@) + steps_view(bv));
}

/// The postfix program of `tree` (see [`spec_compile`]).
pub fn compile(tree: &TreeNode) -> (res: Result<Vec<Step>, AppError>)
    ensures
        match res {
            Ok(p) => spec_compile(tree@) == Ok::<Seq<StepV>, AppError>(steps_view(p@)),
            Err(e) => spec_compile(tree@) == Err::<Seq<StepV>, AppError>(e),
        },
    decreases tree,
{
    match tree {
        TreeNode::Ending(Some(num)) => {
            let mut p: Vec<Step> = Vec::new();
            p.push(Step::Push(num.copy()));
            assert(steps_view(p@) =~= seq![StepV::Push(num@)]);
            Ok(p)
        },
        TreeNode::Ending(None) => Err(AppError::EvalError(Cow::Borrowed("Ill formed ending"))),
        TreeNode::WithChilds { data: Some(op), children: Some(ch) } => {
            let mut p = compile(&ch.0)?;
            let r = compile(&ch.1)?;
            let op = *op;
            if op == '*' || op == '/' || op == '+' || op == '-' || op == '^' {
                append_steps(&mut p, r);
                let ghost before = steps_view(p@);
                p.push(Step::Apply(op));
                assert(steps_view(p@) =~= before + seq![StepV::Apply(op)]);
                Ok(p)
            } else {
                Err(AppError::EvalError(Cow::Borrowed("Bad op found")))
            }
        },
        TreeNode::WithChilds { data: _, children: _ } => Err(
            AppError::EvalError(Cow::Borrowed("Ill formed tree")),
        ),
    }
}

} // verus!
