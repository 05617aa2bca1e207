//! From text to a postfix program: lexing, parsing and flattening in turn.
use vstd::prelude::*;
use crate::{AppError, NumberV, TokenV, TreeV};
use crate::lex::{lexer, spec_lexer, tokens_well_formed, is_op_char, lemma_lexer_well_formed};
use crate::parse::{
    ExtV, min_index, parse4, plain, promote_groups, spec_form, spec_parse4,
    spec_process_braces, spec_promote, lemma_min_index_range,
};
use crate::eval::{
    Step, StepV, compile, is_known_op, spec_compile, steps_view, run_steps, tree_value,
    law_program_computes_tree,
};

verus! {

/// The postfix program of the text `s`, or the first error met on the way:
/// one of the lexer, else one of the parser, else one of the flattening.
pub open spec fn spec_prepare(s: Seq<char>) -> Result<Seq<StepV>, AppError> {
    match spec_lexer(s) {
        Err(e) => Err(e),
        Ok(t) => match spec_parse4(t) {
            Ok(tree) => spec_compile(tree),
            Err(e) => Err(e),
        },
    }
}

/// A tree that evaluation accepts: numbers at the leaves, and at each inner
/// node one of the operators `* / + - ^` with both operands.
pub open spec fn tree_ok(t: TreeV) -> bool
    decreases t,
{
    match t {
        TreeV::Ending(n) => n is Some,
        TreeV::WithChilds { data, children } => match (data, children) {
            (Some(op), Some(ch)) => is_known_op(op) && tree_ok(ch.0) && tree_ok(ch.1),
            _ => false,
        },
    }
}

/// A token whose operator, if any, is known, or a group whose tree evaluation
/// accepts.
pub open spec fn ext_ok(x: ExtV) -> bool {
    match x {
        ExtV::Tok(TokenV::Op(c)) => is_op_char(c),
        ExtV::Tok(_) => true,
        ExtV::Node(n) => tree_ok(n),
    }
}

pub open spec fn all_ext_ok(s: Seq<ExtV>) -> bool {
    forall|i: int| 0 <= i < s.len() ==> ext_ok(#[trigger] s[i])
}

/// Evaluation accepts every tree of the shape above.
pub proof fn lemma_tree_ok_compiles(t: TreeV)
    requires
        tree_ok(t),
    ensures
        spec_compile(t) is Ok,
    decreases t,
{
    if let TreeV::WithChilds { data: Some(op), children: Some(ch) } = t {
        lemma_tree_ok_compiles(ch.0);
        lemma_tree_ok_compiles(ch.1);
    }
}

/// Forming a tree from tokens with known operators and groups that evaluation
/// accepts gives a tree that evaluation accepts.
pub proof fn lemma_form_ok(e: Seq<ExtV>)
    requires
        all_ext_ok(e),
    ensures
        spec_form(e) matches Ok(t) ==> tree_ok(t),
    decreases e.len(),
{
    if e.len() > 0 {
        let m = min_index(e, e.len());
        lemma_min_index_range(e, e.len());
        assert(ext_ok(e[m as int]));
        let l = e.subrange(0, m as int);
        let r = e.subrange(m + 1 as int, e.len() as int);
        assert(all_ext_ok(l)) by {
            assert forall|i: int| 0 <= i < l.len() implies ext_ok(#[trigger] l[i]) by {
                assert(l[i] == e[i]);
            }
        }
        assert(all_ext_ok(r)) by {
            assert forall|i: int| 0 <= i < r.len() implies ext_ok(#[trigger] r[i]) by {
                assert(r[i] == e[m + 1 + i]);
            }
        }
        lemma_form_ok(l);
        lemma_form_ok(r);
    }
}

proof fn lemma_plain_ok(t: Seq<TokenV>, a: int, b: int)
    requires
        tokens_well_formed(t),
        0 <= a,
        b <= t.len(),
    ensures
        all_ext_ok(plain(t, a, b)),
    decreases b - a,
{
    if b > a {
        lemma_plain_ok(t, a, b - 1);
        let p = plain(t, a, b - 1);
        let x = ExtV::Tok(t[b - 1]);
        assert forall|i: int| 0 <= i < p.push(x).len() implies ext_ok(#[trigger] p.push(x)[i]) by {
            if i < p.len() {
                assert(p.push(x)[i] == p[i]);
            }
        }
    }
}

proof fn lemma_concat_ok(a: Seq<ExtV>, b: Seq<ExtV>)
    requires
        all_ext_ok(a),
        all_ext_ok(b),
    ensures
        all_ext_ok(a + b),
{
    assert forall|i: int| 0 <= i < (a + b).len() implies ext_ok(#[trigger] (a + b)[i]) by {
        if i < a.len() {
            assert((a + b)[i] == a[i]);
        } else {
            assert((a + b)[i] == b[i - a.len()]);
        }
    }
}

/// Parsing tokens whose operators are known gives only trees that evaluation
/// accepts.
pub proof fn lemma_parse4_ok(t: Seq<TokenV>)
    requires
        tokens_well_formed(t),
    ensures
        spec_parse4(t) matches Ok(tree) ==> tree_ok(tree),
    decreases t.len(), 2nat, 0nat,
{
    lemma_promote_ok(t);
    if let Ok(ext) = spec_promote(t) {
        lemma_form_ok(ext);
    }
}

proof fn lemma_promote_ok(t: Seq<TokenV>)
    requires
        tokens_well_formed(t),
    ensures
        spec_promote(t) matches Ok(ext) ==> all_ext_ok(ext),
    decreases t.len(), 1nat, 0nat,
{
    if let Ok(r) = spec_process_braces(t) {
        lemma_groups_ok(t, r, 0, 0);
    }
}

proof fn lemma_groups_ok(t: Seq<TokenV>, r: Seq<(usize, usize)>, k: nat, from: int)
    requires
        tokens_well_formed(t),
        0 <= from,
    ensures
        promote_groups(t, r, k, from) matches Ok(ext) ==> all_ext_ok(ext),
    decreases t.len(), 0nat, r.len() - k,
{
    if k >= r.len() {
        lemma_plain_ok(t, from, t.len() as int);
    } else {
        let l = r[k as int].0 as int;
        let rr = r[k as int].1 as int;
        if 0 <= from <= l && l < rr && rr < t.len() {
            let sub = t.subrange(l + 1, rr);
            assert(tokens_well_formed(sub)) by {
                assert forall|j: int| 0 <= j < sub.len() implies #[trigger] sub[j] == t[l + 1 + j] by {}
            }
            lemma_parse4_ok(sub);
            if let Ok(n) = spec_parse4(sub) {
                lemma_groups_ok(t, r, k + 1, rr + 1);
                if let Ok(rest) = promote_groups(t, r, k + 1, rr + 1) {
                    lemma_plain_ok(t, from, l);
                    let one = seq![ExtV::Node(n)];
                    assert(all_ext_ok(one)) by {
                        assert forall|i: int| 0 <= i < one.len() implies ext_ok(#[trigger] one[i]) by {
                            assert(one[i] == ExtV::Node(n));
                        }
                    }
                    lemma_concat_ok(plain(t, from, l), one);
                    lemma_concat_ok(plain(t, from, l) + one, rest);
                }
            }
        }
    }
}

/// Text that the lexer reads and the parser arranges is always evaluated:
/// the flattening step never reports an error for it.
pub proof fn law_parsed_text_evaluates(s: Seq<char>)
    ensures
        spec_lexer(s) matches Ok(t) ==> (spec_parse4(t) matches Ok(tree) ==> spec_compile(tree) is Ok),
{
    lemma_lexer_well_formed(s);
    if let Ok(t) = spec_lexer(s) {
        lemma_parse4_ok(t);
        if let Ok(tree) = spec_parse4(t) {
            lemma_tree_ok_compiles(tree);
        }
    }
}

/// The program of a text computes the value of the text's tree: whenever a
/// program comes out, the text was lexed and parsed into a tree, and running
/// the program from an empty stack leaves exactly that tree's value, for any
/// arithmetic. A program comes out whenever the text is lexed and parsed.
pub proof fn law_prepare_computes_tree<V>(s: Seq<char>, lit: spec_fn(NumberV) -> V, app: spec_fn(char, V, V) -> V)
    ensures
        spec_prepare(s) matches Ok(p) ==> (spec_lexer(s) matches Ok(t) && spec_parse4(t) matches Ok(tree)
            && run_steps(p, Seq::empty(), lit, app) == Some(seq![tree_value(tree, lit, app)])),
        (spec_lexer(s) matches Ok(t) && spec_parse4(t) is Ok) ==> spec_prepare(s) is Ok,
{
    law_parsed_text_evaluates(s);
    if let Ok(t) = spec_lexer(s) {
        if let Ok(tree) = spec_parse4(t) {
            if spec_compile(tree) is Ok {
                law_program_computes_tree(tree, lit, app);
            }
        }
    }
}

/// The postfix program of `inp` (see [`spec_prepare`]).
pub fn prepare(inp: &str) -> (res: Result<Vec<Step>, AppError>)
    ensures
        match res {
            Ok(p) => spec_prepare(inp@) == Ok::<Seq<StepV>, AppError>(steps_view(p@)),
            Err(e) => spec_prepare(inp@) == Err::<Seq<StepV>, AppError>(e),
        },
{
    let tokens = lexer(inp)?;
    let tree = parse4(tokens.as_slice())?;
    compile(&tree)
}

} // verus!
