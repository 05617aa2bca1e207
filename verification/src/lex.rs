//! Splitting text into tokens.
//!
//! Characters outside equation notation are filtered out first. Lexemes are
//! separated by spaces. Inside a lexeme, operators and parentheses stand for
//! themselves, digits with at most one dot form a number, and a `-` directly
//! followed by a digit at a place where no number is being read is the sign
//! of the number that follows.
use std::borrow::Cow;
use vstd::prelude::*;
use crate::{AppError, Number, NumberV, Token, TokenV, toks_view};

verus! {

pub open spec fn is_op_char(c: char) -> bool {
    c == '+' || c == '-' || c == '*' || c == '/' || c == '^'
}

pub open spec fn is_brace_char(c: char) -> bool {
    c == '(' || c == ')'
}

pub open spec fn is_digit_char(c: char) -> bool {
    '0' <= c && c <= '9'
}

pub open spec fn digit_value(c: char) -> u8 {
    (c as int - '0' as int) as u8
}

/// The number being read: the digits before and after the dot, whether a
/// number is being read at all, and its sign.
pub struct NumStateV {
    pub whole: Seq<u8>,
    pub frac: Option<Seq<u8>>,
    pub active: bool,
    pub negative: bool,
}

/// The tokens found so far and the number being read.
pub struct LexState {
    pub toks: Seq<TokenV>,
    pub num: NumStateV,
}

pub open spec fn fresh_num() -> NumStateV {
    NumStateV { whole: Seq::empty(), frac: None, active: false, negative: false }
}

pub open spec fn number_of(ns: NumStateV) -> NumberV {
    NumberV { negative: ns.negative, whole: ns.whole, frac: ns.frac }
}

/// The tokens with the number being read, if any, appended.
pub open spec fn flushed(st: LexState) -> Seq<TokenV> {
    if st.num.active {
        st.toks.push(TokenV::Num(number_of(st.num)))
    } else {
        st.toks
    }
}

pub open spec fn lex_err(msg: &'static str) -> AppError {
    AppError::LexError(Cow::Borrowed(msg))
}

/// One character `c`, followed by `next` (if any), read in state `st`.
pub open spec fn lex_step(st: LexState, c: char, next: Option<char>) -> Result<LexState, AppError> {
    if c == ' ' {
        Ok(LexState { toks: flushed(st), num: fresh_num() })
    } else if is_op_char(c) {
        if st.num.active {
            Ok(LexState { toks: flushed(st).push(TokenV::Op(c)), num: fresh_num() })
        } else if c == '-' && peeks_digit(next) {
            Ok(LexState { toks: st.toks, num: NumStateV { active: true, negative: true, ..st.num } })
        } else {
            Ok(LexState { toks: st.toks.push(TokenV::Op(c)), num: st.num })
        }
    } else if is_brace_char(c) {
        Ok(LexState { toks: flushed(st).push(TokenV::Brace { lhs: c == '(' }), num: fresh_num() })
    } else if is_digit_char(c) {
        let d = digit_value(c);
        match st.num.frac {
            Some(f) => Ok(LexState {
                toks: st.toks,
                num: NumStateV { active: true, frac: Some(f.push(d)), ..st.num },
            }),
            None => Ok(LexState {
                toks: st.toks,
                num: NumStateV { active: true, whole: st.num.whole.push(d), ..st.num },
            }),
        }
    } else if c == '.' {
        if !st.num.active {
            Err(lex_err("Found dot outside of number"))
        } else if st.num.frac is Some {
            Err(lex_err("Found number with 2 dots"))
        } else {
            Ok(LexState { toks: st.toks, num: NumStateV { frac: Some(Seq::empty()), ..st.num } })
        }
    } else {
        Ok(st)
    }
}

pub open spec fn next_char(s: Seq<char>, i: int) -> Option<char> {
    if 0 <= i < s.len() {
        Some(s[i])
    } else {
        None
    }
}

/// The state after reading the first `n` characters of `s`.
pub open spec fn lex_prefix(s: Seq<char>, n: nat) -> Result<LexState, AppError>
    decreases n,
{
    if n == 0 {
        Ok(LexState { toks: Seq::empty(), num: fresh_num() })
    } else {
        match lex_prefix(s, (n - 1) as nat) {
            Ok(st) => lex_step(st, s[n - 1], next_char(s, n as int)),
            Err(e) => Err(e),
        }
    }
}

/// The tokens of the characters `s`, all of equation notation, or the first
/// error found in them.
pub open spec fn lex_chars(s: Seq<char>) -> Result<Seq<TokenV>, AppError> {
    match lex_prefix(s, s.len()) {
        Ok(st) => Ok(flushed(st)),
        Err(e) => Err(e),
    }
}

/// The characters of equation notation: digits, the dot, operators,
/// parentheses and the space.
pub open spec fn is_notation_char(c: char) -> bool {
    is_digit_char(c) || c == '.' || is_op_char(c) || is_brace_char(c) || c == ' '
}

/// `s` with every character outside equation notation filtered out.
pub open spec fn keep_notation(s: Seq<char>) -> Seq<char>
    decreases s.len(),
{
    if s.len() == 0 {
        s
    } else {
        let k = keep_notation(s.drop_last());
        if is_notation_char(s.last()) {
            k.push(s.last())
        } else {
            k
        }
    }
}

/// The tokens of the text `s`, or the first error found in it; characters
/// outside equation notation are filtered out first.
pub open spec fn spec_lexer(s: Seq<char>) -> Result<Seq<TokenV>, AppError> {
    lex_chars(keep_notation(s))
}

/// Every operator is one of `+ - * / ^`, and every number has at least one
/// digit before the dot and only digits 0..=9.
pub open spec fn tokens_well_formed(t: Seq<TokenV>) -> bool {
    forall|i: int|
        0 <= i < t.len() ==> match #[trigger] t[i] {
            TokenV::Op(c) => is_op_char(c),
            TokenV::Num(n) => number_well_formed(n),
            TokenV::Brace { lhs: _ } => true,
        }
}

pub open spec fn digits_well_formed(d: Seq<u8>) -> bool {
    forall|i: int| 0 <= i < d.len() ==> #[trigger] d[i] < 10
}

pub open spec fn number_well_formed(n: NumberV) -> bool {
    &&& n.whole.len() > 0
    &&& digits_well_formed(n.whole)
    &&& (n.frac matches Some(f) ==> digits_well_formed(f))
}

/// Once reading fails, it stays failed with the same error.
proof fn lemma_err_persists(s: Seq<char>, k: nat, n: nat)
    requires
        k <= n,
        lex_prefix(s, k) is Err,
    ensures
        lex_prefix(s, n) == lex_prefix(s, k),
    decreases n - k,
{
    if k < n {
        lemma_err_persists(s, k, (n - 1) as nat);
    }
}

/// What holds after reading the first `n` characters of `s`: the tokens are
/// well formed, the digits read are digits, and a number that has a sign but
/// no digit yet is followed by a digit.
pub open spec fn lex_state_ok(s: Seq<char>, n: nat, st: LexState) -> bool {
    &&& tokens_well_formed(st.toks)
    &&& digits_well_formed(st.num.whole)
    &&& (st.num.frac matches Some(f) ==> digits_well_formed(f))
    &&& (st.num.active && st.num.whole.len() == 0 ==> n < s.len() && is_digit_char(s[n as int])
        && st.num.frac is None)
    &&& (!st.num.active ==> st.num == fresh_num())
}

proof fn lemma_push_tok_wf(t: Seq<TokenV>, x: TokenV)
    requires
        tokens_well_formed(t),
        match x {
            TokenV::Op(c) => is_op_char(c),
            TokenV::Num(n) => number_well_formed(n),
            TokenV::Brace { lhs: _ } => true,
        },
    ensures
        tokens_well_formed(t.push(x)),
{
    assert forall|i: int| 0 <= i < t.push(x).len() implies match #[trigger] t.push(x)[i] {
        TokenV::Op(c) => is_op_char(c),
        TokenV::Num(n) => number_well_formed(n),
        TokenV::Brace { lhs: _ } => true,
    } by {
        if i < t.len() {
            assert(t.push(x)[i] == t[i]);
        }
    }
}

proof fn lemma_push_digit(d: Seq<u8>, c: char)
    requires
        digits_well_formed(d),
        is_digit_char(c),
    ensures
        digits_well_formed(d.push(digit_value(c))),
{
    assert forall|i: int| 0 <= i < d.push(digit_value(c)).len() implies #[trigger] d.push(digit_value(c))[i] < 10 by {
        if i < d.len() {
            assert(d.push(digit_value(c))[i] == d[i]);
        }
    }
}

proof fn lemma_flushed_wf(s: Seq<char>, n: nat, st: LexState)
    requires
        lex_state_ok(s, n, st),
        st.num.active && st.num.whole.len() == 0 ==> false,
    ensures
        tokens_well_formed(flushed(st)),
{
    if st.num.active {
        lemma_push_tok_wf(st.toks, TokenV::Num(number_of(st.num)));
    }
}

proof fn lemma_lex_prefix_ok(s: Seq<char>, n: nat)
    requires
        n <= s.len(),
    ensures
        lex_prefix(s, n) matches Ok(st) ==> lex_state_ok(s, n, st),
    decreases n,
{
    if n > 0 {
        let k = (n - 1) as nat;
        lemma_lex_prefix_ok(s, k);
        if let Ok(st) = lex_prefix(s, k) {
            let c = s[k as int];
            let nx = next_char(s, n as int);
            if let Ok(st2) = lex_step(st, c, nx) {
                let waiting = st.num.active && st.num.whole.len() == 0;
                if c == ' ' || is_brace_char(c) {
                    lemma_flushed_wf(s, k, st);
                    if is_brace_char(c) {
                        lemma_push_tok_wf(flushed(st), TokenV::Brace { lhs: c == '(' });
                    }
                } else if is_op_char(c) {
                    if st.num.active {
                        lemma_flushed_wf(s, k, st);
                        lemma_push_tok_wf(flushed(st), TokenV::Op(c));
                    } else if c == '-' && peeks_digit(nx) {
                    } else {
                        lemma_push_tok_wf(st.toks, TokenV::Op(c));
                    }
                } else if is_digit_char(c) {
                    match st.num.frac {
                        Some(f) => {
                            lemma_push_digit(f, c);
                        },
                        None => {
                            lemma_push_digit(st.num.whole, c);
                        },
                    }
                } else {
                }
            }
        }
    }
}

/// Every token the lexer gives is well formed: each operator is one of
/// `+ - * / ^`, and each number has digits 0..=9 and at least one digit
/// before its dot.
pub proof fn lemma_lexer_well_formed(s: Seq<char>)
    ensures
        spec_lexer(s) matches Ok(t) ==> tokens_well_formed(t),
{
    lemma_lex_chars_well_formed(keep_notation(s));
}

proof fn lemma_lex_chars_well_formed(s: Seq<char>)
    ensures
        lex_chars(s) matches Ok(t) ==> tokens_well_formed(t),
{
    lemma_lex_prefix_ok(s, s.len());
    if let Ok(st) = lex_prefix(s, s.len()) {
        lemma_flushed_wf(s, s.len(), st);
    }
}

pub open spec fn with_prefix(pre: Seq<TokenV>, st: LexState) -> LexState {
    LexState { toks: pre + st.toks, num: st.num }
}

pub open spec fn peeks_digit(next: Option<char>) -> bool {
    next matches Some(d) && is_digit_char(d)
}

proof fn lemma_step_prefix(pre: Seq<TokenV>, st: LexState, c: char, nx: Option<char>)
    ensures
        lex_step(with_prefix(pre, st), c, nx) == match lex_step(st, c, nx) {
            Ok(st2) => Ok(with_prefix(pre, st2)),
            Err(e) => Err(e),
        },
{
    let ps = with_prefix(pre, st);
    assert(flushed(ps) =~= pre + flushed(st));
    assert forall|x: TokenV| #[trigger] (pre + st.toks).push(x) =~= pre + st.toks.push(x) by {}
    assert forall|x: TokenV| #[trigger] (pre + flushed(st)).push(x) =~= pre + flushed(st).push(x) by {}
}

proof fn lemma_step_next(st: LexState, c: char, n1: Option<char>, n2: Option<char>)
    requires
        peeks_digit(n1) == peeks_digit(n2),
    ensures
        lex_step(st, c, n1) == lex_step(st, c, n2),
{
}

proof fn lemma_prefix_of_concat(a: Seq<char>, w: Seq<char>, k: nat)
    requires
        k <= a.len(),
        a.len() < w.len(),
        w.subrange(0, a.len() as int) == a,
        !is_digit_char(w[a.len() as int]),
    ensures
        lex_prefix(w, k) == lex_prefix(a, k),
    decreases k,
{
    if k > 0 {
        lemma_prefix_of_concat(a, w, (k - 1) as nat);
        assert(w[k - 1] == a[k - 1]) by {
            assert(w.subrange(0, a.len() as int)[k - 1] == w[k - 1]);
        }
        if k < a.len() {
            assert(w[k as int] == a[k as int]) by {
                assert(w.subrange(0, a.len() as int)[k as int] == w[k as int]);
            }
        }
        if let Ok(st) = lex_prefix(a, (k - 1) as nat) {
            lemma_step_next(st, a[k - 1], next_char(a, k as int), next_char(w, k as int));
        }
    }
}

proof fn lemma_suffix_of_concat(a: Seq<char>, b: Seq<char>, j: nat)
    requires
        j <= b.len(),
        lex_chars(a) is Ok,
    ensures
        ({
            let w = a + seq![' '] + b;
            let ta = lex_chars(a)->Ok_0;
            lex_prefix(w, a.len() + 1 + j) == match lex_prefix(b, j) {
                Ok(st) => Ok(with_prefix(ta, st)),
                Err(e) => Err(e),
            }
        }),
    decreases j,
{
    let w = a + seq![' '] + b;
    let ta = lex_chars(a)->Ok_0;
    if j == 0 {
        assert(w.subrange(0, a.len() as int) =~= a);
        assert(w[a.len() as int] == ' ');
        lemma_prefix_of_concat(a, w, a.len());
        assert(with_prefix(ta, LexState { toks: Seq::empty(), num: fresh_num() }) =~= LexState {
            toks: ta,
            num: fresh_num(),
        });
    } else {
        lemma_suffix_of_concat(a, b, (j - 1) as nat);
        let i = a.len() + 1 + j;
        assert(w[i - 1] == b[j - 1]);
        assert(next_char(w, i as int) == next_char(b, j as int));
        if let Ok(st) = lex_prefix(b, (j - 1) as nat) {
            lemma_step_prefix(ta, st, b[j - 1], next_char(b, j as int));
        }
    }
}

proof fn lemma_lex_chars_concat(a: Seq<char>, b: Seq<char>)
    ensures
        lex_chars(a + seq![' '] + b) == match lex_chars(a) {
            Err(e) => Err(e),
            Ok(ta) => match lex_chars(b) {
                Ok(tb) => Ok(ta + tb),
                Err(e) => Err(e),
            },
        },
{
    let w = a + seq![' '] + b;
    assert(w.len() == a.len() + 1 + b.len());
    if lex_chars(a) is Ok {
        lemma_suffix_of_concat(a, b, b.len());
        if let Ok(st) = lex_prefix(b, b.len()) {
            assert(flushed(with_prefix(lex_chars(a)->Ok_0, st)) =~= lex_chars(a)->Ok_0 + flushed(st));
        }
    } else {
        assert(w.subrange(0, a.len() as int) =~= a);
        assert(w[a.len() as int] == ' ');
        lemma_prefix_of_concat(a, w, a.len());
        lemma_err_persists(w, a.len(), w.len());
    }
}

proof fn lemma_keep_concat(a: Seq<char>, b: Seq<char>)
    ensures
        keep_notation(a + b) == keep_notation(a) + keep_notation(b),
    decreases b.len(),
{
    if b.len() == 0 {
        assert(a + b =~= a);
        assert(keep_notation(a) + keep_notation(b) =~= keep_notation(a));
    } else {
        lemma_keep_concat(a, b.drop_last());
        assert((a + b).drop_last() =~= a + b.drop_last());
        assert((a + b).last() == b.last());
        if is_notation_char(b.last()) {
            assert(keep_notation(a) + keep_notation(b.drop_last()).push(b.last()) =~= (keep_notation(a)
                + keep_notation(b.drop_last())).push(b.last()));
        }
    }
}

proof fn lemma_keep_idempotent(s: Seq<char>)
    ensures
        keep_notation(keep_notation(s)) == keep_notation(s),
    decreases s.len(),
{
    if s.len() > 0 {
        lemma_keep_idempotent(s.drop_last());
        let k = keep_notation(s.drop_last());
        if is_notation_char(s.last()) {
            assert(k.push(s.last()).drop_last() =~= k);
        }
    }
}

/// Characters outside equation notation are filtered out: the text reads as
/// the text without them.
pub proof fn law_filters_other_chars(s: Seq<char>)
    ensures
        spec_lexer(s) == spec_lexer(keep_notation(s)),
{
    lemma_keep_idempotent(s);
}

/// Lexemes are separated by spaces: the tokens of two texts joined by a space
/// are the tokens of the first followed by those of the second, and the
/// first error of the joined text is the first error of the first text, or
/// else that of the second.
pub proof fn law_space_separates(a: Seq<char>, b: Seq<char>)
    ensures
        spec_lexer(a + seq![' '] + b) == match spec_lexer(a) {
            Err(e) => Err(e),
            Ok(ta) => match spec_lexer(b) {
                Ok(tb) => Ok(ta + tb),
                Err(e) => Err(e),
            },
        },
{
    lemma_keep_concat(a + seq![' '], b);
    lemma_keep_concat(a, seq![' ']);
    let sp = seq![' '];
    assert(keep_notation(sp) =~= sp) by {
        assert(sp.drop_last() =~= Seq::<char>::empty());
        assert(keep_notation(sp.drop_last()) =~= Seq::<char>::empty());
        assert(sp.last() == ' ');
        assert(is_notation_char(' '));
    }
    lemma_lex_chars_concat(keep_notation(a), keep_notation(b));
}

/// How many tokens of `t` are the operator `c`.
pub open spec fn count_op(t: Seq<TokenV>, c: char) -> nat
    decreases t.len(),
{
    if t.len() == 0 {
        0
    } else {
        count_op(t.drop_last(), c) + if t.last() == TokenV::Op(c) {
            1nat
        } else {
            0nat
        }
    }
}

/// How many characters of `s` are `c`.
pub open spec fn count_char(s: Seq<char>, c: char) -> nat
    decreases s.len(),
{
    if s.len() == 0 {
        0
    } else {
        count_char(s.drop_last(), c) + if s.last() == c {
            1nat
        } else {
            0nat
        }
    }
}

proof fn lemma_count_op_push(t: Seq<TokenV>, x: TokenV, c: char)
    ensures
        count_op(t.push(x), c) == count_op(t, c) + if x == TokenV::Op(c) {
            1nat
        } else {
            0nat
        },
{
    assert(t.push(x).drop_last() =~= t);
}

proof fn lemma_count_prefix(s: Seq<char>, n: nat, c: char)
    requires
        n <= s.len(),
        c != '-',
        is_op_char(c),
    ensures
        lex_prefix(s, n) matches Ok(st) ==> count_op(st.toks, c) == count_char(s.subrange(0, n as int), c),
    decreases n,
{
    if n == 0 {
        assert(s.subrange(0, 0) =~= Seq::<char>::empty());
    } else {
        let k = (n - 1) as nat;
        lemma_count_prefix(s, k, c);
        assert(s.subrange(0, n as int).drop_last() =~= s.subrange(0, k as int));
        assert(s.subrange(0, n as int).last() == s[k as int]);
        if let Ok(st) = lex_prefix(s, k) {
            let ch = s[k as int];
            let nm = TokenV::Num(number_of(st.num));
            lemma_count_op_push(st.toks, nm, c);
            lemma_count_op_push(flushed(st), TokenV::Op(ch), c);
            lemma_count_op_push(st.toks, TokenV::Op(ch), c);
            lemma_count_op_push(flushed(st), TokenV::Brace { lhs: ch == '(' }, c);
            assert(count_op(flushed(st), c) == count_op(st.toks, c));
        }
    }
}

proof fn lemma_count_keep(s: Seq<char>, c: char)
    requires
        is_notation_char(c),
    ensures
        count_char(keep_notation(s), c) == count_char(s, c),
    decreases s.len(),
{
    if s.len() > 0 {
        lemma_count_keep(s.drop_last(), c);
        let k = keep_notation(s.drop_last());
        if is_notation_char(s.last()) {
            assert(k.push(s.last()).drop_last() =~= k);
        }
    }
}

/// Only `-` can be the sign of a number: every `+`, `*`, `/` and `^` of the
/// text becomes an operator token.
pub proof fn law_only_minus_signs(s: Seq<char>, c: char)
    requires
        c == '+' || c == '*' || c == '/' || c == '^',
    ensures
        spec_lexer(s) matches Ok(t) ==> count_op(t, c) == count_char(s, c),
{
    let f = keep_notation(s);
    lemma_count_prefix(f, f.len(), c);
    lemma_count_keep(s, c);
    assert(f.subrange(0, f.len() as int) =~= f);
    if let Ok(st) = lex_prefix(f, f.len()) {
        lemma_count_op_push(st.toks, TokenV::Num(number_of(st.num)), c);
    }
}

/// The values of the digit characters `s`, in order.
pub open spec fn digit_values(s: Seq<char>) -> Seq<u8> {
    s.map_values(|c: char| (c as int - 48) as u8)
}

pub open spec fn decimal_digits(s: Seq<char>) -> bool {
    forall|i: int| 0 <= i < s.len() ==> '0' <= #[trigger] s[i] && s[i] <= '9'
}

/// A number written as an optional `-`, the digits `d`, and, when `dot`, a
/// dot followed by the digits `e`.
pub open spec fn number_text(sign: bool, d: Seq<char>, dot: bool, e: Seq<char>) -> Seq<char> {
    (if sign {
        seq!['-']
    } else {
        Seq::empty()
    }) + d + (if dot {
        seq!['.'] + e
    } else {
        Seq::empty()
    })
}

proof fn lemma_keep_all(s: Seq<char>)
    requires
        forall|i: int| 0 <= i < s.len() ==> is_notation_char(#[trigger] s[i]),
    ensures
        keep_notation(s) == s,
    decreases s.len(),
{
    if s.len() > 0 {
        lemma_keep_all(s.drop_last());
        assert(is_notation_char(s[s.len() - 1]));
        assert(s.drop_last().push(s.last()) =~= s);
    }
}

proof fn lemma_whole_run(s: Seq<char>, a: nat, n: nat, st: LexState)
    requires
        a <= n <= s.len(),
        forall|i: int| a <= i < n ==> is_digit_char(#[trigger] s[i]),
        lex_prefix(s, a) == Ok::<LexState, AppError>(st),
        st.num.frac is None,
    ensures
        lex_prefix(s, n) == Ok::<LexState, AppError>(
            LexState {
                toks: st.toks,
                num: NumStateV {
                    whole: st.num.whole + digit_values(s.subrange(a as int, n as int)),
                    frac: None,
                    active: st.num.active || n > a,
                    negative: st.num.negative,
                },
            },
        ),
    decreases n - a,
{
    if n == a {
        assert(st.num.whole + digit_values(s.subrange(a as int, n as int)) =~= st.num.whole);
    } else {
        lemma_whole_run(s, a, (n - 1) as nat, st);
        let c = s[n - 1];
        assert(is_digit_char(c));
        assert(digit_values(s.subrange(a as int, n as int)) =~= digit_values(
            s.subrange(a as int, n - 1),
        ).push(digit_value(c)));
        assert(st.num.whole + digit_values(s.subrange(a as int, n as int)) =~= (st.num.whole
            + digit_values(s.subrange(a as int, n - 1))).push(digit_value(c)));
    }
}

proof fn lemma_frac_run(s: Seq<char>, a: nat, n: nat, st: LexState, f: Seq<u8>)
    requires
        a <= n <= s.len(),
        forall|i: int| a <= i < n ==> is_digit_char(#[trigger] s[i]),
        lex_prefix(s, a) == Ok::<LexState, AppError>(st),
        st.num.frac == Some(f),
        st.num.active,
    ensures
        lex_prefix(s, n) == Ok::<LexState, AppError>(
            LexState {
                toks: st.toks,
                num: NumStateV { frac: Some(f + digit_values(s.subrange(a as int, n as int))), ..st.num },
            },
        ),
    decreases n - a,
{
    if n == a {
        assert(f + digit_values(s.subrange(a as int, n as int)) =~= f);
        assert(NumStateV { frac: Some(f), ..st.num } == st.num);
    } else {
        lemma_frac_run(s, a, (n - 1) as nat, st, f);
        let c = s[n - 1];
        assert(is_digit_char(c));
        assert(digit_values(s.subrange(a as int, n as int)) =~= digit_values(
            s.subrange(a as int, n - 1),
        ).push(digit_value(c)));
        assert(f + digit_values(s.subrange(a as int, n as int)) =~= (f + digit_values(
            s.subrange(a as int, n - 1),
        )).push(digit_value(c)));
    }
}

/// A number lexeme becomes exactly one number token that keeps the digits
/// as written, every one of them in order, and is negative exactly when the
/// lexeme starts with `-`.
pub proof fn law_number_lexeme(sign: bool, d: Seq<char>, dot: bool, e: Seq<char>)
    requires
        d.len() > 0,
        decimal_digits(d),
        decimal_digits(e),
        !dot ==> e.len() == 0,
    ensures
        spec_lexer(number_text(sign, d, dot, e)) == Ok::<Seq<TokenV>, AppError>(
            seq![
                TokenV::Num(
                    NumberV {
                        negative: sign,
                        whole: digit_values(d),
                        frac: if dot {
                            Some(digit_values(e))
                        } else {
                            None
                        },
                    },
                ),
            ],
        ),
{
    let s = number_text(sign, d, dot, e);
    let o: nat = if sign { 1 } else { 0 };
    let dl = d.len();
    let q: nat = o + dl;
    assert(s.len() == q + if dot { e.len() + 1 } else { 0 });
    assert forall|i: int| o <= i < q implies is_digit_char(#[trigger] s[i]) && s[i] == d[i - o] by {
        assert('0' <= d[i - o] && d[i - o] <= '9');
    }
    if dot {
        assert(s[q as int] == '.');
        assert forall|i: int| q + 1 <= i < s.len() implies is_digit_char(#[trigger] s[i]) && s[i] == e[i - q - 1] by {
            assert('0' <= e[i - q - 1] && e[i - q - 1] <= '9');
        }
    }
    assert forall|i: int| 0 <= i < s.len() implies is_notation_char(#[trigger] s[i]) by {
        if sign && i == 0 {
            assert(s[i] == '-');
        } else if i < q {
            assert(is_digit_char(s[i]));
        } else if i == q {
            assert(s[i] == '.');
        } else {
            assert(is_digit_char(s[i]));
        }
    }
    lemma_keep_all(s);
    let init = LexState { toks: Seq::empty(), num: fresh_num() };
    let st0 = if sign {
        assert(s[0] == '-');
        assert(s[1] == d[0]);
        assert(is_digit_char(s[1]));
        assert(lex_prefix(s, 0) == Ok::<LexState, AppError>(init));
        let st1 = LexState {
            toks: Seq::empty(),
            num: NumStateV { whole: Seq::empty(), frac: None, active: true, negative: true },
        };
        assert(lex_prefix(s, 1) == Ok::<LexState, AppError>(st1));
        st1
    } else {
        init
    };
    lemma_whole_run(s, o, q, st0);
    assert(s.subrange(o as int, q as int) =~= d);
    let stw = LexState {
        toks: Seq::empty(),
        num: NumStateV { whole: digit_values(d), frac: None, active: true, negative: sign },
    };
    assert(st0.num.whole + digit_values(d) =~= digit_values(d));
    assert(lex_prefix(s, q) == Ok::<LexState, AppError>(stw));
    if dot {
        let std = LexState {
            toks: Seq::empty(),
            num: NumStateV { whole: digit_values(d), frac: Some(Seq::empty()), active: true, negative: sign },
        };
        assert(lex_prefix(s, q + 1) == Ok::<LexState, AppError>(std));
        lemma_frac_run(s, q + 1, s.len(), std, Seq::empty());
        assert(s.subrange(q + 1 as int, s.len() as int) =~= e);
        assert(Seq::<u8>::empty() + digit_values(e) =~= digit_values(e));
    } else {
        assert(s.len() == q);
    }
}

pub struct NumState {
    pub whole: Vec<u8>,
    pub frac: Option<Vec<u8>>,
    pub active: bool,
    pub negative: bool,
}

impl View for NumState {
    type V = NumStateV;

    open spec fn view(&self) -> NumStateV {
        NumStateV {
            whole: self.whole@,
            frac: match self.frac {
                Some(f) => Some(f@),
                None => None,
            },
            active: self.active,
            negative: self.negative,
        }
    }
}

fn fresh_state() -> (r: NumState)
    ensures
        r@ == fresh_num(),
{
    NumState { whole: Vec::new(), frac: None, active: false, negative: false }
}

/// Appends the number being read, if any, to `toks`, and starts afresh.
fn flush(toks: &mut Vec<Token>, ns: NumState) -> (r: NumState)
    ensures
        toks_view(final(toks)@) == flushed(LexState { toks: toks_view(old(toks)@), num: ns@ }),
        r@ == fresh_num(),
{
    if ns.active {
        let ghost old_toks = toks@;
        toks.push(Token::Num(Number { negative: ns.negative, whole: ns.whole, frac: ns.frac }));
        assert(toks_view(toks@) =~= toks_view(old_toks).push(TokenV::Num(number_of(ns@))));
    }
    fresh_state()
}

fn push_tok(toks: &mut Vec<Token>, t: Token)
    ensures
        toks_view(final(toks)@) == toks_view(old(toks)@).push(t@),
{
    toks.push(t);
    assert(toks_view(toks@) =~= toks_view(old(toks)@).push(t@));
}

fn is_op(c: char) -> (r: bool)
    ensures
        r == is_op_char(c),
{
    c == '+' || c == '-' || c == '*' || c == '/' || c == '^'
}

fn is_digit(c: char) -> (r: bool)
    ensures
        r == is_digit_char(c),
{
    '0' <= c && c <= '9'
}

/// The characters of `s`, in order.
pub fn chars_of(s: &str) -> (v: Vec<char>)
    ensures
        v@ == s@,
{
    let mut v: Vec<char> = Vec::new();
    for c in it: s.chars()
        invariant
            v@ == it.seq().take(it.index() as int),
    {
        v.push(c);
    }
    v
}

/// `v` with every character outside equation notation filtered out.
fn keep_notation_chars(v: &Vec<char>) -> (r: Vec<char>)
    ensures
        r@ == keep_notation(v@),
{
    let mut r: Vec<char> = Vec::new();
    let mut i: usize = 0;
    assert(v@.take(0) =~= Seq::<char>::empty());
    while i < v.len()
        invariant
            i <= v.len(),
            r@ == keep_notation(v@.take(i as int)),
        decreases v.len() - i,
    {
        let c = v[i];
        assert(v@.take(i + 1).drop_last() =~= v@.take(i as int));
        assert(v@.take(i + 1).last() == c);
        if is_digit(c) || c == '.' || is_op(c) || c == '(' || c == ')' || c == ' ' {
            r.push(c);
        }
        i += 1;
    }
    assert(v@.take(v.len() as int) =~= v@);
    r
}

/// The tokens of `inp`, or the first error found in it.
pub fn lexer(inp: &str) -> (res: Result<Vec<Token>, AppError>)
    ensures
        match res {
            Ok(v) => spec_lexer(inp@) == Ok::<Seq<TokenV>, AppError>(toks_view(v@)),
            Err(e) => spec_lexer(inp@) == Err::<Seq<TokenV>, AppError>(e),
        },
        res matches Ok(v) ==> tokens_well_formed(toks_view(v@)),
{
    proof {
        lemma_lexer_well_formed(inp@);
    }
    let all = chars_of(inp);
    let chars = keep_notation_chars(&all);
    let n = chars.len();
    let mut toks: Vec<Token> = Vec::new();
    let mut ns = fresh_state();
    let mut i: usize = 0;
    assert(toks_view(toks@) =~= Seq::<TokenV>::empty());
    while i < n
        invariant
            i <= n,
            n == chars@.len(),
            chars@ == keep_notation(inp@),
            lex_prefix(chars@, i as nat) == Ok::<LexState, AppError>(
                LexState { toks: toks_view(toks@), num: ns@ },
            ),
        decreases n - i,
    {
        let c = chars[i];
        let ghost st = LexState { toks: toks_view(toks@), num: ns@ };
        let ghost nx = next_char(chars@, i + 1);
        if c == ' ' {
            ns = flush(&mut toks, ns);
        } else if is_op(c) {
            if ns.active {
                ns = flush(&mut toks, ns);
                push_tok(&mut toks, Token::Op(c));
            } else if c == '-' && i + 1 < n && is_digit(chars[i + 1]) {
                ns.active = true;
                ns.negative = true;
            } else {
                push_tok(&mut toks, Token::Op(c));
            }
        } else if c == '(' || c == ')' {
            ns = flush(&mut toks, ns);
            push_tok(&mut toks, Token::Brace { lhs: c == '(' });
        } else if is_digit(c) {
            let d = (c as u32 - '0' as u32) as u8;
            ns.active = true;
            match &mut ns.frac {
                Some(f) => {
                    f.push(d);
                },
                None => {
                    ns.whole.push(d);
                },
            }
        } else if c == '.' {
            if !ns.active {
                proof {
                    lemma_err_persists(chars@, (i + 1) as nat, n as nat);
                }
                return Err(AppError::LexError(Cow::Borrowed("Found dot outside of number")));
            }
            if ns.frac.is_some() {
                proof {
                    lemma_err_persists(chars@, (i + 1) as nat, n as nat);
                }
                return Err(AppError::LexError(Cow::Borrowed("Found number with 2 dots")));
            } else {
                ns.frac = Some(Vec::new());
            }
        }
        assert(lex_step(st, c, nx) == Ok::<LexState, AppError>(
            LexState { toks: toks_view(toks@), num: ns@ },
        ));
        i += 1;
    }
    flush(&mut toks, ns);
    Ok(toks)
}

} // verus!
