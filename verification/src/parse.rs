//! Arranging tokens into an expression tree.
//!
//! Outermost parenthesised groups are found first; each group is parsed on its
//! own and stands for a node. The sequence of tokens and nodes is then split
//! at the element that ranks lowest, recursively.
use std::borrow::Cow;
use vstd::prelude::*;
use crate::{AppError, NumberV, Token, TokenV, TreeNode, TreeV, toks_view};

verus! {

/// A token, or a parenthesised group that was already parsed.
pub enum TokenExtended {
    Tok(Token),
    Node(TreeNode),
}

/// The mathematical content of a [`TokenExtended`].
pub enum ExtV {
    Tok(TokenV),
    Node(TreeV),
}

impl View for TokenExtended {
    type V = ExtV;

    open spec fn view(&self) -> ExtV {
        match self {
            TokenExtended::Tok(t) => ExtV::Tok(t@),
            TokenExtended::Node(n) => ExtV::Node(n@),
        }
    }
}

pub open spec fn exts_view(s: Seq<TokenExtended>) -> Seq<ExtV> {
    s.map_values(|e: TokenExtended| e@)
}

pub open spec fn parse_err(msg: &'static str) -> AppError {
    AppError::ParseError(Cow::Borrowed(msg))
}

// ---------------------------------------------------------------------------
// Groups of parentheses
// ---------------------------------------------------------------------------

/// The groups closed so far, the depth of nesting, and the open group's
/// first and (so far) last parenthesis.
pub struct BraceState {
    pub ranges: Seq<(usize, usize)>,
    pub depth: int,
    pub left: Option<usize>,
    pub right: Option<usize>,
}

/// The token `tok`, at index `ind`, read in state `st`.
pub open spec fn brace_step(st: BraceState, tok: TokenV, ind: usize) -> Result<BraceState, AppError> {
    match tok {
        TokenV::Brace { lhs: true } => {
            let d = st.depth + 1;
            match (st.left, st.right) {
                (Some(_), None) => Ok(BraceState { depth: d, ..st }),
                (None, Some(_)) => Err(parse_err("Ill-formed braces")),
                (Some(_), Some(_)) => if st.depth == 0 {
                    Err(parse_err("Bad input"))
                } else {
                    Ok(BraceState { depth: d, ..st })
                },
                (None, None) => Ok(BraceState { depth: d, left: Some(ind), right: None, ..st }),
            }
        },
        TokenV::Brace { lhs: false } => {
            let d = st.depth - 1;
            if d < 0 {
                Err(parse_err("Ill-formed braces"))
            } else {
                match (st.left, st.right) {
                    (Some(l), Some(_)) => if d != 0 {
                        Ok(BraceState { depth: d, left: Some(l), right: Some(ind), ..st })
                    } else {
                        Ok(BraceState { ranges: st.ranges.push((l, ind)), depth: d, left: None, right: None })
                    },
                    (None, _) => Err(parse_err("Ill-formed braces")),
                    (Some(l), None) => Ok(BraceState { depth: d, right: Some(ind), ..st }),
                }
            }
        },
        _ => if st.depth == 0 {
            match (st.left, st.right) {
                (Some(l), Some(r)) => Ok(BraceState { ranges: st.ranges.push((l, r)), depth: st.depth, left: None, right: None }),
                _ => Ok(st),
            }
        } else {
            Ok(st)
        },
    }
}

/// The state after reading the first `n` tokens of `t`.
pub open spec fn braces_prefix(t: Seq<TokenV>, n: nat) -> Result<BraceState, AppError>
    decreases n,
{
    if n == 0 {
        Ok(BraceState { ranges: Seq::empty(), depth: 0, left: None, right: None })
    } else {
        match braces_prefix(t, (n - 1) as nat) {
            Ok(st) => brace_step(st, t[n - 1], (n - 1) as usize),
            Err(e) => Err(e),
        }
    }
}

/// The outermost parenthesised groups of `t`, each as the indices of its
/// opening and closing parenthesis, or the error that ill-formed parentheses
/// give.
pub open spec fn spec_process_braces(t: Seq<TokenV>) -> Result<Seq<(usize, usize)>, AppError> {
    match braces_prefix(t, t.len()) {
        Ok(st) => if st.depth == 0 {
            match (st.left, st.right) {
                (Some(l), Some(r)) => Ok(st.ranges.push((l, r))),
                _ => Ok(st.ranges),
            }
        } else {
            Err(parse_err("Ill-formed braces"))
        },
        Err(e) => Err(e),
    }
}

proof fn lemma_braces_err_persists(t: Seq<TokenV>, k: nat, n: nat)
    requires
        k <= n,
        braces_prefix(t, k) is Err,
    ensures
        braces_prefix(t, n) == braces_prefix(t, k),
    decreases n - k,
{
    if k < n {
        lemma_braces_err_persists(t, k, (n - 1) as nat);
    }
}

/// Each group lies inside `t`, runs from an opening to a closing parenthesis,
/// and the groups come in order without overlapping.
pub open spec fn ranges_ok(t: Seq<TokenV>, r: Seq<(usize, usize)>) -> bool {
    &&& forall|k: int|
        0 <= k < r.len() ==> {
            &&& #[trigger] r[k].0 < r[k].1
            &&& r[k].1 < t.len()
            &&& t[r[k].0 as int] == TokenV::Brace { lhs: true }
            &&& t[r[k].1 as int] == TokenV::Brace { lhs: false }
        }
    &&& forall|j: int, k: int| 0 <= j < k < r.len() ==> #[trigger] r[j].1 < #[trigger] r[k].0
}

pub open spec fn brace_state_ok(t: Seq<TokenV>, n: nat, st: BraceState) -> bool {
    &&& n <= t.len()
    &&& ranges_ok(t, st.ranges)
    &&& st.depth >= 0
    &&& forall|k: int| 0 <= k < st.ranges.len() ==> #[trigger] st.ranges[k].1 < n
    &&& (st.left matches Some(l) ==> {
        &&& l < n
        &&& t[l as int] == TokenV::Brace { lhs: true }
        &&& forall|k: int| 0 <= k < st.ranges.len() ==> #[trigger] st.ranges[k].1 < l
    })
    &&& (st.right matches Some(r) ==> {
        &&& st.left matches Some(l) && l < r
        &&& r < n
        &&& t[r as int] == TokenV::Brace { lhs: false }
    })
}

proof fn lemma_push_range(t: Seq<TokenV>, n: nat, st: BraceState, l: usize, r: usize)
    requires
        brace_state_ok(t, n, st),
        st.left == Some(l),
        l < r < t.len(),
        r < n + 1,
        t[r as int] == (TokenV::Brace { lhs: false }),
    ensures
        ranges_ok(t, st.ranges.push((l, r))),
        forall|k: int| 0 <= k < st.ranges.push((l, r)).len() ==> #[trigger] st.ranges.push((l, r))[k].1 < n + 1,
{
    let rs = st.ranges.push((l, r));
    assert forall|k: int| 0 <= k < rs.len() implies {
        &&& #[trigger] rs[k].0 < rs[k].1
        &&& rs[k].1 < t.len()
        &&& t[rs[k].0 as int] == TokenV::Brace { lhs: true }
        &&& t[rs[k].1 as int] == TokenV::Brace { lhs: false }
    } by {
        if k < st.ranges.len() {
            assert(rs[k] == st.ranges[k]);
        }
    }
    assert forall|j: int, k: int| 0 <= j < k < rs.len() implies #[trigger] rs[j].1 < #[trigger] rs[k].0 by {
        assert(rs[j] == st.ranges[j]);
        if k < st.ranges.len() {
            assert(rs[k] == st.ranges[k]);
        }
    }
    assert forall|k: int| 0 <= k < rs.len() implies #[trigger] rs[k].1 < n + 1 by {
        if k < st.ranges.len() {
            assert(rs[k] == st.ranges[k]);
        }
    }
}

proof fn lemma_braces_prefix_ok(t: Seq<TokenV>, n: nat)
    requires
        n <= t.len(),
        t.len() <= usize::MAX,
    ensures
        braces_prefix(t, n) matches Ok(st) ==> brace_state_ok(t, n, st),
    decreases n,
{
    if n > 0 {
        let k = (n - 1) as nat;
        lemma_braces_prefix_ok(t, k);
        if let Ok(st) = braces_prefix(t, k) {
            let tok = t[k as int];
            let ind = k as usize;
            assert(ind == k);
            match tok {
                TokenV::Brace { lhs: false } => {
                    if st.depth - 1 >= 0 && st.depth - 1 == 0 {
                        if let (Some(l), Some(_)) = (st.left, st.right) {
                            lemma_push_range(t, k, st, l, ind);
                        }
                    }
                },
                TokenV::Brace { lhs: true } => {},
                _ => {
                    if st.depth == 0 {
                        if let (Some(l), Some(r)) = (st.left, st.right) {
                            lemma_push_range(t, k, st, l, r);
                        }
                    }
                },
            }
        }
    }
}

/// The groups that [`spec_process_braces`] finds are well placed (see
/// [`ranges_ok`]).
pub proof fn lemma_process_braces_ok(t: Seq<TokenV>)
    requires
        t.len() <= usize::MAX,
    ensures
        spec_process_braces(t) matches Ok(r) ==> ranges_ok(t, r),
{
    lemma_braces_prefix_ok(t, t.len());
    if let Ok(st) = braces_prefix(t, t.len()) {
        if st.depth == 0 {
            if let (Some(l), Some(r)) = (st.left, st.right) {
                lemma_push_range(t, t.len(), st, l, r);
            }
        }
    }
}

pub open spec fn nest_delta(x: TokenV) -> int {
    match x {
        TokenV::Brace { lhs: true } => 1,
        TokenV::Brace { lhs: false } => -1,
        _ => 0,
    }
}

/// How many more opening than closing parentheses `s` holds.
pub open spec fn nest(s: Seq<TokenV>) -> int
    decreases s.len(),
{
    if s.len() == 0 {
        0
    } else {
        nest(s.drop_last()) + nest_delta(s.last())
    }
}

/// The parenthesis at `l` is matched by the one at `r`: between them the
/// nesting stays above zero, and at `r` it is back to zero.
pub open spec fn matching(t: Seq<TokenV>, l: int, r: int) -> bool {
    &&& nest(t.subrange(l, r + 1)) == 0
    &&& forall|p: int| l < p <= r ==> nest(#[trigger] t.subrange(l, p)) >= 1
}

pub open spec fn in_some_group(r: Seq<(usize, usize)>, j: int) -> bool {
    exists|k: int| 0 <= k < r.len() && (#[trigger] r[k]).0 <= j <= r[k].1
}

/// The groups are exactly the pairs of matching parentheses at depth zero:
/// each group runs from a parenthesis to the one that matches it, and every
/// parenthesis of `t` lies inside a group.
pub open spec fn groups_exact(t: Seq<TokenV>, r: Seq<(usize, usize)>) -> bool {
    &&& forall|k: int| 0 <= k < r.len() ==> matching(t, #[trigger] r[k].0 as int, r[k].1 as int)
    &&& forall|j: int| 0 <= j < t.len() && (#[trigger] t[j]) is Brace ==> in_some_group(r, j)
}

pub open spec fn brace_state_exact(t: Seq<TokenV>, n: nat, st: BraceState) -> bool {
    &&& forall|k: int| 0 <= k < st.ranges.len() ==> matching(t, #[trigger] st.ranges[k].0 as int, st.ranges[k].1 as int)
    &&& forall|j: int| 0 <= j < n && (#[trigger] t[j]) is Brace ==> in_some_group(st.ranges, j) || (
    st.left matches Some(l) && l <= j)
    &&& (st.left matches Some(l) ==> {
        &&& st.depth == nest(t.subrange(l as int, n as int))
        &&& forall|p: int| l < p < n ==> nest(#[trigger] t.subrange(l as int, p)) >= 1
        &&& (st.depth == 0 ==> st.right == Some((n - 1) as usize))
    })
    &&& (st.left is None ==> st.depth == 0)
}

proof fn lemma_nest_step(t: Seq<TokenV>, l: int, n: int)
    requires
        0 <= l <= n < t.len(),
    ensures
        nest(t.subrange(l, n + 1)) == nest(t.subrange(l, n)) + nest_delta(t[n]),
{
    assert(t.subrange(l, n + 1).drop_last() =~= t.subrange(l, n));
    assert(t.subrange(l, n + 1).last() == t[n]);
}

proof fn lemma_group_push(r: Seq<(usize, usize)>, x: (usize, usize), j: int)
    requires
        in_some_group(r, j),
    ensures
        in_some_group(r.push(x), j),
{
    let k = choose|k: int| 0 <= k < r.len() && (#[trigger] r[k]).0 <= j <= r[k].1;
    assert(r.push(x)[k] == r[k]);
}

proof fn lemma_push_exact(t: Seq<TokenV>, ranges: Seq<(usize, usize)>, l: usize, r: usize)
    requires
        forall|k: int| 0 <= k < ranges.len() ==> matching(t, #[trigger] ranges[k].0 as int, ranges[k].1 as int),
        matching(t, l as int, r as int),
    ensures
        forall|k: int| 0 <= k < ranges.push((l, r)).len() ==> matching(t, #[trigger] ranges.push((l, r))[k].0 as int, ranges.push((l, r))[k].1 as int),
{
    assert forall|k: int| 0 <= k < ranges.push((l, r)).len() implies matching(t, #[trigger] ranges.push((l, r))[k].0 as int, ranges.push((l, r))[k].1 as int) by {
        if k < ranges.len() {
            assert(ranges.push((l, r))[k] == ranges[k]);
        }
    }
}

proof fn lemma_braces_prefix_exact(t: Seq<TokenV>, n: nat)
    requires
        n <= t.len(),
        t.len() <= usize::MAX,
    ensures
        braces_prefix(t, n) matches Ok(st) ==> brace_state_exact(t, n, st),
    decreases n,
{
    if n > 0 {
        let k = (n - 1) as nat;
        lemma_braces_prefix_exact(t, k);
        lemma_braces_prefix_ok(t, k);
        if let Ok(st) = braces_prefix(t, k) {
            let tok = t[k as int];
            let ind = k as usize;
            assert(ind == k);
            if let Ok(st2) = brace_step(st, tok, ind) {
                if let Some(l) = st.left {
                    lemma_nest_step(t, l as int, k as int);
                }
                match tok {
                    TokenV::Brace { lhs: true } => {
                        if st.left is None {
                            let one = t.subrange(k as int, n as int);
                            assert(one.drop_last() =~= Seq::<TokenV>::empty());
                            assert(nest(one.drop_last()) == 0);
                            assert(one.last() == t[k as int]);
                            assert(nest(one) == 1);
                        }
                        assert forall|j: int| 0 <= j < n && (#[trigger] t[j]) is Brace implies in_some_group(st2.ranges, j) || (
                        st2.left matches Some(l) && l <= j) by {}
                    },
                    TokenV::Brace { lhs: false } => {
                        let (l, _) = (st.left->0, 0int);
                        if st.depth - 1 == 0 && st.right is Some {
                            lemma_push_exact(t, st.ranges, l, ind);
                            assert(matching(t, l as int, ind as int));
                            assert forall|j: int| 0 <= j < n && (#[trigger] t[j]) is Brace implies in_some_group(st2.ranges, j) by {
                                if in_some_group(st.ranges, j) {
                                    lemma_group_push(st.ranges, (l, ind), j);
                                } else {
                                    assert(st.ranges.push((l, ind))[st.ranges.len() as int] == (l, ind));
                                }
                            }
                        } else {
                            assert forall|j: int| 0 <= j < n && (#[trigger] t[j]) is Brace implies in_some_group(st2.ranges, j) || (
                            st2.left matches Some(l) && l <= j) by {}
                        }
                    },
                    _ => {
                        if st.depth == 0 && st.left is Some && st.right is Some {
                            let l = st.left->0;
                            let r = st.right->0;
                            assert(r == k - 1);
                            assert(t.subrange(l as int, r + 1) =~= t.subrange(l as int, k as int));
                            lemma_push_exact(t, st.ranges, l, r);
                            assert forall|j: int| 0 <= j < n && (#[trigger] t[j]) is Brace implies in_some_group(st2.ranges, j) by {
                                if in_some_group(st.ranges, j) {
                                    lemma_group_push(st.ranges, (l, r), j);
                                } else {
                                    assert(st.ranges.push((l, r))[st.ranges.len() as int] == (l, r));
                                }
                            }
                        } else {
                            assert forall|j: int| 0 <= j < n && (#[trigger] t[j]) is Brace implies in_some_group(st2.ranges, j) || (
                            st2.left matches Some(l) && l <= j) by {}
                        }
                    },
                }
            }
        }
    }
}

/// The groups that [`spec_process_braces`] finds are exactly the pairs of
/// matching parentheses at depth zero (see [`groups_exact`]).
pub proof fn lemma_process_braces_exact(t: Seq<TokenV>)
    requires
        t.len() <= usize::MAX,
    ensures
        spec_process_braces(t) matches Ok(r) ==> groups_exact(t, r),
{
    lemma_braces_prefix_exact(t, t.len());
    lemma_braces_prefix_ok(t, t.len());
    if let Ok(st) = braces_prefix(t, t.len()) {
        if st.depth == 0 {
            if let (Some(l), Some(r)) = (st.left, st.right) {
                assert(r == t.len() - 1);
                assert(t.subrange(l as int, r + 1) =~= t.subrange(l as int, t.len() as int));
                lemma_push_exact(t, st.ranges, l, r);
                assert forall|j: int| 0 <= j < t.len() && (#[trigger] t[j]) is Brace implies in_some_group(st.ranges.push((l, r)), j) by {
                    if in_some_group(st.ranges, j) {
                        lemma_group_push(st.ranges, (l, r), j);
                    } else {
                        assert(st.ranges.push((l, r))[st.ranges.len() as int] == (l, r));
                    }
                }
            }
        }
    }
}

/// The parentheses of `t` are balanced: no prefix closes more than it has
/// opened, and everything opened is closed.
pub open spec fn balanced(t: Seq<TokenV>) -> bool {
    &&& forall|p: int| 0 <= p <= t.len() ==> nest(#[trigger] t.take(p)) >= 0
    &&& nest(t) == 0
}

/// No group at depth zero is directly followed by an opening parenthesis.
pub open spec fn no_adjacent_groups(t: Seq<TokenV>) -> bool {
    forall|j: int|
        0 <= j && j + 1 < t.len() && #[trigger] t[j] == (TokenV::Brace { lhs: false }) && nest(t.take(j + 1))
            == 0 ==> t[j + 1] != (TokenV::Brace { lhs: true })
}

proof fn lemma_complete_prefix(t: Seq<TokenV>, n: nat)
    requires
        balanced(t),
        no_adjacent_groups(t),
        n <= t.len(),
        t.len() <= usize::MAX,
    ensures
        braces_prefix(t, n) matches Ok(st) && st.depth == nest(t.take(n as int)),
    decreases n,
{
    if n == 0 {
        assert(t.take(0) =~= Seq::<TokenV>::empty());
    } else {
        let k = (n - 1) as nat;
        lemma_complete_prefix(t, k);
        lemma_braces_prefix_ok(t, k);
        lemma_braces_prefix_exact(t, k);
        let st = braces_prefix(t, k)->Ok_0;
        assert(t.take(n as int).drop_last() =~= t.take(k as int));
        assert(t.take(n as int).last() == t[k as int]);
        assert(nest(t.take(n as int)) >= 0);
        let ind = k as usize;
        assert(ind == k);
        if t[k as int] == (TokenV::Brace { lhs: true }) {
            if st.left is Some && st.right is Some && st.depth == 0 {
                assert(st.right == Some((k - 1) as usize));
                let j = k - 1;
                assert(t[j] == (TokenV::Brace { lhs: false }));
                assert(t.take(j + 1) =~= t.take(k as int));
            }
        }
    }
}

/// Only unbalanced parentheses, or a group directly followed by another one,
/// are refused: for balanced parentheses with no two groups side by side the
/// groups are always found.
pub proof fn law_groups_found(t: Seq<TokenV>)
    requires
        t.len() <= usize::MAX,
        balanced(t),
        no_adjacent_groups(t),
    ensures
        spec_process_braces(t) is Ok,
{
    lemma_complete_prefix(t, t.len());
    assert(t.take(t.len() as int) =~= t);
}

/// The outermost parenthesised groups of `toks` (see [`spec_process_braces`]).
pub fn process_braces(toks: &[Token]) -> (res: Result<Vec<(usize, usize)>, AppError>)
    ensures
        match res {
            Ok(v) => spec_process_braces(toks_view(toks@)) == Ok::<Seq<(usize, usize)>, AppError>(v@),
            Err(e) => spec_process_braces(toks_view(toks@)) == Err::<Seq<(usize, usize)>, AppError>(e),
        },
        res matches Ok(v) ==> ranges_ok(toks_view(toks@), v@),
        res matches Ok(v) ==> groups_exact(toks_view(toks@), v@),
{
    proof {
        assert(toks_view(toks@).len() == toks.len());
        lemma_process_braces_ok(toks_view(toks@));
        lemma_process_braces_exact(toks_view(toks@));
    }
    let ghost t = toks_view(toks@);
    let mut ranges: Vec<(usize, usize)> = Vec::new();
    let mut depth: usize = 0;
    let mut left: Option<usize> = None;
    let mut right: Option<usize> = None;
    let mut ind: usize = 0;
    while ind < toks.len()
        invariant
            ind <= toks.len(),
            t == toks_view(toks@),
            depth <= ind,
            braces_prefix(t, ind as nat) == Ok::<BraceState, AppError>(
                BraceState { ranges: ranges@, depth: depth as int, left, right },
            ),
        decreases toks.len() - ind,
    {
        let ghost st = BraceState { ranges: ranges@, depth: depth as int, left, right };
        assert(t[ind as int] == toks@[ind as int]@);
        match &toks[ind] {
            Token::Brace { lhs: true } => {
                match (left, right) {
                    (Some(_), None) => {},
                    (None, Some(_)) => {
                        proof {
                            lemma_braces_err_persists(t, (ind + 1) as nat, t.len());
                        }
                        return Err(AppError::ParseError(Cow::Borrowed("Ill-formed braces")));
                    },
                    (Some(_), Some(_)) => {
                        if depth == 0 {
                            proof {
                                lemma_braces_err_persists(t, (ind + 1) as nat, t.len());
                            }
                            return Err(AppError::ParseError(Cow::Borrowed("Bad input")));
                        }
                    },
                    (None, None) => {
                        left = Some(ind);
                    },
                }
                depth = depth + 1;
            },
            Token::Brace { lhs: false } => {
                if depth == 0 {
                    proof {
                        lemma_braces_err_persists(t, (ind + 1) as nat, t.len());
                    }
                    return Err(AppError::ParseError(Cow::Borrowed("Ill-formed braces")));
                }
                depth = depth - 1;
                match (left, right) {
                    (Some(l), Some(_)) => {
                        if depth != 0 {
                            right = Some(ind);
                        } else {
                            ranges.push((l, ind));
                            left = None;
                            right = None;
                        }
                    },
                    (None, _) => {
                        proof {
                            lemma_braces_err_persists(t, (ind + 1) as nat, t.len());
                        }
                        return Err(AppError::ParseError(Cow::Borrowed("Ill-formed braces")));
                    },
                    (Some(_), None) => {
                        right = Some(ind);
                    },
                }
            },
            _ => {
                if depth == 0 {
                    if let (Some(l), Some(r)) = (left, right) {
                        ranges.push((l, r));
                        left = None;
                        right = None;
                    }
                }
            },
        }
        assert(brace_step(st, t[ind as int], ind) == Ok::<BraceState, AppError>(
            BraceState { ranges: ranges@, depth: depth as int, left, right },
        ));
        ind += 1;
    }
    if depth == 0 {
        if let (Some(l), Some(r)) = (left, right) {
            ranges.push((l, r));
        }
        Ok(ranges)
    } else {
        Err(AppError::ParseError(Cow::Borrowed("Ill-formed braces")))
    }
}

// ---------------------------------------------------------------------------
// Ranking and splitting
// ---------------------------------------------------------------------------

/// How two elements rank against each other.
pub enum Order {
    Less,
    Equal,
    Greater,
}

pub open spec fn additive(c: char) -> bool {
    c == '+' || c == '-'
}

pub open spec fn multiplicative(c: char) -> bool {
    c == '*' || c == '/'
}

pub open spec fn power(c: char) -> bool {
    c == '^'
}

/// How weakly an element binds: `+` and `-` bind weakest, then `*` and `/`,
/// then `^` (and any other operator); numbers and groups are operands.
pub open spec fn rank(x: ExtV) -> nat {
    match x {
        ExtV::Tok(TokenV::Op(c)) => if additive(c) {
            0
        } else if multiplicative(c) {
            1
        } else {
            2
        },
        _ => 3,
    }
}

/// How `l` ranks against `r`.
pub open spec fn spec_order(l: ExtV, r: ExtV) -> Order {
    if rank(l) < rank(r) {
        Order::Less
    } else if rank(l) == rank(r) {
        Order::Equal
    } else {
        Order::Greater
    }
}

/// The index at which the first `k` elements of `e` are split: scanning from
/// the left, the current choice is replaced by every element that does not
/// rank above it, so the last of the weakest-binding elements is chosen.
pub open spec fn min_index(e: Seq<ExtV>, k: nat) -> nat
    decreases k,
{
    if k <= 1 {
        0
    } else {
        let c = min_index(e, (k - 1) as nat);
        if spec_order(e[k - 1], e[c as int]) is Greater {
            c
        } else {
            (k - 1) as nat
        }
    }
}

/// The split point is the last element of least rank: nothing ranks below it,
/// and everything after it ranks strictly above it.
pub proof fn lemma_min_index_range(e: Seq<ExtV>, k: nat)
    requires
        k >= 1,
    ensures
        min_index(e, k) < k,
        forall|j: int| 0 <= j < k ==> rank(e[min_index(e, k) as int]) <= rank(#[trigger] e[j]),
        forall|j: int| min_index(e, k) < j < k ==> rank(e[min_index(e, k) as int]) < rank(#[trigger] e[j]),
    decreases k,
{
    if k > 1 {
        lemma_min_index_range(e, (k - 1) as nat);
    }
}

pub open spec fn node_of(op: char, l: TreeV, r: TreeV) -> TreeV {
    TreeV::WithChilds { data: Some(op), children: Some(Box::new((l, r))) }
}

pub open spec fn is_brace_ext(e: ExtV) -> bool {
    e matches ExtV::Tok(TokenV::Brace { lhs: _ })
}

pub open spec fn no_braces(e: Seq<ExtV>) -> bool {
    forall|i: int| 0 <= i < e.len() ==> !is_brace_ext(#[trigger] e[i])
}

/// The tree of a sequence of tokens and groups: it is split at its split
/// point (see [`min_index`]); an operator there takes the trees of both sides
/// as operands, a number or a group there stands for the whole sequence.
pub open spec fn spec_form(e: Seq<ExtV>) -> Result<TreeV, AppError>
    decreases e.len(),
{
    if e.len() == 0 {
        Err(parse_err("Empty extended tokens found"))
    } else {
        let m = min_index(e, e.len());
        proof {
            lemma_min_index_range(e, e.len());
        }
        match e[m as int] {
            ExtV::Node(n) => Ok(n),
            ExtV::Tok(TokenV::Op(op)) => match spec_form(e.subrange(0, m as int)) {
                Ok(lt) => match spec_form(e.subrange(m + 1 as int, e.len() as int)) {
                    Ok(rt) => Ok(node_of(op, lt, rt)),
                    Err(err) => Err(err),
                },
                Err(err) => Err(err),
            },
            ExtV::Tok(TokenV::Num(n)) => Ok(TreeV::Ending(Some(n))),
            ExtV::Tok(TokenV::Brace { lhs: _ }) => Err(parse_err("Ill-formed braces")),
        }
    }
}

/// Precedence and left associativity: `a o1 b o2 c` is `(a o1 b) o2 c` when
/// `o2` does not bind tighter than `o1`, and `a o1 (b o2 c)` when it does.
pub proof fn law_precedence(a: NumberV, o1: char, b: NumberV, o2: char, c: NumberV)
    ensures
        ({
            let e = seq![
                ExtV::Tok(TokenV::Num(a)),
                ExtV::Tok(TokenV::Op(o1)),
                ExtV::Tok(TokenV::Num(b)),
                ExtV::Tok(TokenV::Op(o2)),
                ExtV::Tok(TokenV::Num(c)),
            ];
            let (ta, tb, tc) = (TreeV::Ending(Some(a)), TreeV::Ending(Some(b)), TreeV::Ending(Some(c)));
            spec_form(e) == if rank(ExtV::Tok(TokenV::Op(o2))) <= rank(ExtV::Tok(TokenV::Op(o1))) {
                Ok::<TreeV, AppError>(node_of(o2, node_of(o1, ta, tb), tc))
            } else {
                Ok::<TreeV, AppError>(node_of(o1, ta, node_of(o2, tb, tc)))
            }
        }),
{
    let e = seq![
        ExtV::Tok(TokenV::Num(a)),
        ExtV::Tok(TokenV::Op(o1)),
        ExtV::Tok(TokenV::Num(b)),
        ExtV::Tok(TokenV::Op(o2)),
        ExtV::Tok(TokenV::Num(c)),
    ];
    let (ta, tb, tc) = (TreeV::Ending(Some(a)), TreeV::Ending(Some(b)), TreeV::Ending(Some(c)));
    let x1 = seq![ExtV::Tok(TokenV::Num(a))];
    let x3 = seq![ExtV::Tok(TokenV::Num(c))];
    assert(spec_form(x1) == Ok::<TreeV, AppError>(ta)) by {
        assert(x1[0] == ExtV::Tok(TokenV::Num(a)));
    }
    assert(spec_form(x3) == Ok::<TreeV, AppError>(tc)) by {
        assert(x3[0] == ExtV::Tok(TokenV::Num(c)));
    }
    assert(min_index(e, 1) == 0);
    assert(min_index(e, 2) == 1);
    assert(min_index(e, 3) == 1);
    if rank(ExtV::Tok(TokenV::Op(o2))) <= rank(ExtV::Tok(TokenV::Op(o1))) {
        assert(min_index(e, 4) == 3);
        assert(min_index(e, 5) == 3);
        let l = e.subrange(0, 3);
        assert(l =~= seq![ExtV::Tok(TokenV::Num(a)), ExtV::Tok(TokenV::Op(o1)), ExtV::Tok(TokenV::Num(b))]);
        assert(min_index(l, 1) == 0);
        assert(min_index(l, 2) == 1);
        assert(min_index(l, 3) == 1);
        assert(l.subrange(0, 1) =~= x1);
        let lb = l.subrange(2, 3);
        assert(lb =~= seq![ExtV::Tok(TokenV::Num(b))]);
        assert(spec_form(lb) == Ok::<TreeV, AppError>(tb)) by {
            assert(lb[0] == ExtV::Tok(TokenV::Num(b)));
        }
        assert(spec_form(l) == Ok::<TreeV, AppError>(node_of(o1, ta, tb)));
        assert(e.subrange(4, 5) =~= x3);
    } else {
        assert(min_index(e, 4) == 1);
        assert(min_index(e, 5) == 1);
        let r = e.subrange(2, 5);
        assert(r =~= seq![ExtV::Tok(TokenV::Num(b)), ExtV::Tok(TokenV::Op(o2)), ExtV::Tok(TokenV::Num(c))]);
        assert(min_index(r, 1) == 0);
        assert(min_index(r, 2) == 1);
        assert(min_index(r, 3) == 1);
        let rb = r.subrange(0, 1);
        assert(rb =~= seq![ExtV::Tok(TokenV::Num(b))]);
        assert(spec_form(rb) == Ok::<TreeV, AppError>(tb)) by {
            assert(rb[0] == ExtV::Tok(TokenV::Num(b)));
        }
        assert(r.subrange(2, 3) =~= x3);
        assert(spec_form(r) == Ok::<TreeV, AppError>(node_of(o2, tb, tc)));
        assert(e.subrange(0, 1) =~= x1);
    }
}

/// The ranks as values: `+` and `-` share the lowest, `*` and `/` share the
/// next, `^` comes after them, and operands rank highest.
pub proof fn law_rank_values(n: NumberV, t: TreeV)
    ensures
        rank(ExtV::Tok(TokenV::Op('+'))) == 0,
        rank(ExtV::Tok(TokenV::Op('-'))) == 0,
        rank(ExtV::Tok(TokenV::Op('*'))) == 1,
        rank(ExtV::Tok(TokenV::Op('/'))) == 1,
        rank(ExtV::Tok(TokenV::Op('^'))) == 2,
        rank(ExtV::Tok(TokenV::Num(n))) == 3,
        rank(ExtV::Node(t)) == 3,
{
}

pub open spec fn three(a: NumberV, o1: char, b: NumberV, o2: char, c: NumberV) -> Seq<ExtV> {
    seq![
        ExtV::Tok(TokenV::Num(a)),
        ExtV::Tok(TokenV::Op(o1)),
        ExtV::Tok(TokenV::Num(b)),
        ExtV::Tok(TokenV::Op(o2)),
        ExtV::Tok(TokenV::Num(c)),
    ]
}

pub open spec fn grouped_left(a: NumberV, o1: char, b: NumberV, o2: char, c: NumberV) -> TreeV {
    node_of(o2, node_of(o1, TreeV::Ending(Some(a)), TreeV::Ending(Some(b))), TreeV::Ending(Some(c)))
}

pub open spec fn grouped_right(a: NumberV, o1: char, b: NumberV, o2: char, c: NumberV) -> TreeV {
    node_of(o1, TreeV::Ending(Some(a)), node_of(o2, TreeV::Ending(Some(b)), TreeV::Ending(Some(c))))
}

/// Operators of one class apply from left to right (`+` with `-`, `*` with
/// `/`, `^` with `^`); a later operator of a tighter class takes the middle
/// operand (`*`, `/`, `^` after `+` or `-`; `^` after `*` or `/`), and a later
/// operator of a looser class takes the earlier operation as its left operand.
pub proof fn law_operator_classes(a: NumberV, o1: char, b: NumberV, o2: char, c: NumberV)
    ensures
        ((o1 == '+' || o1 == '-') && (o2 == '+' || o2 == '-')) ==> spec_form(three(a, o1, b, o2, c))
            == Ok::<TreeV, AppError>(grouped_left(a, o1, b, o2, c)),
        ((o1 == '*' || o1 == '/') && (o2 == '*' || o2 == '/')) ==> spec_form(three(a, o1, b, o2, c))
            == Ok::<TreeV, AppError>(grouped_left(a, o1, b, o2, c)),
        (o1 == '^' && o2 == '^') ==> spec_form(three(a, o1, b, o2, c)) == Ok::<TreeV, AppError>(
            grouped_left(a, o1, b, o2, c),
        ),
        ((o1 == '+' || o1 == '-') && (o2 == '*' || o2 == '/' || o2 == '^')) ==> spec_form(
            three(a, o1, b, o2, c),
        ) == Ok::<TreeV, AppError>(grouped_right(a, o1, b, o2, c)),
        ((o1 == '*' || o1 == '/') && o2 == '^') ==> spec_form(three(a, o1, b, o2, c)) == Ok::<
            TreeV,
            AppError,
        >(grouped_right(a, o1, b, o2, c)),
        ((o1 == '*' || o1 == '/' || o1 == '^') && (o2 == '+' || o2 == '-')) ==> spec_form(
            three(a, o1, b, o2, c),
        ) == Ok::<TreeV, AppError>(grouped_left(a, o1, b, o2, c)),
        (o1 == '^' && (o2 == '*' || o2 == '/')) ==> spec_form(three(a, o1, b, o2, c)) == Ok::<
            TreeV,
            AppError,
        >(grouped_left(a, o1, b, o2, c)),
{
    law_precedence(a, o1, b, o2, c);
    assert(three(a, o1, b, o2, c) =~= seq![
        ExtV::Tok(TokenV::Num(a)),
        ExtV::Tok(TokenV::Op(o1)),
        ExtV::Tok(TokenV::Num(b)),
        ExtV::Tok(TokenV::Op(o2)),
        ExtV::Tok(TokenV::Num(c)),
    ]);
}

// ---------------------------------------------------------------------------
// Groups become nodes
// ---------------------------------------------------------------------------

/// The tokens of `t` from index `a` up to (not including) `b`, without
/// parentheses.
pub open spec fn plain(t: Seq<TokenV>, a: int, b: int) -> Seq<ExtV>
    decreases b - a,
{
    if b <= a {
        Seq::empty()
    } else {
        let p = plain(t, a, b - 1);
        if t[b - 1] is Brace {
            p
        } else {
            p.push(ExtV::Tok(t[b - 1]))
        }
    }
}

/// The tree of `t`: each outermost group becomes the node of its contents,
/// and the resulting sequence is split.
pub open spec fn spec_parse4(t: Seq<TokenV>) -> Result<TreeV, AppError>
    decreases t.len(), 2nat, 0nat,
{
    match spec_promote(t) {
        Ok(ext) => spec_form(ext),
        Err(err) => Err(err),
    }
}

/// The tokens of `t` with each outermost group replaced by the node of its
/// contents, the other tokens kept in order, and the parentheses dropped; the
/// groups are parsed from left to right and the first error stops the work.
pub open spec fn spec_promote(t: Seq<TokenV>) -> Result<Seq<ExtV>, AppError>
    decreases t.len(), 1nat, 0nat,
{
    match spec_process_braces(t) {
        Err(err) => Err(err),
        Ok(r) => promote_groups(t, r, 0, 0),
    }
}

/// The groups `r[k..]` of `t` replaced by their nodes, from index `from` on.
pub open spec fn promote_groups(t: Seq<TokenV>, r: Seq<(usize, usize)>, k: nat, from: int) -> Result<
    Seq<ExtV>,
    AppError,
>
    decreases t.len(), 0nat, r.len() - k,
{
    if k >= r.len() {
        Ok(plain(t, from, t.len() as int))
    } else {
        let l = r[k as int].0 as int;
        let rr = r[k as int].1 as int;
        if 0 <= from <= l && l < rr && rr < t.len() {
            match spec_parse4(t.subrange(l + 1, rr)) {
                Ok(n) => match promote_groups(t, r, k + 1, rr + 1) {
                    Ok(rest) => Ok(plain(t, from, l) + seq![ExtV::Node(n)] + rest),
                    Err(err) => Err(err),
                },
                Err(err) => Err(err),
            }
        } else {
            Err(parse_err("Ill-formed braces"))
        }
    }
}

proof fn lemma_plain_no_braces(t: Seq<TokenV>, a: int, b: int)
    ensures
        no_braces(plain(t, a, b)),
    decreases b - a,
{
    if b > a {
        lemma_plain_no_braces(t, a, b - 1);
        let p = plain(t, a, b - 1);
        if !(t[b - 1] is Brace) {
            assert forall|i: int| 0 <= i < p.push(ExtV::Tok(t[b - 1])).len() implies !is_brace_ext(
                #[trigger] p.push(ExtV::Tok(t[b - 1]))[i],
            ) by {
                if i < p.len() {
                    assert(p.push(ExtV::Tok(t[b - 1]))[i] == p[i]);
                }
            }
        }
    }
}

/// Whether `ch` is one of `arg`.
pub fn is_in_group(arg: &[char], ch: char) -> (r: bool)
    ensures
        r == arg@.contains(ch),
{
    let mut i: usize = 0;
    while i < arg.len()
        invariant
            i <= arg.len(),
            forall|j: int| 0 <= j < i ==> arg@[j] != ch,
        decreases arg.len() - i,
    {
        if arg[i] == ch {
            return true;
        }
        i += 1;
    }
    false
}

fn rank_of(x: &TokenExtended) -> (r: u8)
    ensures
        r == rank(x@),
{
    let additive_ops: [char; 2] = ['+', '-'];
    let multiplicative_ops: [char; 2] = ['*', '/'];
    match x {
        TokenExtended::Tok(Token::Op(c)) => {
            let c = *c;
            let add = is_in_group(additive_ops.as_slice(), c);
            let mul = is_in_group(multiplicative_ops.as_slice(), c);
            proof {
                assert(additive_ops@ =~= seq!['+', '-']);
                assert(multiplicative_ops@ =~= seq!['*', '/']);
                assert(add == additive(c)) by {
                    if additive(c) {
                        assert(additive_ops@[0] == '+' && additive_ops@[1] == '-');
                    }
                }
                assert(mul == multiplicative(c)) by {
                    if multiplicative(c) {
                        assert(multiplicative_ops@[0] == '*' && multiplicative_ops@[1] == '/');
                    }
                }
            }
            if add {
                0
            } else if mul {
                1
            } else {
                2
            }
        },
        _ => 3,
    }
}

/// How `l` ranks against `r` (see [`spec_order`]).
fn rank_order(l: &TokenExtended, r: &TokenExtended) -> (o: Order)
    ensures
        o == spec_order(l@, r@),
{
    let a = rank_of(l);
    let b = rank_of(r);
    if a < b {
        Order::Less
    } else if a == b {
        Order::Equal
    } else {
        Order::Greater
    }
}

/// The split point of `etoks` (see [`min_index`]).
fn min_position(etoks: &[TokenExtended]) -> (m: usize)
    requires
        etoks@.len() > 0,
    ensures
        m == min_index(exts_view(etoks@), etoks@.len()),
        m < etoks@.len(),
{
    let ghost e = exts_view(etoks@);
    let mut cur: usize = 0;
    let mut k: usize = 1;
    while k < etoks.len()
        invariant
            1 <= k <= etoks@.len(),
            e == exts_view(etoks@),
            cur == min_index(e, k as nat),
            cur < k,
        decreases etoks.len() - k,
    {
        let o = rank_order(&etoks[k], &etoks[cur]);
        assert(e[cur as int] == etoks@[cur as int]@);
        assert(e[k as int] == etoks@[k as int]@);
        match o {
            Order::Greater => {},
            _ => {
                cur = k;
            },
        }
        k += 1;
    }
    cur
}

fn form_node(etoks: &[TokenExtended]) -> (res: Result<TreeNode, AppError>)
    requires
        no_braces(exts_view(etoks@)),
    ensures
        match res {
            Ok(t) => spec_form(exts_view(etoks@)) == Ok::<TreeV, AppError>(t@),
            Err(e) => spec_form(exts_view(etoks@)) == Err::<TreeV, AppError>(e),
        },
    decreases etoks@.len(),
{
    let ghost e = exts_view(etoks@);
    if etoks.len() == 0 {
        return Err(AppError::ParseError(Cow::Borrowed("Empty extended tokens found")));
    }
    let m = min_position(etoks);
    assert(e[m as int] == etoks@[m as int]@);
    match &etoks[m] {
        TokenExtended::Node(nod) => Ok(nod.copy()),
        TokenExtended::Tok(Token::Op(op)) => {
            let left = &etoks[0..m];
            let right = &etoks[m + 1..etoks.len()];
            assert(exts_view(left@) =~= e.subrange(0, m as int));
            assert(exts_view(right@) =~= e.subrange(m + 1 as int, e.len() as int));
            assert(no_braces(exts_view(left@))) by {
                assert forall|i: int| 0 <= i < exts_view(left@).len() implies !is_brace_ext(#[trigger] exts_view(left@)[i]) by {
                    assert(exts_view(left@)[i] == e[i]);
                }
            }
            assert(no_braces(exts_view(right@))) by {
                assert forall|i: int| 0 <= i < exts_view(right@).len() implies !is_brace_ext(#[trigger] exts_view(right@)[i]) by {
                    assert(exts_view(right@)[i] == e[m + 1 + i]);
                }
            }
            let lt = form_node(left)?;
            let rt = form_node(right)?;
            let mut ret = TreeNode::from_op(*op);
            ret.push_chidren(Box::new((lt, rt)));
            Ok(ret)
        },
        TokenExtended::Tok(Token::Num(num)) => Ok(TreeNode::from_number(num.copy())),
        TokenExtended::Tok(Token::Brace { lhs: _ }) => {
            proof {
                assert(!is_brace_ext(e[m as int]));
            }
            Err(AppError::ParseError(Cow::Borrowed("Ill-formed braces")))
        },
    }
}

fn push_ext(v: &mut Vec<TokenExtended>, x: TokenExtended)
    ensures
        exts_view(final(v)@) == exts_view(old(v)@).push(x@),
{
    v.push(x);
    assert(exts_view(v@) =~= exts_view(old(v)@).push(x@));
}

/// Appends the tokens of `toks[a..b]` without parentheses to `out`.
fn copy_plain(toks: &[Token], a: usize, b: usize, out: &mut Vec<TokenExtended>)
    requires
        a <= b <= toks@.len(),
    ensures
        exts_view(final(out)@) == exts_view(old(out)@) + plain(toks_view(toks@), a as int, b as int),
{
    let ghost t = toks_view(toks@);
    let mut j = a;
    assert(exts_view(out@) =~= exts_view(old(out)@) + plain(t, a as int, a as int));
    while j < b
        invariant
            a <= j <= b <= toks@.len(),
            t == toks_view(toks@),
            exts_view(out@) == exts_view(old(out)@) + plain(t, a as int, j as int),
        decreases b - j,
    {
        let ghost before = exts_view(out@);
        assert(t[j as int] == toks@[j as int]@);
        match &toks[j] {
            Token::Brace { lhs: _ } => {},
            tok => {
                push_ext(out, TokenExtended::Tok(tok.copy()));
            },
        }
        j += 1;
        assert(exts_view(out@) =~= exts_view(old(out)@) + plain(t, a as int, j as int));
    }
}

/// The tokens of `toks` with each outermost group replaced by the node of its
/// contents (see [`spec_promote`]).
fn promote_to_extended_tokens(toks: &[Token]) -> (res: Result<Vec<TokenExtended>, AppError>)
    ensures
        match res {
            Ok(v) => spec_promote(toks_view(toks@)) == Ok::<Seq<ExtV>, AppError>(exts_view(v@)),
            Err(err) => spec_promote(toks_view(toks@)) == Err::<Seq<ExtV>, AppError>(err),
        },
        res matches Ok(v) ==> no_braces(exts_view(v@)),
    decreases toks@.len(), 1nat,
{
    let ghost t = toks_view(toks@);
    let ranges = process_braces(toks)?;
    let ghost target = promote_groups(t, ranges@, 0, 0);
    let mut ret: Vec<TokenExtended> = Vec::new();
    let mut from: usize = 0;
    let mut k: usize = 0;
    assert(exts_view(ret@) =~= Seq::<ExtV>::empty());
    while k < ranges.len()
        invariant
            t == toks_view(toks@),
            k <= ranges@.len(),
            ranges_ok(t, ranges@),
            from <= toks@.len(),
            k < ranges@.len() ==> from <= ranges@[k as int].0,
            target == promote_groups(t, ranges@, 0, 0),
            spec_process_braces(t) == Ok::<Seq<(usize, usize)>, AppError>(ranges@),
            target == match promote_groups(t, ranges@, k as nat, from as int) {
                Ok(rest) => Ok(exts_view(ret@) + rest),
                Err(e) => Err::<Seq<ExtV>, AppError>(e),
            },
            no_braces(exts_view(ret@)),
        decreases ranges.len() - k,
    {
        let (l, r) = ranges[k];
        assert(l < r && r < toks@.len());
        assert(toks@.len() == toks.len());
        let ghost before = exts_view(ret@);
        copy_plain(toks, from, l, &mut ret);
        let inner = &toks[l + 1..r];
        assert(toks_view(inner@) =~= t.subrange(l + 1 as int, r as int));
        let n = match parse4(inner) {
            Ok(n) => n,
            Err(err) => {
                proof {
                    assert(0 <= from <= l && l < r && r < t.len());
                    assert(promote_groups(t, ranges@, k as nat, from as int) == Err::<Seq<ExtV>, AppError>(err));
                    assert(target == Err::<Seq<ExtV>, AppError>(err));
                    assert(spec_promote(t) == target);
                }
                return Err(err);
            },
        };
        let ghost nv = n@;
        push_ext(&mut ret, TokenExtended::Node(n));
        proof {
            lemma_plain_no_braces(t, from as int, l as int);
            let p = plain(t, from as int, l as int);
            assert(exts_view(ret@) =~= before + p + seq![ExtV::Node(nv)]);
            assert forall|i: int| 0 <= i < exts_view(ret@).len() implies !is_brace_ext(#[trigger] exts_view(ret@)[i]) by {
                if i < before.len() {
                    assert(exts_view(ret@)[i] == before[i]);
                } else if i < before.len() + p.len() {
                    assert(exts_view(ret@)[i] == p[i - before.len()]);
                }
            }
            if let Ok(rest) = promote_groups(t, ranges@, (k + 1) as nat, r + 1) {
                assert(before + (p + seq![ExtV::Node(nv)] + rest) =~= exts_view(ret@) + rest);
            }
            if k + 1 < ranges@.len() {
                assert(ranges@[k as int].1 < ranges@[k + 1].0);
            }
        }
        from = r + 1;
        k += 1;
    }
    let ghost before = exts_view(ret@);
    copy_plain(toks, from, toks.len(), &mut ret);
    proof {
        lemma_plain_no_braces(t, from as int, t.len() as int);
        let p = plain(t, from as int, t.len() as int);
        assert forall|i: int| 0 <= i < exts_view(ret@).len() implies !is_brace_ext(#[trigger] exts_view(ret@)[i]) by {
            if i < before.len() {
                assert(exts_view(ret@)[i] == before[i]);
            } else {
                assert(exts_view(ret@)[i] == p[i - before.len()]);
            }
        }
    }
    Ok(ret)
}

pub(crate) fn parse4(toks: &[Token]) -> (res: Result<TreeNode, AppError>)
    ensures
        match res {
            Ok(t) => spec_parse4(toks_view(toks@)) == Ok::<TreeV, AppError>(t@),
            Err(e) => spec_parse4(toks_view(toks@)) == Err::<TreeV, AppError>(e),
        },
    decreases toks@.len(), 2nat,
{
    let ext = promote_to_extended_tokens(toks)?;
    form_node(ext.as_slice())
}

/// The tree of `tokens` (see [`spec_parse4`]).
pub fn parse(tokens: Vec<Token>) -> (res: Result<TreeNode, AppError>)
    ensures
        match res {
            Ok(tree) => spec_parse4(toks_view(tokens@)) == Ok::<TreeV, AppError>(tree@),
            Err(err) => spec_parse4(toks_view(tokens@)) == Err::<TreeV, AppError>(err),
        },
{
    parse4(tokens.as_slice())
}

} // verus!
