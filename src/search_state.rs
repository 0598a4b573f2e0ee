//! The state of a resumable search: a stack of committed cells over a board,
//! and how each decision keeps it in step with the plain search.

use vstd::prelude::*;
use crate::board::{
    fills_fit, lemma_place_keeps_fit, lemma_unset_keeps_fit,
    board_ok, candidate_at, dfs, first_empty, in_bounds, index_of, lemma_fill_first_empty,
    lemma_first_empty, lemma_first_empty_is, lemma_search_starts_at_first_empty, next_digit,
    resume, search,
};

verus! {

/// Row-major positions of the cells on a stack.
pub open spec fn positions(st: Seq<[usize; 2]>) -> Seq<int> {
    st.map_values(|c: [usize; 2]| index_of(c))
}

/// Stack `st` over board `b` is a point of the search that started from `g0`:
/// the stacked cells lie on the board in increasing order, were empty in
/// `g0`, and all but the last hold a digit; every cell before the last one is
/// filled; the other cells are as in `g0`; every digit placed fits its row
/// and column; and resuming from here yields what
/// searching `g0` yields.
pub open spec fn searching(st: Seq<[usize; 2]>, g0: Seq<Option<u32>>, b: Seq<Option<u32>>) -> bool {
    let s = positions(st);
    &&& board_ok(b)
    &&& board_ok(g0)
    &&& forall|i: int| 0 <= i < st.len() ==> in_bounds(#[trigger] st[i])
    &&& forall|i: int, j: int| 0 <= i < j < s.len() ==> s[i] < s[j]
    &&& forall|i: int| 0 <= i < s.len() ==> (#[trigger] g0[s[i]]) is None
    &&& forall|i: int| 0 <= i < s.len() - 1 ==> (#[trigger] b[s[i]]) is Some
    &&& forall|i: int| 0 <= i < 81 && !s.contains(i) ==> (#[trigger] b[i]) == g0[i]
    &&& s.len() > 0 ==> forall|i: int| 0 <= i < s.last() ==> (#[trigger] b[i]) is Some
    &&& fills_fit(b, g0)
    &&& resume(b, s) == search(g0)
}

/// 12 to the power `e`, and 1 where `e` is not positive.
pub open spec fn pow12(e: int) -> nat
    decreases e,
{
    if e <= 0 {
        1
    } else {
        12 * pow12(e - 1)
    }
}

/// Weight of a stacked cell: the fewer digits it has left to try, the less
/// it weighs; a cell not yet tried weighs most.
pub open spec fn trial_weight(v: Option<u32>) -> nat {
    match v {
        Some(d) => (10 - d) as nat,
        None => 11,
    }
}

/// A bound on the search left from stack positions `s` over board `b`: the
/// weights of the stacked cells, each scaled so that a cell outweighs all
/// the cells after it. Every decision makes it smaller.
pub open spec fn remaining(b: Seq<Option<u32>>, s: Seq<int>) -> nat
    decreases s.len(),
{
    if s.len() == 0 {
        0
    } else {
        remaining(b, s.drop_last()) + trial_weight(b[s.last()]) * pow12(80 - s.last())
    }
}

/// Powers of 12 are positive and grow with the exponent.
pub proof fn lemma_pow12(a: int, b: int)
    requires
        a <= b,
    ensures
        1 <= pow12(a) <= pow12(b),
    decreases b - a, if b > 0 { b } else { 0 },
{
    if a < b {
        lemma_pow12(a, b - 1);
        if b > 0 {
            lemma_pow12(b - 1, b - 1);
        }
    } else if a > 0 {
        lemma_pow12(a - 1, a - 1);
    }
}

/// The bound only reads the stacked cells.
pub proof fn lemma_remaining_frame(b: Seq<Option<u32>>, c: Seq<Option<u32>>, s: Seq<int>)
    requires
        forall|i: int| 0 <= i < s.len() ==> b[#[trigger] s[i]] == c[s[i]],
    ensures
        remaining(b, s) == remaining(c, s),
    decreases s.len(),
{
    if s.len() > 0 {
        let t = s.drop_last();
        assert forall|i: int| 0 <= i < t.len() implies b[#[trigger] t[i]] == c[t[i]] by {
            assert(t[i] == s[i]);
        }
        lemma_remaining_frame(b, c, t);
        assert(b[s[s.len() - 1]] == c[s[s.len() - 1]]);
    }
}

/// A search that has just started at the first empty cell of `b`.
pub proof fn lemma_searching_start(b: Seq<Option<u32>>, c: [usize; 2])
    requires
        board_ok(b),
        in_bounds(c),
        index_of(c) == first_empty(b),
    ensures
        searching(seq![c], b, b),
{
    let p = first_empty(b);
    lemma_first_empty(b);
    lemma_search_starts_at_first_empty(b);
    assert(positions(seq![c]) =~= seq![p]);
    assert(b.update(p, None) =~= b);
    assert(seq![p].drop_last() =~= Seq::<int>::empty());
    assert(fills_fit(b, b));
    assert(resume(b.update(p, None), Seq::<int>::empty()) == None::<Seq<Option<u32>>>);
}

/// Placing digit `n`, the first that fits from where the last stacked cell's
/// trial had come, and stacking the next empty cell `c`, keeps the search in
/// step.
pub proof fn lemma_searching_advance(
    st: Seq<[usize; 2]>,
    g0: Seq<Option<u32>>,
    g: Seq<Option<u32>>,
    n: u32,
    c: [usize; 2],
)
    requires
        searching(st, g0, g),
        st.len() > 0,
        1 <= n <= 9,
        dfs(g.update(index_of(st.last()), None), index_of(st.last()), next_digit(g[index_of(st.last())]))
            == dfs(g.update(index_of(st.last()), None), index_of(st.last()), n),
        candidate_at(g.update(index_of(st.last()), None), index_of(st.last()), n),
        next_digit(g[index_of(st.last())]) <= n,
        in_bounds(c),
        index_of(c) == first_empty(g.update(index_of(st.last()), Some(n))),
    ensures
        searching(st.push(c), g0, g.update(index_of(st.last()), Some(n))),
        index_of(st.last()) < index_of(c),
        remaining(g.update(index_of(st.last()), Some(n)), positions(st.push(c))) < remaining(
            g,
            positions(st),
        ),
{
    let s = positions(st);
    let p = index_of(st.last());
    let base = g.update(p, None);
    let g1 = g.update(p, Some(n));
    let q = index_of(c);
    let s1 = positions(st.push(c));
    assert(s.last() == p);
    assert(base.update(p, Some(n)) =~= g1);
    lemma_unset_keeps_fit(g0, g, p);
    lemma_place_keeps_fit(g0, base, p, n);
    lemma_first_empty_is(base, p);
    lemma_fill_first_empty(base, p, n);
    lemma_search_starts_at_first_empty(g1);
    lemma_first_empty(g1);
    assert(s1 =~= s.push(q));
    assert(g1.update(q, None) =~= g1);
    assert(g1.update(p, None) =~= base);
    assert(s1.drop_last() =~= s);
    assert(s1.last() == q);
    assert(resume(g1, s) == match dfs(base, p, (n + 1) as u32) {
        Some(r) => Some(r),
        None => resume(base, s.drop_last()),
    });
    assert(resume(g1, s1) == resume(g, s));
    assert forall|i: int| 0 <= i < 81 && !s1.contains(i) implies (#[trigger] g1[i]) == g0[i] by {
        assert(!s.contains(i)) by {
            if s.contains(i) {
                let k = choose|k: int| 0 <= k < s.len() && s[k] == i;
                assert(s1[k] == i);
            }
        }
        if i == p {
            assert(s[s.len() - 1] == p);
        }
    }
    assert forall|i: int| 0 <= i < s1.len() implies (#[trigger] g0[s1[i]]) is None by {
        if i == s.len() {
            if s.contains(q) {
                let k = choose|k: int| 0 <= k < s.len() && s[k] == q;
                assert(s[k] <= p);
            }
        }
    }
    // The bound: the last cell loses at least one digit's weight, which
    // outweighs the new cell.
    let t = s.drop_last();
    assert forall|i: int| 0 <= i < t.len() implies g[#[trigger] t[i]] == g1[t[i]] by {
        assert(t[i] == s[i]);
        assert(s[i] < p);
    }
    lemma_remaining_frame(g, g1, t);
    assert(s1.drop_last() == s);
    assert(remaining(g1, s1) == remaining(g1, s) + 11 * pow12(80 - q));
    assert(remaining(g1, s) == remaining(g1, t) + trial_weight(g1[p]) * pow12(80 - p));
    assert(remaining(g, s) == remaining(g, t) + trial_weight(g[p]) * pow12(80 - p));
    lemma_pow12(80 - q, 79 - p);
    assert(pow12(80 - p) == 12 * pow12(79 - p));
    let w = trial_weight(g[p]) as int;
    let pp = pow12(80 - p) as int;
    let r = pow12(79 - p) as int;
    assert(trial_weight(g1[p]) == 10 - n);
    assert(w >= 11 - n);
    assert(w * pp >= (11 - n) * pp) by (nonlinear_arith)
        requires
            w >= 11 - n,
            pp >= 0,
    ;
    assert((11 - n) * pp == (10 - n) * pp + pp) by (nonlinear_arith);
}

/// When the last placement of `n` fills the board, that board is what the
/// search yields.
pub proof fn lemma_searching_full(
    st: Seq<[usize; 2]>,
    g0: Seq<Option<u32>>,
    g: Seq<Option<u32>>,
    n: u32,
)
    requires
        searching(st, g0, g),
        st.len() > 0,
        1 <= n <= 9,
        dfs(g.update(index_of(st.last()), None), index_of(st.last()), next_digit(g[index_of(st.last())]))
            == dfs(g.update(index_of(st.last()), None), index_of(st.last()), n),
        candidate_at(g.update(index_of(st.last()), None), index_of(st.last()), n),
        first_empty(g.update(index_of(st.last()), Some(n))) == 81,
    ensures
        search(g0) == Some(g.update(index_of(st.last()), Some(n))),
        board_ok(g.update(index_of(st.last()), Some(n))),
{
    let s = positions(st);
    let p = index_of(st.last());
    let base = g.update(p, None);
    let g1 = g.update(p, Some(n));
    assert(s.last() == p);
    assert(base.update(p, Some(n)) =~= g1);
    lemma_first_empty_is(base, p);
    lemma_fill_first_empty(base, p, n);
    lemma_search_starts_at_first_empty(g1);
}

/// When the last stacked cell has no digit left, emptying it and dropping it
/// from the stack keeps the search in step; with nothing left on the stack
/// the search has failed and the board is the one it started from.
pub proof fn lemma_searching_back(st: Seq<[usize; 2]>, g0: Seq<Option<u32>>, g: Seq<Option<u32>>)
    requires
        searching(st, g0, g),
        st.len() > 0,
        dfs(g.update(index_of(st.last()), None), index_of(st.last()), next_digit(g[index_of(st.last())]))
            is None,
    ensures
        searching(st.drop_last(), g0, g.update(index_of(st.last()), None)),
        st.len() == 1 ==> search(g0) is None && g.update(index_of(st.last()), None) == g0,
        remaining(g.update(index_of(st.last()), None), positions(st.drop_last())) < remaining(
            g,
            positions(st),
        ),
{
    let s = positions(st);
    let p = index_of(st.last());
    let base = g.update(p, None);
    let s1 = positions(st.drop_last());
    assert(s.last() == p);
    assert(s1 =~= s.drop_last());
    lemma_unset_keeps_fit(g0, g, p);
    assert forall|i: int| 0 <= i < 81 && !s1.contains(i) implies (#[trigger] base[i]) == g0[i] by {
        if i != p {
            assert(!s.contains(i)) by {
                if s.contains(i) {
                    let k = choose|k: int| 0 <= k < s.len() && s[k] == i;
                    assert(s1[k] == i);
                }
            }
        } else {
            assert(g0[s[s.len() - 1]] is None);
        }
    }
    if s1.len() > 0 {
        assert(s1.last() < p);
    }
    if st.len() == 1 {
        assert(base =~= g0);
    }
    assert forall|i: int| 0 <= i < s1.len() implies g[#[trigger] s1[i]] == base[s1[i]] by {
        assert(s1[i] == s[i]);
        assert(s[i] < p);
    }
    lemma_remaining_frame(g, base, s1);
    lemma_pow12(80 - p, 80 - p);
    let w = trial_weight(g[p]) as int;
    let pp = pow12(80 - p) as int;
    assert(w >= 1);
    assert(w * pp >= 1) by (nonlinear_arith)
        requires
            w >= 1,
            pp >= 1,
    ;
}

} // verus!
