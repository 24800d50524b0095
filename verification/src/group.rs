//! Matching groups and chains, as mathematics.
//!
//! A cell is a pair `(row, column)`. Groups live in rows 1 to 12: the hidden
//! row 0 belongs to no group and is never cleared.

use crate::grid::{
    color_at, fall_grid, grid_wf, lemma_settle_keeps_solids, occupied, occupied_upto, solids,
};
use vstd::prelude::*;

verus! {

/// `c` lies in the rows where groups form.
pub open spec fn in_play(c: (int, int)) -> bool {
    1 <= c.0 < 13 && 0 <= c.1 < 6
}

/// `v` is a color that forms groups: neither empty nor the obstacle.
pub open spec fn matchable(v: u8) -> bool {
    v >= 2
}

/// `a` and `b` share an edge.
pub open spec fn adjacent(a: (int, int), b: (int, int)) -> bool {
    ||| (a.1 == b.1 && (a.0 == b.0 + 1 || a.0 + 1 == b.0))
    ||| (a.0 == b.0 && (a.1 == b.1 + 1 || a.1 + 1 == b.1))
}

/// The color of cell `c`.
pub open spec fn cell_color(g: Seq<Seq<u8>>, c: (int, int)) -> u8 {
    color_at(g, c.0, c.1)
}

/// Cells `i` and `i + 1` of `p` share an edge.
pub open spec fn step_ok(p: Seq<(int, int)>, i: int) -> bool {
    adjacent(p[i], p[i + 1])
}

/// `p` walks from cell to adjacent cell through one color, in play.
pub open spec fn is_path(g: Seq<Seq<u8>>, p: Seq<(int, int)>) -> bool {
    &&& p.len() >= 1
    &&& forall|i: int|
        0 <= i < p.len() ==> in_play(#[trigger] p[i]) && cell_color(g, p[i]) == cell_color(g, p[0])
    &&& forall|i: int| 0 <= i < p.len() - 1 ==> #[trigger] step_ok(p, i)
}

/// `p` is a path from `a` to `b`.
pub open spec fn joins(g: Seq<Seq<u8>>, p: Seq<(int, int)>, a: (int, int), b: (int, int)) -> bool {
    is_path(g, p) && p[0] == a && p.last() == b
}

/// `a` and `b` are connected through cells of their color.
pub open spec fn linked(g: Seq<Seq<u8>>, a: (int, int), b: (int, int)) -> bool {
    exists|p: Seq<(int, int)>| #[trigger] joins(g, p, a, b)
}

/// The cells connected with `a`: its group.
pub open spec fn group(g: Seq<Seq<u8>>, a: (int, int)) -> Set<(int, int)> {
    Set::new(|b: (int, int)| linked(g, a, b))
}

/// `a` belongs to a matching group: four or more connected cells of one
/// matchable color.
pub open spec fn pops(g: Seq<Seq<u8>>, a: (int, int)) -> bool {
    in_play(a) && matchable(cell_color(g, a)) && group(g, a).len() >= 4
}

/// Some matching group stands on the board.
pub open spec fn has_group(g: Seq<Seq<u8>>) -> bool {
    exists|c: (int, int)| #[trigger] pops(g, c)
}

/// `n` is a neighbor of `c` that belongs to a matching group.
pub open spec fn popping_neighbor(g: Seq<Seq<u8>>, c: (int, int), n: (int, int)) -> bool {
    adjacent(c, n) && pops(g, n)
}

/// `c` is emptied by one round: it belongs to a matching group, or it is an
/// obstacle in play beside a cell of one.
pub open spec fn cleared(g: Seq<Seq<u8>>, c: (int, int)) -> bool {
    ||| pops(g, c)
    ||| (in_play(c) && cell_color(g, c) == 1 && exists|n: (int, int)|
        #[trigger] popping_neighbor(g, c, n))
}

/// The board after the clearing of one round, before gravity.
pub open spec fn clear_round(g: Seq<Seq<u8>>) -> Seq<Seq<u8>> {
    Seq::new(
        6,
        |x: int|
            Seq::new(
                13,
                |y: int|
                    if cleared(g, (y, x)) {
                        0u8
                    } else {
                        color_at(g, y, x)
                    },
            ),
    )
}

/// One full round: clearing, then gravity.
pub open spec fn chain_step(g: Seq<Seq<u8>>) -> Seq<Seq<u8>> {
    fall_grid(clear_round(g))
}

/// The board that a chain leaves, and the number of its rounds.
pub open spec fn resolve(g: Seq<Seq<u8>>) -> (Seq<Seq<u8>>, nat)
    decreases occupied(g),
    when grid_wf(g)
    via resolve_terminates
{
    if has_group(g) {
        let r = resolve(chain_step(g));
        (r.0, r.1 + 1)
    } else {
        (g, 0)
    }
}

/// Every round of a chain leaves fewer cells.
#[via_fn]
proof fn resolve_terminates(g: Seq<Seq<u8>>) {
    if has_group(g) {
        lemma_round_shrinks(g);
    }
}

/// The board as the chain leaves it.
pub open spec fn settled(g: Seq<Seq<u8>>) -> Seq<Seq<u8>> {
    resolve(g).0
}

/// The chain length of a board: rounds that cleared at least one group.
pub open spec fn chain_length(g: Seq<Seq<u8>>) -> nat {
    resolve(g).1
}

/// A cell in play is linked with itself.
pub(crate) proof fn lemma_linked_self(g: Seq<Seq<u8>>, a: (int, int))
    requires
        in_play(a),
    ensures
        linked(g, a, a),
{
    let p = seq![a];
    assert(joins(g, p, a, a));
}

/// A path grows by one adjacent cell of its color.
pub(crate) proof fn lemma_linked_grow(g: Seq<Seq<u8>>, a: (int, int), b: (int, int), c: (int, int))
    requires
        linked(g, a, b),
        adjacent(b, c),
        in_play(c),
        cell_color(g, c) == cell_color(g, b),
    ensures
        linked(g, a, c),
{
    let p = choose|p: Seq<(int, int)>| #[trigger] joins(g, p, a, b);
    let q = p.push(c);
    assert forall|i: int| 0 <= i < q.len() - 1 implies #[trigger] step_ok(q, i) by {
        if i < p.len() - 1 {
            assert(step_ok(p, i));
        }
    }
    assert(joins(g, q, a, c));
}

/// Links go both ways.
pub(crate) proof fn lemma_linked_back(g: Seq<Seq<u8>>, a: (int, int), b: (int, int))
    requires
        linked(g, a, b),
    ensures
        linked(g, b, a),
{
    let p = choose|p: Seq<(int, int)>| #[trigger] joins(g, p, a, b);
    let q = p.reverse();
    let n = p.len() as int;
    assert forall|i: int| 0 <= i < q.len() - 1 implies #[trigger] step_ok(q, i) by {
        assert(step_ok(p, n - 2 - i));
    }
    assert(joins(g, q, b, a));
}

/// Links chain up.
proof fn lemma_linked_chain(g: Seq<Seq<u8>>, a: (int, int), b: (int, int), c: (int, int))
    requires
        linked(g, a, b),
        linked(g, b, c),
    ensures
        linked(g, a, c),
{
    let p = choose|p: Seq<(int, int)>| #[trigger] joins(g, p, a, b);
    let r = choose|r: Seq<(int, int)>| #[trigger] joins(g, r, b, c);
    lemma_paths_chain(g, p, r, r.len() as int);
    let q = p + r.subrange(1, r.len() as int);
    assert(joins(g, q, a, c));
}

/// `p` followed by the first `k` cells of `r` after `r[0]`, where `r` starts
/// at the end of `p`, is a path.
proof fn lemma_paths_chain(g: Seq<Seq<u8>>, p: Seq<(int, int)>, r: Seq<(int, int)>, k: int)
    requires
        is_path(g, p),
        is_path(g, r),
        r[0] == p.last(),
        1 <= k <= r.len(),
    ensures
        is_path(g, p + r.subrange(1, k)),
        (p + r.subrange(1, k)).last() == r[k - 1],
        (p + r.subrange(1, k))[0] == p[0],
{
    let q = p + r.subrange(1, k);
    let n = p.len() as int;
    assert forall|i: int| 0 <= i < q.len() - 1 implies #[trigger] step_ok(q, i) by {
        if i < n - 1 {
            assert(step_ok(p, i));
        } else {
            assert(step_ok(r, i - n + 1));
        }
    }
}

/// Connected cells have one group.
pub(crate) proof fn lemma_group_shared(g: Seq<Seq<u8>>, a: (int, int), b: (int, int))
    requires
        linked(g, a, b),
    ensures
        group(g, a) == group(g, b),
{
    lemma_linked_back(g, a, b);
    assert forall|c: (int, int)| linked(g, a, c) <==> linked(g, b, c) by {
        if linked(g, a, c) {
            lemma_linked_chain(g, b, a, c);
        }
        if linked(g, b, c) {
            lemma_linked_chain(g, a, b, c);
        }
    }
}

/// `s` holds every neighbor in play that has the color of one of its cells.
pub open spec fn closed_under_links(g: Seq<Seq<u8>>, s: Set<(int, int)>) -> bool {
    forall|a: (int, int), b: (int, int)|
        #![trigger s.contains(a), adjacent(a, b)]
        s.contains(a) && adjacent(a, b) && in_play(b) && cell_color(g, b) == cell_color(g, a)
            ==> s.contains(b)
}

/// A path that starts in a set closed under links stays in it.
proof fn lemma_path_stays(g: Seq<Seq<u8>>, s: Set<(int, int)>, p: Seq<(int, int)>, i: int)
    requires
        closed_under_links(g, s),
        is_path(g, p),
        s.contains(p[0]),
        0 <= i < p.len(),
    ensures
        s.contains(p[i]),
    decreases i,
{
    if i > 0 {
        lemma_path_stays(g, s, p, i - 1);
        assert(step_ok(p, i - 1));
    }
}

/// A set that is closed under links and holds `a` holds the group of `a`.
pub(crate) proof fn lemma_closed_holds_group(g: Seq<Seq<u8>>, s: Set<(int, int)>, a: (int, int))
    requires
        closed_under_links(g, s),
        s.contains(a),
    ensures
        group(g, a).subset_of(s),
{
    assert forall|b: (int, int)| group(g, a).contains(b) implies s.contains(b) by {
        let p = choose|p: Seq<(int, int)>| #[trigger] joins(g, p, a, b);
        lemma_path_stays(g, s, p, p.len() - 1);
    }
}

/// The place of a cell in a count of the board, row by row.
pub open spec fn cell_index(c: (int, int)) -> int {
    c.0 * 6 + c.1
}

/// Distinct cells of the board are at most 78.
pub(crate) proof fn lemma_distinct_cells_bound(s: Seq<(int, int)>)
    requires
        s.no_duplicates(),
        forall|i: int| 0 <= i < s.len() ==> in_play(#[trigger] s[i]),
    ensures
        s.len() <= 78,
{
    let t = Seq::new(s.len(), |i: int| cell_index(s[i]));
    t.unique_seq_to_set();
    vstd::set_lib::lemma_int_range(0, 78);
    let r = vstd::set_lib::set_int_range(0, 78);
    vstd::set_lib::lemma_len_subset(t.to_set(), r);
}

/// A column in which some cells were emptied holds no more occupied cells
/// than before.
proof fn lemma_thinned(a: Seq<u8>, b: Seq<u8>)
    requires
        a.len() == b.len(),
        forall|i: int| 0 <= i < a.len() ==> b[i] == a[i] || b[i] == 0,
    ensures
        solids(b).len() <= solids(a).len(),
    decreases a.len(),
{
    reveal(Seq::filter);
    if a.len() > 0 {
        lemma_thinned(a.drop_last(), b.drop_last());
    }
}

/// A column in which an occupied cell was emptied holds fewer occupied
/// cells than before.
proof fn lemma_thinned_more(a: Seq<u8>, b: Seq<u8>, k: int)
    requires
        a.len() == b.len(),
        forall|i: int| 0 <= i < a.len() ==> b[i] == a[i] || b[i] == 0,
        0 <= k < a.len(),
        a[k] != 0,
        b[k] == 0,
    ensures
        solids(b).len() < solids(a).len(),
    decreases a.len(),
{
    reveal(Seq::filter);
    if k == a.len() - 1 {
        lemma_thinned(a.drop_last(), b.drop_last());
    } else {
        lemma_thinned_more(a.drop_last(), b.drop_last(), k);
    }
}

/// Gravity moves cells and removes none.
proof fn lemma_fall_keeps_count(g: Seq<Seq<u8>>)
    requires
        grid_wf(g),
    ensures
        occupied(fall_grid(g)) == occupied(g),
{
    reveal_with_fuel(occupied_upto, 7);
    lemma_settle_keeps_solids(g[0]);
    lemma_settle_keeps_solids(g[1]);
    lemma_settle_keeps_solids(g[2]);
    lemma_settle_keeps_solids(g[3]);
    lemma_settle_keeps_solids(g[4]);
    lemma_settle_keeps_solids(g[5]);
}

/// A round that finds a matching group removes at least one cell.
pub(crate) proof fn lemma_round_shrinks(g: Seq<Seq<u8>>)
    requires
        grid_wf(g),
        has_group(g),
    ensures
        occupied(chain_step(g)) < occupied(g),
{
    let c = clear_round(g);
    lemma_fall_keeps_count(c);
    reveal_with_fuel(occupied_upto, 7);
    lemma_thinned(g[0], c[0]);
    lemma_thinned(g[1], c[1]);
    lemma_thinned(g[2], c[2]);
    lemma_thinned(g[3], c[3]);
    lemma_thinned(g[4], c[4]);
    lemma_thinned(g[5], c[5]);
    let a = choose|a: (int, int)| #[trigger] pops(g, a);
    lemma_thinned_more(g[a.1], c[a.1], a.0);
}

/// A board holds at most 78 cells.
pub(crate) proof fn lemma_occupied_bound(g: Seq<Seq<u8>>)
    requires
        grid_wf(g),
    ensures
        occupied(g) <= 78,
{
    reveal_with_fuel(occupied_upto, 7);
}

/// A chain never adds a cell, and it ends on a board of the right shape
/// without a matching group. On a board that holds no matching group it
/// has no round and changes nothing.
pub proof fn lemma_chain_never_grows(g: Seq<Seq<u8>>)
    requires
        grid_wf(g),
    ensures
        occupied(settled(g)) <= occupied(g),
        grid_wf(settled(g)),
        !has_group(settled(g)),
        !has_group(g) ==> chain_length(g) == 0 && settled(g) == g,
    decreases occupied(g),
{
    if has_group(g) {
        lemma_round_shrinks(g);
        lemma_chain_never_grows(chain_step(g));
    }
}

/// A matching group stands on a board exactly if its chain has at least
/// one round: the check for a pending match and the count of the chain
/// agree.
pub proof fn lemma_pending_match(g: Seq<Seq<u8>>)
    requires
        grid_wf(g),
    ensures
        has_group(g) <==> chain_length(g) >= 1,
{
}

} // verus!
