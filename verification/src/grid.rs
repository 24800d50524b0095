//! The board as mathematics.
//!
//! A grid is a sequence of six columns; a column is a sequence of thirteen
//! cells, from the hidden row at index 0 down to the floor at index 12. Every
//! contract of the crate is stated over this model, so that the storage layout
//! of a board never shows in what a caller can learn.

use vstd::prelude::*;

verus! {

/// `g` has six columns of thirteen cells.
pub open spec fn grid_wf(g: Seq<Seq<u8>>) -> bool {
    &&& g.len() == 6
    &&& forall|x: int| 0 <= x < 6 ==> (#[trigger] g[x]).len() == 13
}

/// Every cell of `g` fits in three bits.
pub open spec fn cells_fit(g: Seq<Seq<u8>>) -> bool {
    forall|x: int, y: int| 0 <= x < g.len() && 0 <= y < g[x].len() ==> #[trigger] g[x][y] <= 7
}

/// `(y, x)` names a cell of the board.
pub open spec fn on_board(y: int, x: int) -> bool {
    0 <= y < 13 && 0 <= x < 6
}

/// The color at row `y` of column `x`.
pub open spec fn color_at(g: Seq<Seq<u8>>, y: int, x: int) -> u8 {
    g[x][y]
}

/// `g` with the cell at row `y` of column `x` replaced by `v`.
pub open spec fn put(g: Seq<Seq<u8>>, y: int, x: int, v: u8) -> Seq<Seq<u8>> {
    g.update(x, g[x].update(y, v))
}

/// The board without any cell.
pub open spec fn empty_grid() -> Seq<Seq<u8>> {
    Seq::new(6, |x: int| Seq::new(13, |y: int| 0u8))
}

/// No cell of `g` is occupied.
pub open spec fn grid_is_empty(g: Seq<Seq<u8>>) -> bool {
    forall|x: int, y: int| 0 <= x < 6 && 0 <= y < 13 ==> color_at(g, y, x) == 0
}

/// The spawn cell, row 1 of column 2, is free.
pub open spec fn grid_is_alive(g: Seq<Seq<u8>>) -> bool {
    color_at(g, 1, 2) == 0
}

/// The predicate "this cell is occupied".
pub open spec fn solid() -> spec_fn(u8) -> bool {
    |v: u8| v != 0
}

/// The occupied cells of a column, top to bottom.
pub open spec fn solids(col: Seq<u8>) -> Seq<u8> {
    col.filter(solid())
}

/// `n` empty cells.
pub open spec fn blanks(n: int) -> Seq<u8> {
    Seq::new(
        if n >= 0 {
            n as nat
        } else {
            0
        },
        |i: int| 0u8,
    )
}

/// A column after gravity: its occupied cells, in their order, resting on
/// the floor, with the empty cells above them.
pub open spec fn settle(col: Seq<u8>) -> Seq<u8> {
    blanks(col.len() - solids(col).len()) + solids(col)
}

/// A grid after gravity: every column settled on its own.
pub open spec fn fall_grid(g: Seq<Seq<u8>>) -> Seq<Seq<u8>> {
    Seq::new(g.len(), |x: int| settle(g[x]))
}

/// Occupied cells in the first `n` columns of `g`.
pub open spec fn occupied_upto(g: Seq<Seq<u8>>, n: int) -> nat
    decreases n,
{
    if n <= 0 {
        0
    } else {
        occupied_upto(g, n - 1) + solids(g[n - 1]).len()
    }
}

/// Occupied cells of a board.
pub open spec fn occupied(g: Seq<Seq<u8>>) -> nat {
    occupied_upto(g, 6)
}

/// The first occupied row of `col` at or below row `y`, if there is one.
pub open spec fn top_from(col: Seq<u8>, y: int) -> Option<int>
    decreases col.len() - y,
{
    if y < 0 || y >= col.len() {
        None
    } else if col[y] != 0 {
        Some(y)
    } else {
        top_from(col, y + 1)
    }
}

/// The topmost occupied row of a column: what a scan from row 0 downward
/// meets first.
pub open spec fn column_top(col: Seq<u8>) -> Option<int> {
    top_from(col, 0)
}

/// Empty cells hold no occupied cell.
proof fn lemma_solids_of_blanks(n: int)
    ensures
        solids(blanks(n)) == Seq::<u8>::empty(),
    decreases n,
{
    reveal(Seq::filter);
    if !(n <= 0) {
        lemma_solids_of_blanks(n - 1);
        assert(blanks(n).drop_last() =~= blanks(n - 1));
    }
}

/// A column without an empty cell is its own list of occupied cells.
proof fn lemma_solids_of_solid(col: Seq<u8>)
    requires
        forall|i: int| 0 <= i < col.len() ==> #[trigger] col[i] != 0,
    ensures
        solids(col) == col,
    decreases col.len(),
{
    reveal(Seq::filter);
    if col.len() > 0 {
        lemma_solids_of_solid(col.drop_last());
    }
}

/// The occupied cells of a column of one cell.
pub(crate) proof fn lemma_solids_single(v: u8)
    ensures
        solids(seq![v]) == if v != 0 {
            seq![v]
        } else {
            Seq::<u8>::empty()
        },
{
    reveal(Seq::filter);
    let s = seq![v];
    assert(s.drop_last().filter(solid()) =~= Seq::<u8>::empty());
}

/// Gravity keeps the occupied cells of a column, and their order.
pub(crate) proof fn lemma_settle_keeps_solids(col: Seq<u8>)
    ensures
        solids(settle(col)) == solids(col),
{
    let n = col.len() - solids(col).len();
    lemma_solids_of_blanks(n);
    lemma_solids_of_solid(solids(col));
}

/// Where a bottom-up pass over one column stands, with rows `i` and below
/// done: the rows above `i` are untouched, `space` empty rows follow, and
/// under them lie the occupied cells that `col` has from row `i` down.
pub open spec fn sinking(col: Seq<u8>, cur: Seq<u8>, i: int, space: int) -> bool {
    &&& cur.len() == col.len()
    &&& 0 <= i <= col.len()
    &&& 0 <= space <= col.len() - i
    &&& forall|k: int| 0 <= k < i ==> cur[k] == col[k]
    &&& forall|k: int| i <= k < i + space ==> cur[k] == 0
    &&& cur.subrange(i + space, cur.len() as int) == solids(col.subrange(i, col.len() as int))
}

/// Before the pass every row is untouched.
pub(crate) proof fn lemma_sink_start(col: Seq<u8>)
    ensures
        sinking(col, col, col.len() as int, 0),
{
    reveal(Seq::filter);
}

/// The occupied cells from row `i` down: those of row `i`, then those below.
proof fn lemma_solids_step(col: Seq<u8>, i: int)
    requires
        0 <= i < col.len(),
    ensures
        solids(col.subrange(i, col.len() as int)) == solids(seq![col[i]]) + solids(
            col.subrange(i + 1, col.len() as int),
        ),
{
    let n = col.len() as int;
    assert(col.subrange(i, n) =~= seq![col[i]] + col.subrange(i + 1, n));
}

/// The pass meets an empty cell: one more empty row above the settled ones.
pub(crate) proof fn lemma_sink_blank(col: Seq<u8>, cur: Seq<u8>, i: int, space: int)
    requires
        0 <= i,
        sinking(col, cur, i + 1, space),
        cur[i] == 0,
    ensures
        sinking(col, cur, i, space + 1),
{
    lemma_solids_step(col, i);
    lemma_solids_single(col[i]);
}

/// The pass meets an occupied cell with nothing empty under it: it stays.
pub(crate) proof fn lemma_sink_rest(col: Seq<u8>, cur: Seq<u8>, i: int)
    requires
        0 <= i,
        sinking(col, cur, i + 1, 0),
        cur[i] != 0,
    ensures
        sinking(col, cur, i, 0),
{
    let n = col.len() as int;
    lemma_solids_step(col, i);
    lemma_solids_single(col[i]);
    assert(cur.subrange(i, n) =~= seq![cur[i]] + cur.subrange(i + 1, n));
}

/// The pass meets an occupied cell above `space` empty rows: it drops onto
/// the settled cells.
pub(crate) proof fn lemma_sink_swap(col: Seq<u8>, cur: Seq<u8>, i: int, space: int)
    requires
        0 <= i,
        0 < space,
        sinking(col, cur, i + 1, space),
        cur[i] != 0,
    ensures
        cur[i] == col[i],
        cur[i + space] == 0,
        sinking(col, cur.update(i, 0u8).update(i + space, col[i]), i, space),
{
    let n = col.len() as int;
    let next = cur.update(i, 0u8).update(i + space, col[i]);
    lemma_solids_step(col, i);
    lemma_solids_single(col[i]);
    assert(next.subrange(i + space, n) =~= seq![col[i]] + cur.subrange(i + 1 + space, n));
}

/// The pass has reached the top: the column is settled.
pub(crate) proof fn lemma_sink_done(col: Seq<u8>, cur: Seq<u8>, space: int)
    requires
        sinking(col, cur, 0, space),
    ensures
        cur == settle(col),
{
    let n = col.len() as int;
    assert(col.subrange(0, n) =~= col);
}

/// Settling a column that is one cell longer: an empty cell joins the
/// empty rows on top, an occupied one comes to lie under the others.
pub(crate) proof fn lemma_settle_push(col: Seq<u8>, v: u8)
    ensures
        settle(col.push(v)) == if v == 0 {
            seq![0u8] + settle(col)
        } else {
            settle(col).push(v)
        },
{
    lemma_solids_single(v);
    assert(col.push(v) =~= col + seq![v]);
}

/// A write keeps the shape of the grid and changes the one cell.
pub(crate) proof fn lemma_put_wf(g: Seq<Seq<u8>>, y: int, x: int, v: u8)
    requires
        grid_wf(g),
        on_board(y, x),
    ensures
        grid_wf(put(g, y, x, v)),
        color_at(put(g, y, x, v), y, x) == v,
        forall|i: int, j: int|
            #![trigger color_at(put(g, y, x, v), i, j)]
            on_board(i, j) && (i != y || j != x) ==> color_at(put(g, y, x, v), i, j) == color_at(
                g,
                i,
                j,
            ),
{
}

/// Two grids of the right shape with the same color in every cell are one grid.
pub(crate) proof fn lemma_grid_ext(a: Seq<Seq<u8>>, b: Seq<Seq<u8>>)
    requires
        grid_wf(a),
        grid_wf(b),
        forall|x: int, y: int| 0 <= x < 6 && 0 <= y < 13 ==> color_at(a, y, x) == color_at(b, y, x),
    ensures
        a == b,
{
    assert forall|x: int| 0 <= x < 6 implies a[x] == b[x] by {
        assert forall|y: int| 0 <= y < 13 implies a[x][y] == b[x][y] by {
            assert(color_at(a, y, x) == color_at(b, y, x));
        }
    }
}

/// Gravity is idempotent: a board that has fallen does not change when it
/// falls again.
pub proof fn lemma_gravity_idempotent(g: Seq<Seq<u8>>)
    ensures
        fall_grid(fall_grid(g)) == fall_grid(g),
{
    let once = fall_grid(g);
    let twice = fall_grid(once);
    assert forall|x: int| 0 <= x < g.len() implies twice[x] == once[x] by {
        lemma_settle_keeps_solids(g[x]);
    }
}

/// A settled column holds the cells of the column as it was, empty ones
/// included, each as often as before.
pub proof fn lemma_settle_permutes(col: Seq<u8>)
    ensures
        settle(col).to_multiset() == col.to_multiset(),
    decreases col.len(),
{
    if col.len() == 0 {
        assert(settle(col) =~= col);
    } else {
        let rest = col.drop_last();
        let v = col.last();
        assert(rest.push(v) =~= col);
        lemma_settle_permutes(rest);
        lemma_settle_push(rest, v);
        vstd::seq_lib::to_multiset_build(rest, v);
        if v == 0 {
            vstd::seq_lib::lemma_multiset_commutative(seq![0u8], settle(rest));
            vstd::seq_lib::to_multiset_build(Seq::<u8>::empty(), 0u8);
            assert(Seq::<u8>::empty().to_multiset() =~= vstd::multiset::Multiset::<u8>::empty()) by {
                Seq::<u8>::empty().to_multiset_ensures();
            }
        } else {
            vstd::seq_lib::to_multiset_build(settle(rest), v);
        }
    }
}

/// Gravity conserves every column: it holds the same cells as before, each
/// color as often, and its occupied cells in the same order. Only the
/// places of the cells change.
pub proof fn lemma_gravity_conserves(g: Seq<Seq<u8>>, x: int)
    requires
        0 <= x < g.len(),
    ensures
        solids(fall_grid(g)[x]) == solids(g[x]),
        solids(fall_grid(g)[x]).to_multiset() == solids(g[x]).to_multiset(),
        fall_grid(g)[x].to_multiset() == g[x].to_multiset(),
        fall_grid(g)[x].len() == g[x].len(),
{
    lemma_settle_keeps_solids(g[x]);
    lemma_settle_permutes(g[x]);
}

} // verus!
