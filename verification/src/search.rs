//! The placement search, as mathematics.
//!
//! A piece is a pair of colors. At every depth the search tries 24
//! candidates in a fixed order: the anchor columns 2, 4, 3, 5, 1, 0; for
//! each, first the piece as given and then flipped; for each, first upright
//! (the second cell on top of the first) and then flat (the second cell in
//! the column to the right).

use crate::grid::{
    color_at, column_top, grid_is_alive, grid_wf, lemma_solids_single, occupied, occupied_upto,
    on_board, put, solids, top_from,
};
use crate::group::{chain_length, has_group};
use vstd::prelude::*;

verus! {

/// The row in which a cell dropped into `col` comes to rest: the one above
/// the topmost occupied cell, the floor in an empty column, none where the
/// hidden row is occupied.
pub open spec fn landing(col: Seq<u8>) -> Option<int> {
    match column_top(col) {
        None => Some(12),
        Some(y) => if y == 0 {
            None
        } else {
            Some(y - 1)
        },
    }
}

/// The anchor column of candidate `k`.
pub open spec fn anchor(k: int) -> int {
    let q = k / 4;
    if q == 0 {
        2
    } else if q == 1 {
        4
    } else if q == 2 {
        3
    } else if q == 3 {
        5
    } else if q == 4 {
        1
    } else {
        0
    }
}

/// Whether candidate `k` drops the second color of the piece first.
pub open spec fn flipped(k: int) -> bool {
    (k / 2) % 2 == 1
}

/// Whether candidate `k` lays the piece flat.
pub open spec fn flat(k: int) -> bool {
    k % 2 == 1
}

/// The color that candidate `k` drops into the anchor column.
pub open spec fn first_color(piece: (u8, u8), k: int) -> u8 {
    if flipped(k) {
        piece.1
    } else {
        piece.0
    }
}

/// The color that candidate `k` drops after the first.
pub open spec fn second_color(piece: (u8, u8), k: int) -> u8 {
    if flipped(k) {
        piece.0
    } else {
        piece.1
    }
}

/// The column into which candidate `k` drops the second cell.
pub open spec fn second_column(k: int) -> int {
    if flat(k) {
        anchor(k) + 1
    } else {
        anchor(k)
    }
}

/// `g` with a cell of color `v` dropped into column `x`, where the column
/// has room.
pub open spec fn drop_into(g: Seq<Seq<u8>>, x: int, v: u8) -> Option<Seq<Seq<u8>>> {
    match landing(g[x]) {
        None => None,
        Some(y) => Some(put(g, y, x, v)),
    }
}

/// The board after candidate `k` has placed `piece` on `g`, where both
/// cells find room on the board.
pub open spec fn place(g: Seq<Seq<u8>>, piece: (u8, u8), k: int) -> Option<Seq<Seq<u8>>> {
    match drop_into(g, anchor(k), first_color(piece, k)) {
        None => None,
        Some(g1) => if second_column(k) >= 6 {
            None
        } else {
            drop_into(g1, second_column(k), second_color(piece, k))
        },
    }
}

/// Whether the search goes on from `child`, reached by placing piece `d` of
/// `len`: after the last piece always, before it only from a board that is
/// alive and holds no matching group.
pub open spec fn passes(child: Seq<Seq<u8>>, d: int, len: int) -> bool {
    d + 1 == len || (grid_is_alive(child) && !has_group(child))
}

/// Placing the pieces from `d` on, one accepted candidate each, leads from
/// `g` to `b`.
pub open spec fn reaches(g: Seq<Seq<u8>>, pieces: Seq<(u8, u8)>, d: int, b: Seq<Seq<u8>>) -> bool
    decreases pieces.len() - d,
{
    if d < 0 || d >= pieces.len() {
        b == g
    } else {
        exists|k: int|
            0 <= k < 24 && match #[trigger] place(g, pieces[d], k) {
                None => false,
                Some(child) => passes(child, d, pieces.len() as int) && reaches(
                    child,
                    pieces,
                    d + 1,
                    b,
                ),
            }
    }
}

/// Candidate `k` for piece `d` is accepted, and `b` is reached from the
/// board it gives.
pub open spec fn leads(
    g: Seq<Seq<u8>>,
    pieces: Seq<(u8, u8)>,
    d: int,
    k: int,
    b: Seq<Seq<u8>>,
) -> bool {
    &&& 0 <= d < pieces.len()
    &&& 0 <= k < 24
    &&& match place(g, pieces[d], k) {
        None => false,
        Some(child) => passes(child, d, pieces.len() as int) && reaches(child, pieces, d + 1, b),
    }
}

/// A board is reached through some candidate.
proof fn lemma_reaches_leads(g: Seq<Seq<u8>>, pieces: Seq<(u8, u8)>, d: int, b: Seq<Seq<u8>>)
    requires
        0 <= d < pieces.len(),
    ensures
        reaches(g, pieces, d, b) <==> exists|k: int| #[trigger] leads(g, pieces, d, k, b),
{
    if reaches(g, pieces, d, b) {
        let k = choose|k: int|
            0 <= k < 24 && match #[trigger] place(g, pieces[d], k) {
                None => false,
                Some(child) => passes(child, d, pieces.len() as int) && reaches(
                    child,
                    pieces,
                    d + 1,
                    b,
                ),
            };
        assert(leads(g, pieces, d, k, b));
    }
}

/// The first board, in the order of the search, that the pieces from `d` on
/// reach from `g` and whose chain has the length `target`.
pub open spec fn first_solution(
    g: Seq<Seq<u8>>,
    pieces: Seq<(u8, u8)>,
    target: nat,
    d: int,
) -> Option<Seq<Seq<u8>>>
    decreases pieces.len() - d, 25int,
{
    if d < 0 || d >= pieces.len() {
        if chain_length(g) == target {
            Some(g)
        } else {
            None
        }
    } else {
        first_from(g, pieces, target, d, 0)
    }
}

/// The first such board that the candidates from `k` on lead to.
pub open spec fn first_from(
    g: Seq<Seq<u8>>,
    pieces: Seq<(u8, u8)>,
    target: nat,
    d: int,
    k: int,
) -> Option<Seq<Seq<u8>>>
    decreases pieces.len() - d, 24 - k,
{
    if d < 0 || d >= pieces.len() || k < 0 || k >= 24 {
        None
    } else {
        match yield_of(g, pieces, target, d, k) {
            Some(b) => Some(b),
            None => first_from(g, pieces, target, d, k + 1),
        }
    }
}

/// What candidate `k` for piece `d` leads to first, if it is accepted.
pub open spec fn yield_of(
    g: Seq<Seq<u8>>,
    pieces: Seq<(u8, u8)>,
    target: nat,
    d: int,
    k: int,
) -> Option<Seq<Seq<u8>>>
    decreases pieces.len() - d, 0int,
{
    if d < 0 || d >= pieces.len() {
        None
    } else {
        match place(g, pieces[d], k) {
            None => None,
            Some(child) => if passes(child, d, pieces.len() as int) {
                first_solution(child, pieces, target, d + 1)
            } else {
                None
            },
        }
    }
}

/// No color of a piece is the empty cell.
pub open spec fn pieces_solid(pieces: Seq<(u8, u8)>) -> bool {
    forall|d: int| 0 <= d < pieces.len() ==> (#[trigger] pieces[d]).0 != 0 && pieces[d].1 != 0
}

/// Every board of `memo` that lies deeper in the search than `g`, which
/// stands at depth `d`, leads to no solution. The depth of a board shows in
/// its cells: two more with every piece.
pub open spec fn memo_dead(
    memo: Set<Seq<Seq<u8>>>,
    pieces: Seq<(u8, u8)>,
    target: nat,
    g: Seq<Seq<u8>>,
    d: int,
) -> bool {
    forall|b: Seq<Seq<u8>>, e: int|
        memo.contains(b) && d < e <= pieces.len() && occupied(b) - occupied(g) == 2 * (e - d)
            ==> (#[trigger] first_solution(b, pieces, target, e)) is None
}

/// Every board that `after` holds and `before` does not lies deeper in the
/// search than `g`.
pub open spec fn grown_below(
    before: Set<Seq<Seq<u8>>>,
    after: Set<Seq<Seq<u8>>>,
    g: Seq<Seq<u8>>,
) -> bool {
    &&& before.subset_of(after)
    &&& forall|b: Seq<Seq<u8>>|
        #![trigger after.contains(b)]
        after.contains(b) && !before.contains(b) ==> occupied(b) >= occupied(g) + 2
}

/// What a scan from row `y` down finds in a column.
proof fn lemma_top_from(col: Seq<u8>, y: int)
    requires
        0 <= y <= col.len(),
    ensures
        match top_from(col, y) {
            Some(t) => y <= t < col.len() && col[t] != 0 && forall|i: int|
                y <= i < t ==> col[i] == 0,
            None => forall|i: int| y <= i < col.len() ==> col[i] == 0,
        },
    decreases col.len() - y,
{
    if y < col.len() && col[y] == 0 {
        lemma_top_from(col, y + 1);
    }
}

/// A cell comes to rest on the board, in an empty cell.
pub(crate) proof fn lemma_landing(col: Seq<u8>)
    requires
        col.len() == 13,
    ensures
        match landing(col) {
            Some(y) => 0 <= y < 13 && col[y] == 0,
            None => col[0] != 0,
        },
{
    lemma_top_from(col, 0);
}

/// A cell written into an empty place and emptied again leaves the board
/// as it was.
pub(crate) proof fn lemma_put_undone(g: Seq<Seq<u8>>, y: int, x: int, v: u8)
    requires
        grid_wf(g),
        on_board(y, x),
        color_at(g, y, x) == 0,
    ensures
        put(put(g, y, x, v), y, x, 0) == g,
{
    let p = put(put(g, y, x, v), y, x, 0);
    assert(p[x] =~= g[x]);
}

/// A column with one empty cell filled holds one more occupied cell.
proof fn lemma_filled_column(col: Seq<u8>, y: int, v: u8)
    requires
        0 <= y < col.len(),
        col[y] == 0,
        v != 0,
    ensures
        solids(col.update(y, v)).len() == solids(col).len() + 1,
{
    let n = col.len() as int;
    let a = col.subrange(0, y);
    let b = col.subrange(y + 1, n);
    assert(col =~= a + seq![0u8] + b);
    assert(col.update(y, v) =~= a + seq![v] + b);
    lemma_solids_single(0u8);
    lemma_solids_single(v);
}

/// A board with one empty cell filled holds one more occupied cell.
proof fn lemma_put_count(g: Seq<Seq<u8>>, y: int, x: int, v: u8)
    requires
        grid_wf(g),
        on_board(y, x),
        color_at(g, y, x) == 0,
        v != 0,
    ensures
        occupied(put(g, y, x, v)) == occupied(g) + 1,
{
    lemma_filled_column(g[x], y, v);
    reveal_with_fuel(occupied_upto, 7);
}

/// What a dropped cell does to a board.
proof fn lemma_drop_into(g: Seq<Seq<u8>>, x: int, v: u8)
    requires
        grid_wf(g),
        0 <= x < 6,
    ensures
        match drop_into(g, x, v) {
            Some(g1) => grid_wf(g1) && (v != 0 ==> occupied(g1) == occupied(g) + 1),
            None => true,
        },
{
    lemma_landing(g[x]);
    match landing(g[x]) {
        Some(y) => {
            if v != 0 {
                lemma_put_count(g, y, x, v);
            }
        },
        None => {},
    }
}

/// A placed piece leaves a board of the right shape, with two cells more
/// where both colors are occupied cells.
pub(crate) proof fn lemma_place(g: Seq<Seq<u8>>, piece: (u8, u8), k: int)
    requires
        grid_wf(g),
        0 <= k < 24,
    ensures
        match place(g, piece, k) {
            Some(child) => grid_wf(child) && (piece.0 != 0 && piece.1 != 0 ==> occupied(child)
                == occupied(g) + 2),
            None => true,
        },
{
    lemma_drop_into(g, anchor(k), first_color(piece, k));
    match drop_into(g, anchor(k), first_color(piece, k)) {
        Some(g1) => {
            if second_column(k) < 6 {
                lemma_drop_into(g1, second_column(k), second_color(piece, k));
            }
        },
        None => {},
    }
}

/// What the search returns is a board that the pieces reach, with a chain
/// of the length asked for; where it returns nothing, there is none.
pub proof fn lemma_first_solution(
    g: Seq<Seq<u8>>,
    pieces: Seq<(u8, u8)>,
    target: nat,
    d: int,
)
    requires
        0 <= d <= pieces.len(),
    ensures
        match first_solution(g, pieces, target, d) {
            Some(b) => reaches(g, pieces, d, b) && chain_length(b) == target,
            None => forall|b: Seq<Seq<u8>>|
                #![trigger reaches(g, pieces, d, b)]
                reaches(g, pieces, d, b) ==> chain_length(b) != target,
        },
    decreases pieces.len() - d, 25int,
{
    if d < pieces.len() {
        lemma_first_from(g, pieces, target, d, 0);
        if first_solution(g, pieces, target, d) is None {
            assert forall|b: Seq<Seq<u8>>|
                #![trigger reaches(g, pieces, d, b)]
                reaches(g, pieces, d, b) implies chain_length(b) != target by {
                lemma_reaches_leads(g, pieces, d, b);
            }
        }
    }
}

/// The same of the candidates from `k` on.
proof fn lemma_first_from(
    g: Seq<Seq<u8>>,
    pieces: Seq<(u8, u8)>,
    target: nat,
    d: int,
    k: int,
)
    requires
        0 <= d < pieces.len(),
        0 <= k <= 24,
    ensures
        match first_from(g, pieces, target, d, k) {
            Some(b) => reaches(g, pieces, d, b) && chain_length(b) == target,
            None => forall|b: Seq<Seq<u8>>, n: int|
                #![trigger leads(g, pieces, d, n, b)]
                k <= n && leads(g, pieces, d, n, b) ==> chain_length(b) != target,
        },
    decreases pieces.len() - d, 24 - k,
{
    if k < 24 {
        match place(g, pieces[d], k) {
            Some(child) => {
                if passes(child, d, pieces.len() as int) {
                    lemma_first_solution(child, pieces, target, d + 1);
                }
            },
            None => {},
        }
        match yield_of(g, pieces, target, d, k) {
            Some(b) => {},
            None => {
                lemma_first_from(g, pieces, target, d, k + 1);
            },
        }
    }
}

/// The boards one piece below `g` that the search goes on from, as the
/// candidates before `k` give them: in the order of the search, each once.
pub open spec fn level_upto(g: Seq<Seq<u8>>, pieces: Seq<(u8, u8)>, d: int, k: int) -> Seq<
    Seq<Seq<u8>>,
>
    decreases k,
{
    if k <= 0 {
        Seq::empty()
    } else {
        let before = level_upto(g, pieces, d, k - 1);
        match place(g, pieces[d], k - 1) {
            None => before,
            Some(child) => if passes(child, d, pieces.len() as int) && !before.contains(child) {
                before.push(child)
            } else {
                before
            },
        }
    }
}

/// The boards one piece below `g` that the search goes on from.
pub open spec fn level(g: Seq<Seq<u8>>, pieces: Seq<(u8, u8)>, d: int) -> Seq<Seq<Seq<u8>>> {
    level_upto(g, pieces, d, 24)
}

/// Every board of a level comes from an accepted candidate, and every
/// accepted candidate gives a board of the level.
proof fn lemma_level_members(g: Seq<Seq<u8>>, pieces: Seq<(u8, u8)>, d: int, k: int)
    requires
        0 <= d < pieces.len(),
        0 <= k <= 24,
    ensures
        forall|c: Seq<Seq<u8>>|
            #![trigger level_upto(g, pieces, d, k).contains(c)]
            level_upto(g, pieces, d, k).contains(c) <==> exists|n: int|
                0 <= n < k && #[trigger] place(g, pieces[d], n) == Some(c) && passes(
                    c,
                    d,
                    pieces.len() as int,
                ),
    decreases k,
{
    if k > 0 {
        lemma_level_members(g, pieces, d, k - 1);
        let before = level_upto(g, pieces, d, k - 1);
        let now = level_upto(g, pieces, d, k);
        assert forall|c: Seq<Seq<u8>>| #![trigger now.contains(c)] now.contains(c) <==> exists|
            n: int,
        |
            0 <= n < k && #[trigger] place(g, pieces[d], n) == Some(c) && passes(
                c,
                d,
                pieces.len() as int,
            ) by {
            if now.contains(c) {
                let i = choose|i: int| 0 <= i < now.len() && now[i] == c;
                if i < before.len() {
                    assert(before.contains(c));
                    let n = choose|n: int|
                        0 <= n < k - 1 && #[trigger] place(g, pieces[d], n) == Some(c) && passes(
                            c,
                            d,
                            pieces.len() as int,
                        );
                }
            }
            if exists|n: int|
                0 <= n < k && #[trigger] place(g, pieces[d], n) == Some(c) && passes(
                    c,
                    d,
                    pieces.len() as int,
                ) {
                let n = choose|n: int|
                    0 <= n < k && #[trigger] place(g, pieces[d], n) == Some(c) && passes(
                        c,
                        d,
                        pieces.len() as int,
                    );
                if n < k - 1 {
                    assert(before.contains(c));
                    let i = choose|i: int| 0 <= i < before.len() && before[i] == c;
                    assert(now[i] == c);
                } else {
                    if !(before.contains(c)) {
                        assert(now[before.len() as int] == c);
                    }
                }
            }
        }
    }
}

/// With occupied colors only, every board of a level holds two cells more
/// than the board above it.
proof fn lemma_level_flat(g: Seq<Seq<u8>>, pieces: Seq<(u8, u8)>, d: int)
    requires
        grid_wf(g),
        0 <= d < pieces.len(),
        pieces_solid(pieces),
    ensures
        forall|c: Seq<Seq<u8>>|
            #![trigger level(g, pieces, d).contains(c)]
            level(g, pieces, d).contains(c) ==> grid_wf(c) && occupied(c) == occupied(g) + 2,
{
    lemma_level_members(g, pieces, d, 24);
    assert forall|c: Seq<Seq<u8>>|
        #![trigger level(g, pieces, d).contains(c)]
        level(g, pieces, d).contains(c) implies grid_wf(c) && occupied(c) == occupied(g) + 2 by {
        let n = choose|n: int|
            0 <= n < 24 && #[trigger] place(g, pieces[d], n) == Some(c) && passes(
                c,
                d,
                pieces.len() as int,
            );
        lemma_place(g, pieces[d], n);
    }
}

/// The candidates from `k` on lead to nothing exactly if each of them alone
/// leads to nothing.
proof fn lemma_first_from_none(
    g: Seq<Seq<u8>>,
    pieces: Seq<(u8, u8)>,
    target: nat,
    d: int,
    k: int,
)
    requires
        0 <= d < pieces.len(),
        0 <= k <= 24,
    ensures
        first_from(g, pieces, target, d, k) is None <==> forall|n: int|
            k <= n < 24 ==> (#[trigger] yield_of(g, pieces, target, d, n)) is None,
    decreases 24 - k,
{
    if k < 24 {
        lemma_first_from_none(g, pieces, target, d, k + 1);
        if forall|n: int| k <= n < 24 ==> (#[trigger] yield_of(g, pieces, target, d, n)) is None {
            assert(yield_of(g, pieces, target, d, k) is None);
        }
    }
}

/// A search finds nothing from `g` exactly if it finds nothing from any
/// board of the level below: going through the level board by board, in any
/// order and each with a search of its own, misses no solution and adds none.
pub proof fn lemma_level_complete(g: Seq<Seq<u8>>, pieces: Seq<(u8, u8)>, target: nat, d: int)
    requires
        0 <= d < pieces.len(),
    ensures
        first_solution(g, pieces, target, d) is None <==> forall|c: Seq<Seq<u8>>|
            #![trigger level(g, pieces, d).contains(c)]
            level(g, pieces, d).contains(c) ==> first_solution(c, pieces, target, d + 1) is None,
        forall|c: Seq<Seq<u8>>, b: Seq<Seq<u8>>|
            #![trigger level(g, pieces, d).contains(c), reaches(c, pieces, d + 1, b)]
            level(g, pieces, d).contains(c) && reaches(c, pieces, d + 1, b) ==> reaches(
                g,
                pieces,
                d,
                b,
            ),
{
    lemma_level_members(g, pieces, d, 24);
    lemma_first_from_none(g, pieces, target, d, 0);
    let lv = level(g, pieces, d);
    if first_solution(g, pieces, target, d) is None {
        assert forall|c: Seq<Seq<u8>>| #![trigger lv.contains(c)] lv.contains(
            c,
        ) implies first_solution(c, pieces, target, d + 1) is None by {
            let n = choose|n: int|
                0 <= n < 24 && #[trigger] place(g, pieces[d], n) == Some(c) && passes(
                    c,
                    d,
                    pieces.len() as int,
                );
            assert(yield_of(g, pieces, target, d, n) is None);
        }
    }
    if forall|c: Seq<Seq<u8>>|
        #![trigger lv.contains(c)]
        lv.contains(c) ==> first_solution(c, pieces, target, d + 1) is None {
        assert forall|n: int| 0 <= n < 24 implies (#[trigger] yield_of(
            g,
            pieces,
            target,
            d,
            n,
        )) is None by {
            match place(g, pieces[d], n) {
                Some(c) => {
                    if passes(c, d, pieces.len() as int) {
                        assert(lv.contains(c));
                    }
                },
                None => {},
            }
        }
    }
}

/// With occupied colors only, the boards of a level are no deeper than one
/// another: a memo that holds them and nothing else holds no board deeper
/// than one of them.
pub proof fn lemma_level_memo(
    g: Seq<Seq<u8>>,
    pieces: Seq<(u8, u8)>,
    target: nat,
    d: int,
    c: Seq<Seq<u8>>,
)
    requires
        grid_wf(g),
        0 <= d < pieces.len(),
        pieces_solid(pieces),
        level(g, pieces, d).contains(c),
    ensures
        memo_dead(level(g, pieces, d).to_set(), pieces, target, c, d + 1),
{
    lemma_level_flat(g, pieces, d);
}

} // verus!
