//! The placement search: a depth-first walk through the placements of the
//! pieces, one piece per level, that remembers the boards it has met.

use crate::field::{chain, get_top, has_chain, Field};
use crate::grid::{color_at, grid_wf, put};
use crate::group::chain_length;
use crate::memo::Memo;
use crate::nazopuyo_info::NazopuyoInfo;
use crate::search::{
    anchor, drop_into, first_color, first_from, first_solution, grown_below, landing,
    lemma_landing, lemma_place, lemma_put_undone, level, level_upto, memo_dead, passes,
    pieces_solid, place, reaches, second_color, second_column, yield_of,
};
use vstd::prelude::*;

verus! {

/// The grid of the board that a search returned, if it returned one.
pub open spec fn found_grid<F: Field>(res: Option<F>) -> Option<Seq<Seq<u8>>> {
    match res {
        Some(b) => Some(b.grid()),
        None => None,
    }
}

/// The grids of a list of boards.
pub open spec fn grids<F: Field>(v: Seq<F>) -> Seq<Seq<Seq<u8>>> {
    Seq::new(v.len(), |i: int| v[i].grid())
}

/// The anchor column of candidate `k`.
pub fn anchor_column(k: usize) -> (j: usize)
    requires
        k < 24,
    ensures
        j == anchor(k as int),
        j < 6,
{
    let q = k / 4;
    if q == 0 {
        2
    } else if q == 1 {
        4
    } else if q == 2 {
        3
    } else if q == 3 {
        5
    } else if q == 4 {
        1
    } else {
        0
    }
}

/// Drops a cell of color `v` into column `x` and returns the row where it
/// came to rest. A column whose hidden row is occupied takes no cell: the
/// board is then left as it is.
pub fn drop_cell<F: Field>(field: &mut F, x: usize, v: u8) -> (row: Option<usize>)
    requires
        x < 6,
        v <= 7,
    ensures
        match row {
            Some(y) => y < 13 && landing(old(field).grid()[x as int]) == Some(y as int)
                && color_at(old(field).grid(), y as int, x as int) == 0 && final(field).grid()
                == put(old(field).grid(), y as int, x as int, v),
            None => landing(old(field).grid()[x as int]) is None && final(field).grid() == old(
                field
            ).grid(),
        },
        drop_into(old(field).grid(), x as int, v) == match row {
            Some(y) => Some(final(field).grid()),
            None => None,
        },
{
    proof {
        field.lemma_grid_wf();
        lemma_landing(field.grid()[x as int]);
    }
    let y = match get_top(field, x) {
        Some(top) => {
            if top == 0 {
                return None;
            }
            top - 1
        },
        None => 12,
    };
    field.set(y, x, v);
    Some(y)
}

/// Places `piece` as candidate `k` says and returns the rows of its two
/// cells. Where one of them finds no room, the board is left as it is.
pub fn place_piece<F: Field>(field: &mut F, piece: [u8; 2], k: usize) -> (rows: Option<
    (usize, usize),
>)
    requires
        k < 24,
        piece@[0] <= 7,
        piece@[1] <= 7,
    ensures
        match rows {
            Some(r) => {
                let g = old(field).grid();
                let pair = (piece@[0], piece@[1]);
                let first = put(g, r.0 as int, anchor(k as int), first_color(pair, k as int));
                &&& r.0 < 13
                &&& r.1 < 13
                &&& second_column(k as int) < 6
                &&& color_at(g, r.0 as int, anchor(k as int)) == 0
                &&& color_at(first, r.1 as int, second_column(k as int)) == 0
                &&& final(field).grid() == put(
                    first,
                    r.1 as int,
                    second_column(k as int),
                    second_color(pair, k as int),
                )
                &&& place(g, pair, k as int) == Some(final(field).grid())
            },
            None => {
                &&& place(old(field).grid(), (piece@[0], piece@[1]), k as int) is None
                &&& final(field).grid() == old(field).grid()
            },
        },
{
    let ghost g = field.grid();
    let j = anchor_column(k);
    let index = (k / 2) % 2;
    let dx = k % 2;
    proof {
        field.lemma_grid_wf();
    }
    let y1 = match drop_cell(field, j, piece[index]) {
        Some(y) => y,
        None => {
            return None;
        },
    };
    if j + dx >= 6 {
        field.set(y1, j, 0);
        proof {
            lemma_put_undone(g, y1 as int, j as int, piece@[index as int]);
        }
        return None;
    }
    match drop_cell(field, j + dx, piece[1 - index]) {
        Some(y2) => Some((y1, y2)),
        None => {
            field.set(y1, j, 0);
            proof {
                lemma_put_undone(g, y1 as int, j as int, piece@[index as int]);
            }
            None
        },
    }
}

/// Searches from `field`, with the pieces from `depth` on still to place,
/// for a board whose chain has the length that `info` asks for, and returns
/// the first it meets.
///
/// A placement that was met before, in `hash`, is not searched again. Where
/// no color of a piece is the empty cell, and no board of `hash` that lies
/// deeper than `field` leads to a solution, the result is the first
/// solution in the order of the search; without one, `field` is left as it
/// was, and `hash` still holds no deeper board that leads to a solution.
pub fn parallel_dfs<F: Field + Copy>(
    field: &mut F,
    info: NazopuyoInfo,
    depth: u32,
    hash: &mut Memo,
) -> (res: Option<F>)
    requires
        old(hash).wf(),
        info.next.wf(),
        depth <= info.next.len,
    ensures
        final(hash).wf(),
        old(hash)@.subset_of(final(hash)@),
        match res {
            Some(b) => b.grid() == final(field).grid() && reaches(
                old(field).grid(),
                info.next.pieces(),
                depth as int,
                b.grid(),
            ) && chain_length(b.grid()) == info.chain,
            None => final(field).grid() == old(field).grid(),
        },
        pieces_solid(info.next.pieces()) && memo_dead(
            old(hash)@,
            info.next.pieces(),
            info.chain as nat,
            old(field).grid(),
            depth as int,
        ) ==> {
            &&& found_grid(res) == first_solution(
                old(field).grid(),
                info.next.pieces(),
                info.chain as nat,
                depth as int,
            )
            &&& res is None ==> memo_dead(
                final(hash)@,
                info.next.pieces(),
                info.chain as nat,
                old(field).grid(),
                depth as int,
            ) && grown_below(old(hash)@, final(hash)@, old(field).grid())
        },
    decreases info.next.len - depth,
{
    let ghost g = field.grid();
    let ghost pieces = info.next.pieces();
    let ghost target = info.chain as nat;
    let ghost memo0 = hash@;
    let ghost d = depth as int;
    let ghost exact = pieces_solid(pieces) && memo_dead(memo0, pieces, target, g, d);
    let len = info.next.len;
    proof {
        field.lemma_grid_wf();
    }
    if depth as usize == len {
        let mut probe = *field;
        if chain(&mut probe) == info.chain {
            return Some(*field);
        } else {
            return None;
        }
    }
    let piece = info.next.value[depth as usize];
    let ghost pair = (piece@[0], piece@[1]);
    let mut k: usize = 0;
    while k < 24
        invariant
            k <= 24,
            hash.wf(),
            memo0 == old(hash)@,
            g == old(field).grid(),
            memo0.subset_of(hash@),
            field.grid() == g,
            grid_wf(g),
            info.next.wf(),
            depth < info.next.len,
            len == info.next.len,
            d == depth as int,
            pieces == info.next.pieces(),
            target == info.chain as nat,
            pair == (piece@[0], piece@[1]),
            pieces[d] == pair,
            piece@[0] <= 7,
            piece@[1] <= 7,
            exact == (pieces_solid(pieces) && memo_dead(memo0, pieces, target, g, d)),
            exact ==> {
                &&& memo_dead(hash@, pieces, target, g, d)
                &&& grown_below(memo0, hash@, g)
                &&& first_from(g, pieces, target, d, 0) == first_from(
                    g,
                    pieces,
                    target,
                    d,
                    k as int,
                )
            },
        decreases 24 - k,
    {
        match place_piece(field, piece, k) {
            None => {},
            Some(rows) => {
                let ghost child = field.grid();
                proof {
                    lemma_place(g, pair, k as int);
                }
                let seen = hash.contains(field);
                let last = depth + 1 == len as u32;
                if !seen && (last || (field.is_alive() && !has_chain(field))) {
                    hash.insert(field);
                    let res = parallel_dfs(field, info, depth + 1, hash);
                    proof {
                        if exact {
                            assert(yield_of(g, pieces, target, d, k as int) == first_solution(
                                child,
                                pieces,
                                target,
                                d + 1,
                            ));
                        }
                    }
                    if res.is_some() {
                        return res;
                    }
                }
                let j = anchor_column(k);
                let dx = k % 2;
                let ghost first = put(g, rows.0 as int, j as int, first_color(pair, k as int));
                proof {
                    lemma_put_undone(
                        first,
                        rows.1 as int,
                        second_column(k as int),
                        second_color(pair, k as int),
                    );
                    lemma_put_undone(g, rows.0 as int, j as int, first_color(pair, k as int));
                }
                field.set(rows.1, j + dx, 0);
                field.set(rows.0, j, 0);
            },
        }
        k += 1;
    }
    None
}

/// A search for one puzzle: a board, the pieces to place on it, and the
/// chain length that the last placement has to bring.
#[derive(Debug)]
pub struct Solver<F: Field + Copy> {
    field: F,
    info: NazopuyoInfo,
    hash: Memo,
}

impl<F: Field + Copy> Solver<F> {
    /// The pieces are in order, and so is the memo.
    pub closed spec fn wf(&self) -> bool {
        self.info.next.wf() && self.hash.wf()
    }

    /// The grid of the board that the search starts from.
    pub closed spec fn board(&self) -> Seq<Seq<u8>> {
        self.field.grid()
    }

    /// What the puzzle asks for.
    pub closed spec fn puzzle(&self) -> NazopuyoInfo {
        self.info
    }

    /// The grids of the boards that the search has met.
    pub closed spec fn seen(&self) -> Set<Seq<Seq<u8>>> {
        self.hash@
    }

    /// A search from `field` for what `info` asks.
    pub fn new(field: F, info: NazopuyoInfo) -> (s: Self)
        requires
            info.next.wf(),
        ensures
            s.wf(),
            s.board() == field.grid(),
            s.puzzle() == info,
            s.seen() == Set::<Seq<Seq<u8>>>::empty(),
    {
        Self { field, info, hash: Memo::new() }
    }

    /// Places all pieces, one after the other, and returns the first board
    /// met on which the chain has the length asked for; `None` where the
    /// search meets none.
    ///
    /// The board returned is the one before the chain resolves. Every
    /// search starts with an empty memo.
    pub fn solve(&mut self) -> (res: Option<F>)
        requires
            old(self).wf(),
        ensures
            final(self).wf(),
            final(self).board() == old(self).board(),
            final(self).puzzle() == old(self).puzzle(),
            match res {
                Some(b) => reaches(
                    old(self).board(),
                    old(self).puzzle().next.pieces(),
                    0,
                    b.grid(),
                ) && chain_length(b.grid()) == old(self).puzzle().chain,
                None => true,
            },
            pieces_solid(old(self).puzzle().next.pieces()) ==> found_grid(res) == first_solution(
                old(self).board(),
                old(self).puzzle().next.pieces(),
                old(self).puzzle().chain as nat,
                0,
            ),
    {
        self.hash = Memo::new();
        let start = self.field;
        let info = self.info;
        self.dfs(start, info, 0)
    }

    /// The boards one piece below the start that the search goes on from,
    /// in the order of the search and each once, for searches that go on
    /// from each of them on their own. There must be a piece to place.
    ///
    /// The memo holds these boards afterwards, and no other.
    pub fn fan_out(&mut self) -> (boards: Vec<F>)
        requires
            old(self).wf(),
            old(self).puzzle().next.len >= 1,
        ensures
            final(self).wf(),
            final(self).board() == old(self).board(),
            final(self).puzzle() == old(self).puzzle(),
            grids(boards@) == level(old(self).board(), old(self).puzzle().next.pieces(), 0),
            final(self).seen() == grids(boards@).to_set(),
    {
        self.hash = Memo::new();
        let ghost g = self.field.grid();
        let ghost pieces = self.info.next.pieces();
        let len = self.info.next.len;
        let piece = self.info.next.value[0];
        let ghost pair = (piece@[0], piece@[1]);
        let mut boards: Vec<F> = Vec::new();
        let mut k: usize = 0;
        proof {
            self.field.lemma_grid_wf();
        }
        while k < 24
            invariant
                k <= 24,
                self.hash.wf(),
                self.info == old(self).info,
                self.field.grid() == g,
                g == old(self).field.grid(),
                grid_wf(g),
                pieces == self.info.next.pieces(),
                len == self.info.next.len,
                len >= 1,
                pieces[0] == pair,
                pair == (piece@[0], piece@[1]),
                piece@[0] <= 7,
                piece@[1] <= 7,
                grids(boards@) == level_upto(g, pieces, 0, k as int),
                self.hash@ == grids(boards@).to_set(),
            decreases 24 - k,
        {
            let ghost before = grids(boards@);
            match place_piece(&mut self.field, piece, k) {
                None => {},
                Some(rows) => {
                    let ghost child = self.field.grid();
                    let seen = self.hash.contains(&self.field);
                    let last = len == 1;
                    if !seen && (last || (self.field.is_alive() && !has_chain(&self.field))) {
                        self.hash.insert(&self.field);
                        boards.push(self.field);
                        proof {
                            assert(grids(boards@) =~= before.push(child));
                            before.lemma_push_to_set_commute(child);
                        }
                    }
                    let j = anchor_column(k);
                    let dx = k % 2;
                    let ghost first = put(g, rows.0 as int, j as int, first_color(pair, k as int));
                    proof {
                        lemma_put_undone(
                            first,
                            rows.1 as int,
                            second_column(k as int),
                            second_color(pair, k as int),
                        );
                        lemma_put_undone(g, rows.0 as int, j as int, first_color(pair, k as int));
                    }
                    self.field.set(rows.1, j + dx, 0);
                    self.field.set(rows.0, j, 0);
                },
            }
            k += 1;
        }
        boards
    }

    /// A copy of the memo as it stands.
    pub fn memo(&self) -> (m: Memo)
        requires
            self.wf(),
        ensures
            m.wf(),
            m@ == self.seen(),
    {
        self.hash.duplicate()
    }

    /// What the puzzle asks for.
    pub fn info(&self) -> (info: NazopuyoInfo)
        ensures
            info == self.puzzle(),
    {
        self.info
    }

    /// The search from `field` with the pieces of `info` from `depth` on,
    /// against the memo of this solver.
    fn dfs(&mut self, field: F, info: NazopuyoInfo, depth: u32) -> (res: Option<F>)
        requires
            old(self).wf(),
            info.next.wf(),
            depth <= info.next.len,
        ensures
            final(self).wf(),
            final(self).board() == old(self).board(),
            final(self).puzzle() == old(self).puzzle(),
            old(self).seen().subset_of(final(self).seen()),
            match res {
                Some(b) => reaches(field.grid(), info.next.pieces(), depth as int, b.grid())
                    && chain_length(b.grid()) == info.chain,
                None => true,
            },
            pieces_solid(info.next.pieces()) && memo_dead(
                old(self).seen(),
                info.next.pieces(),
                info.chain as nat,
                field.grid(),
                depth as int,
            ) ==> found_grid(res) == first_solution(
                field.grid(),
                info.next.pieces(),
                info.chain as nat,
                depth as int,
            ),
    {
        let mut board = field;
        parallel_dfs(&mut board, info, depth, &mut self.hash)
    }
}

} // verus!
