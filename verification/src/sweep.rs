//! One sweep over a board: finding the matching groups, and clearing them.

use crate::field::Field;
use crate::grid::{color_at, grid_wf, lemma_grid_ext};
use crate::group::{
    adjacent, cell_color, clear_round, cleared, group, has_group, in_play,
    lemma_closed_holds_group, lemma_distinct_cells_bound, lemma_group_shared, lemma_linked_back,
    lemma_linked_grow, lemma_linked_self, linked, matchable, popping_neighbor, pops,
};
use vstd::prelude::*;

verus! {

/// `c` names a cell of the board, hidden row included.
pub open spec fn on_grid(c: (int, int)) -> bool {
    0 <= c.0 < 13 && 0 <= c.1 < 6
}

/// The mark that `m` holds for cell `c`.
pub open spec fn marked(m: [[bool; 6]; 13], c: (int, int)) -> bool {
    m@[c.0]@[c.1]
}

/// A list of cells as mathematics.
pub open spec fn as_cells(v: Seq<(usize, usize)>) -> Seq<(int, int)> {
    Seq::new(v.len(), |i: int| (v[i].0 as int, v[i].1 as int))
}

/// The neighbor of `c` in direction `k`: right, down, left, up.
pub open spec fn beside(c: (int, int), k: int) -> (int, int) {
    if k == 0 {
        (c.0, c.1 + 1)
    } else if k == 1 {
        (c.0 + 1, c.1)
    } else if k == 2 {
        (c.0, c.1 - 1)
    } else {
        (c.0 - 1, c.1)
    }
}

/// The neighbor of `(y, x)` in direction `k`, where it lies in play.
pub fn neighbor(y: usize, x: usize, k: usize) -> (n: Option<(usize, usize)>)
    requires
        y < 13,
        x < 6,
        k < 4,
    ensures
        match n {
            Some(n) => {
                &&& (n.0 as int, n.1 as int) == beside((y as int, x as int), k as int)
                &&& in_play((n.0 as int, n.1 as int))
            },
            None => !in_play(beside((y as int, x as int), k as int)),
        },
{
    if k == 0 {
        if x + 1 < 6 && y >= 1 {
            Some((y, x + 1))
        } else {
            None
        }
    } else if k == 1 {
        if y + 1 < 13 {
            Some((y + 1, x))
        } else {
            None
        }
    } else if k == 2 {
        if x >= 1 && y >= 1 {
            Some((y, x - 1))
        } else {
            None
        }
    } else {
        if y >= 2 {
            Some((y - 1, x))
        } else {
            None
        }
    }
}

/// The cells of a list that is one cell longer.
proof fn lemma_push_cells(v: Seq<(usize, usize)>, n: (usize, usize))
    ensures
        as_cells(v.push(n)) == as_cells(v).push((n.0 as int, n.1 as int)),
        forall|c: (int, int)|
            as_cells(v.push(n)).contains(c) <==> as_cells(v).contains(c) || c == (
                n.0 as int,
                n.1 as int,
            ),
{
    let a = as_cells(v.push(n));
    let b = as_cells(v).push((n.0 as int, n.1 as int));
    assert(a =~= b);
    assert forall|c: (int, int)| a.contains(c) <==> as_cells(v).contains(c) || c == (
        n.0 as int,
        n.1 as int,
    ) by {
        if as_cells(v).contains(c) {
            let i = choose|i: int| 0 <= i < as_cells(v).len() && as_cells(v)[i] == c;
            assert(b[i] == c);
        }
        if c == (n.0 as int, n.1 as int) {
            assert(b[v.len() as int] == c);
        }
    }
}

/// The group of the cell `(y, x)`, which holds `color`, as a list without
/// repeats. Every cell of the group gets its mark; no other mark changes.
///
/// The caller has marked `(y, x)` and no other cell of the group.
pub fn collect_group<F: Field>(
    field: &F,
    vis: &mut [[bool; 6]; 13],
    y: usize,
    x: usize,
    color: u8,
) -> (cells: Vec<(usize, usize)>)
    requires
        1 <= y < 13,
        x < 6,
        color == cell_color(field.grid(), (y as int, x as int)),
        marked(*old(vis), (y as int, x as int)),
        forall|c: (int, int)|
            #![trigger marked(*old(vis), c)]
            linked(field.grid(), (y as int, x as int), c) && c != (y as int, x as int) ==> !marked(
                *old(vis),
                c,
            ),
    ensures
        as_cells(cells@).no_duplicates(),
        as_cells(cells@).to_set() == group(field.grid(), (y as int, x as int)),
        cells@.len() == group(field.grid(), (y as int, x as int)).len(),
        forall|i: int| 0 <= i < cells@.len() ==> in_play(#[trigger] as_cells(cells@)[i]),
        forall|c: (int, int)|
            #![trigger marked(*final(vis), c)]
            on_grid(c) ==> (marked(*final(vis), c) <==> marked(*old(vis), c) || group(
                field.grid(),
                (y as int, x as int),
            ).contains(c)),
{
    let ghost g = field.grid();
    let ghost seed = (y as int, x as int);
    let ghost v0 = *vis;
    let mut cells: Vec<(usize, usize)> = Vec::new();
    cells.push((y, x));
    let mut head: usize = 0;
    proof {
        field.lemma_grid_wf();
        lemma_linked_self(g, seed);
    }
    while head < cells.len()
        invariant
            g == field.grid(),
            grid_wf(g),
            seed == (y as int, x as int),
            in_play(seed),
            color == cell_color(g, seed),
            marked(v0, seed),
            forall|c: (int, int)|
                #![trigger marked(v0, c)]
                linked(g, seed, c) && c != seed ==> !marked(v0, c),
            head <= cells.len(),
            cells.len() >= 1,
            as_cells(cells@)[0] == seed,
            as_cells(cells@).no_duplicates(),
            forall|i: int|
                0 <= i < cells.len() ==> in_play(#[trigger] as_cells(cells@)[i]) && linked(
                    g,
                    seed,
                    as_cells(cells@)[i],
                ),
            forall|c: (int, int)|
                #![trigger marked(*vis, c)]
                on_grid(c) ==> (marked(*vis, c) <==> marked(v0, c) || as_cells(cells@).contains(c)),
            forall|i: int, k: int|
                #![trigger beside(as_cells(cells@)[i], k)]
                0 <= i < head && 0 <= k < 4 && in_play(beside(as_cells(cells@)[i], k))
                    && cell_color(g, beside(as_cells(cells@)[i], k)) == color ==> as_cells(
                    cells@,
                ).contains(beside(as_cells(cells@)[i], k)),
        decreases 78 - head,
    {
        proof {
            lemma_distinct_cells_bound(as_cells(cells@));
        }
        let cur = cells[head];
        let cy = cur.0;
        let cx = cur.1;
        let ghost here = (cy as int, cx as int);
        let mut k: usize = 0;
        while k < 4
            invariant
                g == field.grid(),
                grid_wf(g),
                in_play(seed),
                color == cell_color(g, seed),
                marked(v0, seed),
                forall|c: (int, int)|
                    #![trigger marked(v0, c)]
                    linked(g, seed, c) && c != seed ==> !marked(v0, c),
                k <= 4,
                head < cells.len(),
                here == (cy as int, cx as int),
                here == as_cells(cells@)[head as int],
                in_play(here),
                as_cells(cells@)[0] == seed,
                as_cells(cells@).no_duplicates(),
                forall|i: int|
                    0 <= i < cells.len() ==> in_play(#[trigger] as_cells(cells@)[i]) && linked(
                        g,
                        seed,
                        as_cells(cells@)[i],
                    ),
                forall|c: (int, int)|
                    #![trigger marked(*vis, c)]
                    on_grid(c) ==> (marked(*vis, c) <==> marked(v0, c) || as_cells(cells@).contains(
                        c,
                    )),
                forall|i: int, k: int|
                    #![trigger beside(as_cells(cells@)[i], k)]
                    0 <= i < head && 0 <= k < 4 && in_play(beside(as_cells(cells@)[i], k))
                        && cell_color(g, beside(as_cells(cells@)[i], k)) == color ==> as_cells(
                        cells@,
                    ).contains(beside(as_cells(cells@)[i], k)),
                forall|d: int|
                    #![trigger beside(here, d)]
                    0 <= d < k && in_play(beside(here, d)) && cell_color(g, beside(here, d))
                        == color ==> as_cells(cells@).contains(beside(here, d)),
            decreases 4 - k,
        {
            let ghost before = cells@;
            let ghost marks = *vis;
            match neighbor(cy, cx, k) {
                Some(n) => {
                    let ny = n.0;
                    let nx = n.1;
                    let ghost there = (ny as int, nx as int);
                    proof {
                        if cell_color(g, there) == color {
                            lemma_linked_grow(g, seed, here, there);
                        }
                    }
                    if !vis[ny][nx] {
                        let c = field.get(ny, nx);
                        if c == color {
                            vis[ny][nx] = true;
                            cells.push((ny, nx));
                            proof {
                                lemma_push_cells(before, (ny, nx));
                                assert(!marked(marks, there));
                                assert forall|c: (int, int)|
                                    #![trigger marked(*vis, c)]
                                    on_grid(c) implies (marked(*vis, c) <==> marked(v0, c)
                                    || as_cells(cells@).contains(c)) by {
                                    if c != there {
                                        assert(marked(*vis, c) == marked(marks, c));
                                    }
                                }
                            }
                        }
                    } else {
                        proof {
                            assert(marked(*vis, there));
                        }
                    }
                },
                None => {},
            }
            k += 1;
        }
        head += 1;
    }
    proof {
        let s = as_cells(cells@);
        let t = s.to_set();
        assert forall|a: (int, int), b: (int, int)|
            #![trigger t.contains(a), adjacent(a, b)]
            t.contains(a) && adjacent(a, b) && in_play(b) && cell_color(g, b) == cell_color(
                g,
                a,
            ) implies t.contains(b) by {
            let i = choose|i: int| 0 <= i < s.len() && s[i] == a;
            assert(b == beside(s[i], 0) || b == beside(s[i], 1) || b == beside(s[i], 2) || b
                == beside(s[i], 3));
        }
        lemma_closed_holds_group(g, t, seed);
        s.unique_seq_to_set();
    }
    cells
}

/// Every cell linked with `c` has its mark.
pub open spec fn group_marked(g: Seq<Seq<u8>>, vis: [[bool; 6]; 13], c: (int, int)) -> bool {
    forall|d: (int, int)| #[trigger] linked(g, c, d) ==> marked(vis, d)
}

/// A marked cell of a matchable color has its whole group marked, and is
/// flagged in `pop` exactly if that group is a matching group.
pub open spec fn whole_groups(g: Seq<Seq<u8>>, vis: [[bool; 6]; 13], pop: [[bool; 6]; 13]) -> bool {
    forall|c: (int, int)|
        #![trigger marked(vis, c)]
        in_play(c) && marked(vis, c) && matchable(cell_color(g, c)) ==> group_marked(g, vis, c) && (
        marked(pop, c) <==> group(g, c).len() >= 4)
}

/// A flagged cell is a marked cell of a matchable color, in play.
pub open spec fn flags_sound(g: Seq<Seq<u8>>, vis: [[bool; 6]; 13], pop: [[bool; 6]; 13]) -> bool {
    forall|c: (int, int)|
        #![trigger marked(pop, c)]
        on_grid(c) && marked(pop, c) ==> in_play(c) && marked(vis, c) && matchable(
            cell_color(g, c),
        )
}

/// `c` comes before row `i`, column `j` in a sweep of the rows in play.
pub open spec fn passed(c: (int, int), i: int, j: int) -> bool {
    in_play(c) && (c.0 < i || (c.0 == i && c.1 < j))
}

/// No cell of the group of an unmarked cell of a matchable color is marked.
proof fn lemma_fresh_seed(
    g: Seq<Seq<u8>>,
    vis: [[bool; 6]; 13],
    pop: [[bool; 6]; 13],
    s: (int, int),
)
    requires
        whole_groups(g, vis, pop),
        in_play(s),
        !marked(vis, s),
        matchable(cell_color(g, s)),
    ensures
        forall|c: (int, int)| #![trigger marked(vis, c)] linked(g, s, c) ==> !marked(vis, c),
{
    assert forall|c: (int, int)| #![trigger marked(vis, c)] linked(g, s, c) implies !marked(
        vis,
        c,
    ) by {
        if marked(vis, c) {
            lemma_linked_back(g, s, c);
        }
    }
}

/// Marking a cell that forms no group keeps the sweep's account.
proof fn lemma_mark_plain(
    g: Seq<Seq<u8>>,
    vis: [[bool; 6]; 13],
    next: [[bool; 6]; 13],
    pop: [[bool; 6]; 13],
    s: (int, int),
)
    requires
        whole_groups(g, vis, pop),
        flags_sound(g, vis, pop),
        in_play(s),
        !matchable(cell_color(g, s)),
        forall|c: (int, int)|
            #![trigger marked(next, c)]
            on_grid(c) ==> (marked(next, c) <==> marked(vis, c) || c == s),
    ensures
        whole_groups(g, next, pop),
        flags_sound(g, next, pop),
{
}

/// Marking the whole group of a fresh cell, and flagging it where it is a
/// matching group, keeps the sweep's account.
proof fn lemma_mark_group(
    g: Seq<Seq<u8>>,
    vis: [[bool; 6]; 13],
    next: [[bool; 6]; 13],
    pop: [[bool; 6]; 13],
    flags: [[bool; 6]; 13],
    s: (int, int),
)
    requires
        whole_groups(g, vis, pop),
        flags_sound(g, vis, pop),
        in_play(s),
        !marked(vis, s),
        matchable(cell_color(g, s)),
        forall|c: (int, int)|
            #![trigger marked(next, c)]
            on_grid(c) ==> (marked(next, c) <==> marked(vis, c) || group(g, s).contains(c)),
        forall|c: (int, int)|
            #![trigger marked(flags, c)]
            on_grid(c) ==> (marked(flags, c) <==> marked(pop, c) || (group(g, s).len() >= 4
                && group(g, s).contains(c))),
    ensures
        whole_groups(g, next, flags),
        flags_sound(g, next, flags),
{
    assert forall|c: (int, int)|
        #![trigger marked(next, c)]
        in_play(c) && marked(next, c) && matchable(cell_color(g, c)) implies group_marked(
        g,
        next,
        c,
    ) && (marked(flags, c) <==> group(g, c).len() >= 4) by {
        if group(g, s).contains(c) {
            lemma_group_shared(g, s, c);
        }
    }
}

/// Flags every cell of `cells`.
pub fn flag_cells(pop: &mut [[bool; 6]; 13], cells: &Vec<(usize, usize)>)
    requires
        forall|i: int| 0 <= i < cells@.len() ==> in_play(#[trigger] as_cells(cells@)[i]),
    ensures
        forall|c: (int, int)|
            #![trigger marked(*final(pop), c)]
            on_grid(c) ==> (marked(*final(pop), c) <==> marked(*old(pop), c) || as_cells(
                cells@,
            ).contains(c)),
{
    let ghost p0 = *pop;
    let mut k: usize = 0;
    while k < cells.len()
        invariant
            k <= cells.len(),
            forall|i: int| 0 <= i < cells@.len() ==> in_play(#[trigger] as_cells(cells@)[i]),
            forall|c: (int, int)|
                #![trigger marked(*pop, c)]
                on_grid(c) ==> (marked(*pop, c) <==> marked(p0, c) || exists|i: int|
                    0 <= i < k && #[trigger] as_cells(cells@)[i] == c),
        decreases cells.len() - k,
    {
        let cur = cells[k];
        let ghost here = as_cells(cells@)[k as int];
        let ghost was = *pop;
        pop[cur.0][cur.1] = true;
        proof {
            assert forall|c: (int, int)|
                #![trigger marked(*pop, c)]
                on_grid(c) implies (marked(*pop, c) <==> marked(p0, c) || exists|i: int|
                0 <= i < k + 1 && #[trigger] as_cells(cells@)[i] == c) by {
                if !(c == here) {
                    assert(marked(*pop, c) == marked(was, c));
                }
            }
        }
        k += 1;
    }
}

/// Finds the matching groups of a board.
///
/// The first result says whether there is one. Unless `first_only` is set,
/// which ends the sweep at the first that is found, the second result flags
/// exactly the cells that belong to one.
pub fn find_groups<F: Field>(field: &F, first_only: bool) -> (res: (bool, [[bool; 6]; 13]))
    ensures
        res.0 == has_group(field.grid()),
        !first_only ==> forall|c: (int, int)|
            #![trigger marked(res.1, c)]
            on_grid(c) ==> (marked(res.1, c) <==> pops(field.grid(), c)),
{
    let ghost g = field.grid();
    let mut vis = [[false;6];13];
    let mut pop = [[false;6];13];
    let mut found = false;
    let mut i: usize = 1;
    proof {
        field.lemma_grid_wf();
    }
    while i < 13
        invariant
            1 <= i <= 13,
            g == field.grid(),
            grid_wf(g),
            whole_groups(g, vis, pop),
            flags_sound(g, vis, pop),
            found ==> has_group(g),
            !found ==> forall|c: (int, int)|
                #![trigger marked(pop, c)]
                on_grid(c) ==> !marked(pop, c),
            forall|c: (int, int)|
                #![trigger marked(vis, c)]
                passed(c, i as int, 0) ==> marked(vis, c),
        decreases 13 - i,
    {
        let mut j: usize = 0;
        while j < 6
            invariant
                1 <= i < 13,
                j <= 6,
                g == field.grid(),
                grid_wf(g),
                whole_groups(g, vis, pop),
                flags_sound(g, vis, pop),
                found ==> has_group(g),
                !found ==> forall|c: (int, int)|
                    #![trigger marked(pop, c)]
                    on_grid(c) ==> !marked(pop, c),
                forall|c: (int, int)|
                    #![trigger marked(vis, c)]
                    passed(c, i as int, j as int) ==> marked(vis, c),
            decreases 6 - j,
        {
            let ghost s = (i as int, j as int);
            let ghost v0 = vis;
            let ghost p0 = pop;
            if !vis[i][j] {
                vis[i][j] = true;
                let ghost v1 = vis;
                let color = field.get(i, j);
                if color <= 1 {
                    proof {
                        lemma_mark_plain(g, v0, v1, pop, s);
                    }
                } else {
                    proof {
                        lemma_fresh_seed(g, v0, pop, s);
                        assert forall|c: (int, int)|
                            #![trigger marked(v1, c)]
                            linked(g, s, c) && c != s implies !marked(v1, c) by {
                            assert(!marked(v0, c));
                        }
                    }
                    let cells = collect_group(field, &mut vis, i, j, color);
                    let big = cells.len() >= 4;
                    if big {
                        proof {
                            assert(pops(g, s));
                        }
                        if first_only {
                            return (true, pop);
                        }
                        found = true;
                        flag_cells(&mut pop, &cells);
                    }
                    proof {
                        lemma_linked_self(g, s);
                        lemma_mark_group(g, v0, vis, p0, pop, s);
                    }
                }
            }
            proof {
                assert forall|c: (int, int)|
                    #![trigger marked(vis, c)]
                    passed(c, i as int, j as int + 1) implies marked(vis, c) by {
                    if c != s {
                        assert(marked(v0, c));
                    }
                }
            }
            j += 1;
        }
        i += 1;
    }
    proof {
        assert forall|c: (int, int)|
            #![trigger marked(pop, c)]
            on_grid(c) implies (marked(pop, c) <==> pops(g, c)) by {
            if pops(g, c) {
                assert(marked(vis, c));
            }
        }
        if !found {
            assert forall|c: (int, int)| !#[trigger] pops(g, c) by {
                if pops(g, c) {
                    assert(marked(pop, c));
                }
            }
        }
    }
    (found, pop)
}

/// Whether a neighbor of `(y, x)` in play is flagged.
pub fn beside_flagged(pop: &[[bool; 6]; 13], y: usize, x: usize) -> (b: bool)
    requires
        y < 13,
        x < 6,
    ensures
        b <==> exists|k: int|
            0 <= k < 4 && in_play(#[trigger] beside((y as int, x as int), k)) && marked(
                *pop,
                beside((y as int, x as int), k),
            ),
{
    let ghost here = (y as int, x as int);
    let mut k: usize = 0;
    while k < 4
        invariant
            k <= 4,
            y < 13,
            x < 6,
            here == (y as int, x as int),
            forall|d: int|
                0 <= d < k ==> !(in_play(#[trigger] beside(here, d)) && marked(
                    *pop,
                    beside(here, d),
                )),
        decreases 4 - k,
    {
        match neighbor(y, x, k) {
            Some(n) => {
                if pop[n.0][n.1] {
                    return true;
                }
            },
            None => {},
        }
        k += 1;
    }
    false
}

/// Empties the flagged cells, and the obstacles in play beside one.
pub fn clear_groups<F: Field>(field: &mut F, pop: &[[bool; 6]; 13])
    requires
        forall|c: (int, int)|
            #![trigger marked(*pop, c)]
            on_grid(c) ==> (marked(*pop, c) <==> pops(old(field).grid(), c)),
    ensures
        final(field).grid() == clear_round(old(field).grid()),
{
    let ghost g = field.grid();
    let mut i: usize = 1;
    proof {
        field.lemma_grid_wf();
    }
    while i < 13
        invariant
            1 <= i <= 13,
            grid_wf(g),
            grid_wf(field.grid()),
            forall|c: (int, int)|
                #![trigger marked(*pop, c)]
                on_grid(c) ==> (marked(*pop, c) <==> pops(g, c)),
            forall|c: (int, int)|
                #![trigger cell_color(field.grid(), c)]
                on_grid(c) ==> cell_color(field.grid(), c) == if passed(c, i as int, 0)
                    && cleared(g, c) {
                    0u8
                } else {
                    cell_color(g, c)
                },
        decreases 13 - i,
    {
        let mut j: usize = 0;
        while j < 6
            invariant
                1 <= i < 13,
                j <= 6,
                grid_wf(g),
                grid_wf(field.grid()),
                forall|c: (int, int)|
                    #![trigger marked(*pop, c)]
                    on_grid(c) ==> (marked(*pop, c) <==> pops(g, c)),
                forall|c: (int, int)|
                    #![trigger cell_color(field.grid(), c)]
                    on_grid(c) ==> cell_color(field.grid(), c) == if passed(c, i as int, j as int)
                        && cleared(g, c) {
                        0u8
                    } else {
                        cell_color(g, c)
                    },
            decreases 6 - j,
        {
            let ghost s = (i as int, j as int);
            let ghost cur = field.grid();
            assert(cell_color(cur, s) == cell_color(g, s));
            let hit = pop[i][j] || (field.get(i, j) == 1 && beside_flagged(pop, i, j));
            proof {
                assert(marked(*pop, s) <==> pops(g, s));
                if cell_color(g, s) == 1 {
                    if exists|n: (int, int)| #[trigger] popping_neighbor(g, s, n) {
                        let n = choose|n: (int, int)| #[trigger] popping_neighbor(g, s, n);
                        assert(n == beside(s, 0) || n == beside(s, 1) || n == beside(s, 2) || n
                            == beside(s, 3));
                    }
                    if hit && !marked(*pop, s) {
                        let k = choose|k: int|
                            0 <= k < 4 && in_play(#[trigger] beside(s, k)) && marked(
                                *pop,
                                beside(s, k),
                            );
                        assert(popping_neighbor(g, s, beside(s, k)));
                    }
                }
            }
            if hit {
                field.set(i, j, 0);
            }
            proof {
                assert forall|c: (int, int)|
                    #![trigger cell_color(field.grid(), c)]
                    on_grid(c) implies cell_color(field.grid(), c) == if passed(
                    c,
                    i as int,
                    j as int + 1,
                ) && cleared(g, c) {
                    0u8
                } else {
                    cell_color(g, c)
                } by {
                    if c != s {
                        assert(cell_color(field.grid(), c) == cell_color(cur, c));
                    }
                }
            }
            j += 1;
        }
        i += 1;
    }
    proof {
        let want = clear_round(g);
        assert forall|x: int, y: int| 0 <= x < 6 && 0 <= y < 13 implies color_at(field.grid(), y, x)
            == color_at(want, y, x) by {
            let c = (y, x);
            assert(cell_color(field.grid(), c) == if passed(c, 13, 0) && cleared(g, c) {
                0u8
            } else {
                cell_color(g, c)
            });
        }
        lemma_grid_ext(field.grid(), want);
    }
}

} // verus!
