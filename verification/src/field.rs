//! The board contract, and what is computed from a board through it alone.

use crate::grid::{
    cells_fit, color_at, column_top, empty_grid, fall_grid, grid_is_alive, grid_is_empty, grid_wf,
    occupied, put, top_from,
};
use crate::group::{chain_length, has_group, lemma_occupied_bound, lemma_round_shrinks, settled};
use crate::sweep::{clear_groups, find_groups};
use vstd::prelude::*;

verus! {

/// What a board offers, whatever its storage.
///
/// A board stands for a grid of six columns of thirteen cells, `grid()`.
/// Every method says what it does to that grid or what it reads from it, and
/// nothing else about a board can be observed, so two boards with the same
/// grid cannot be told apart.
///
/// A cell holds a value up to 7: the packed layout has three bits for it.
pub trait Field: Sized {
    /// The grid that this board stands for.
    spec fn grid(&self) -> Seq<Seq<u8>>;

    /// The grid of a board always has six columns of thirteen cells.
    proof fn lemma_grid_wf(&self)
        ensures
            grid_wf(self.grid()),
    ;

    /// The board without any cell.
    fn new() -> (f: Self)
        ensures
            f.grid() == empty_grid(),
    ;

    /// The board whose column `x` holds `value[x]`, top row first.
    fn from_u8(value: [[u8; 13]; 6]) -> (f: Self)
        requires
            cells_fit(array_grid(value)),
        ensures
            f.grid() == array_grid(value),
    ;

    /// The board drawn by `value`, one character per cell, column by column.
    fn from_char(value: [[char; 13]; 6]) -> (f: Self)
        ensures
            f.grid() == chars_grid(value),
    ;

    /// Writes `v` at row `y` of column `x`.
    fn set(&mut self, y: usize, x: usize, v: u8)
        requires
            y < 13,
            x < 6,
            v <= 7,
        ensures
            final(self).grid() == put(old(self).grid(), y as int, x as int, v),
    ;

    /// The color at row `y` of column `x`.
    fn get(&self, y: usize, x: usize) -> (v: u8)
        requires
            y < 13,
            x < 6,
        ensures
            v == color_at(self.grid(), y as int, x as int),
    ;

    /// Gravity: in every column the occupied cells drop to the floor in
    /// their order.
    fn fall(&mut self)
        ensures
            final(self).grid() == fall_grid(old(self).grid()),
    ;

    /// Whether no cell is occupied.
    fn is_empty(&self) -> (b: bool)
        ensures
            b == grid_is_empty(self.grid()),
    ;

    /// Whether the spawn cell is free.
    fn is_alive(&self) -> (b: bool)
        ensures
            b == grid_is_alive(self.grid()),
    ;
}

/// The grid that an array of six columns spells out.
pub open spec fn array_grid(value: [[u8; 13]; 6]) -> Seq<Seq<u8>> {
    Seq::new(6, |x: int| value@[x]@)
}

/// The color that a character stands for: `@` is the obstacle, `r`, `b`,
/// `g`, `y`, `p` are the five colors, anything else is an empty cell.
pub open spec fn char_color(c: char) -> u8 {
    if c == '@' {
        1
    } else if c == 'r' {
        2
    } else if c == 'b' {
        3
    } else if c == 'g' {
        4
    } else if c == 'y' {
        5
    } else if c == 'p' {
        6
    } else {
        0
    }
}

/// The grid that an array of characters draws.
pub open spec fn chars_grid(value: [[char; 13]; 6]) -> Seq<Seq<u8>> {
    Seq::new(6, |x: int| Seq::new(13, |y: int| char_color(value@[x]@[y])))
}

/// The color code of one character.
pub fn color_of_char(c: char) -> (v: u8)
    ensures
        v == char_color(c),
        v <= 6,
{
    if c == '@' {
        1
    } else if c == 'r' {
        2
    } else if c == 'b' {
        3
    } else if c == 'g' {
        4
    } else if c == 'y' {
        5
    } else if c == 'p' {
        6
    } else {
        0
    }
}

/// The color codes of a drawn board, cell by cell.
pub fn decode_chars(value: &[[char; 13]; 6]) -> (res: [[u8; 13]; 6])
    ensures
        array_grid(res) == chars_grid(*value),
        cells_fit(array_grid(res)),
{
    let mut res = [[0u8;13];6];
    let mut j: usize = 0;
    while j < 6
        invariant
            j <= 6,
            forall|x: int, y: int|
                0 <= x < j && 0 <= y < 13 ==> (#[trigger] res@[x]@[y]) == char_color(
                    value@[x]@[y],
                ),
        decreases 6 - j,
    {
        let mut i: usize = 0;
        while i < 13
            invariant
                j < 6,
                i <= 13,
                forall|x: int, y: int|
                    0 <= x < j && 0 <= y < 13 ==> (#[trigger] res@[x]@[y]) == char_color(
                        value@[x]@[y],
                    ),
                forall|y: int|
                    0 <= y < i ==> (#[trigger] res@[j as int]@[y]) == char_color(
                        value@[j as int]@[y],
                    ),
            decreases 13 - i,
        {
            res[j][i] = color_of_char(value[j][i]);
            i += 1;
        }
        j += 1;
    }
    proof {
        let a = array_grid(res);
        let b = chars_grid(*value);
        assert forall|x: int| 0 <= x < 6 implies a[x] == b[x] by {}
    }
    res
}

/// The topmost occupied row of column `x`, or `None` where the column is
/// empty down to the floor.
pub fn get_top<F: Field>(field: &F, x: usize) -> (top: Option<usize>)
    requires
        x < 6,
    ensures
        match top {
            Some(y) => column_top(field.grid()[x as int]) == Some(y as int),
            None => column_top(field.grid()[x as int]) is None,
        },
{
    proof {
        field.lemma_grid_wf();
    }
    let ghost col = field.grid()[x as int];
    let mut y: usize = 0;
    while y < 13
        invariant
            y <= 13,
            x < 6,
            col == field.grid()[x as int],
            col.len() == 13,
            column_top(col) == top_from(col, y as int),
        decreases 13 - y,
    {
        if field.get(y, x) != 0 {
            return Some(y);
        }
        y += 1;
    }
    None
}

/// Resolves the chain of a board in place and returns its length.
///
/// Each round clears every matching group, and every obstacle in play
/// beside a cleared cell, and then lets the rest fall. The rounds go on
/// until one finds no matching group; the result counts those that did.
pub fn chain<F: Field>(field: &mut F) -> (count: u32)
    ensures
        final(field).grid() == settled(old(field).grid()),
        count == chain_length(old(field).grid()),
        !has_group(final(field).grid()),
{
    let ghost start = field.grid();
    let mut chain_count = 0u32;
    proof {
        field.lemma_grid_wf();
        lemma_occupied_bound(start);
    }
    loop
        invariant
            grid_wf(start),
            grid_wf(field.grid()),
            occupied(start) <= 78,
            chain_count + occupied(field.grid()) <= occupied(start),
            settled(start) == settled(field.grid()),
            chain_length(start) == chain_length(field.grid()) + chain_count,
        ensures
            !has_group(field.grid()),
        decreases occupied(field.grid()),
    {
        let ghost cur = field.grid();
        let (chained, pop) = find_groups(field, false);
        if !chained {
            break ;
        }
        clear_groups(field, &pop);
        field.fall();
        proof {
            lemma_round_shrinks(cur);
        }
        chain_count += 1;
    }
    chain_count
}

/// Whether a matching group stands on the board: whether a chain would
/// have at least one round. The board is not changed.
pub fn has_chain<F: Field>(field: &F) -> (b: bool)
    ensures
        b == has_group(field.grid()),
{
    find_groups(field, true).0
}

} // verus!
