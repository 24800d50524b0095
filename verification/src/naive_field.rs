//! The board as an array of six columns.

use crate::field::{array_grid, chain, decode_chars, Field};
use crate::group::{chain_length, settled};
use crate::grid::{
    color_at, empty_grid, grid_wf, lemma_grid_ext, lemma_sink_blank, lemma_sink_done,
    lemma_sink_rest, lemma_sink_start, lemma_sink_swap, settle, sinking,
};
use vstd::prelude::*;

verus! {

/// A board stored column by column, one byte per cell.
#[derive(Debug, PartialEq, Eq, Clone, Copy, Hash)]
pub struct NaiveField {
    value: [[u8; 13]; 6],
}

impl Field for NaiveField {
    closed spec fn grid(&self) -> Seq<Seq<u8>> {
        array_grid(self.value)
    }

    proof fn lemma_grid_wf(&self) {
    }

    fn new() -> (f: Self) {
        let f = NaiveField { value: [[0;13];6] };
        proof {
            lemma_grid_ext(f.grid(), empty_grid());
        }
        f
    }

    fn from_u8(value: [[u8; 13]; 6]) -> (f: Self) {
        NaiveField { value }
    }

    fn from_char(value: [[char; 13]; 6]) -> (f: Self) {
        Self::from_u8(decode_chars(&value))
    }

    #[inline]
    fn set(&mut self, y: usize, x: usize, v: u8) {
        self.value[x][y] = v;
    }

    #[inline]
    fn get(&self, y: usize, x: usize) -> (v: u8) {
        self.value[x][y]
    }

    fn fall(&mut self) {
        let ghost before = self.grid();
        let mut j: usize = 0;
        while j < 6
            invariant
                j <= 6,
                grid_wf(before),
                grid_wf(self.grid()),
                forall|x: int| 0 <= x < j ==> (#[trigger] self.grid()[x]) == settle(before[x]),
                forall|x: int| j <= x < 6 ==> (#[trigger] self.grid()[x]) == before[x],
            decreases 6 - j,
        {
            let ghost col = before[j as int];
            let ghost entry = self.grid();
            let mut space: usize = 0;
            let mut i: usize = 13;
            proof {
                lemma_sink_start(col);
            }
            while i > 0
                invariant
                    j < 6,
                    i <= 13,
                    space <= 13 - i,
                    col.len() == 13,
                    grid_wf(self.grid()),
                    grid_wf(entry),
                    forall|x: int| 0 <= x < 6 && x != j ==> (#[trigger] self.grid()[x]) == entry[x],
                    sinking(col, self.grid()[j as int], i as int, space as int),
                decreases i,
            {
                i -= 1;
                let ghost cur = self.grid()[j as int];
                let ghost g0 = self.grid();
                if self.get(i, j) == 0 {
                    space += 1;
                    proof {
                        lemma_sink_blank(col, cur, i as int, space as int - 1);
                    }
                    continue ;
                }
                if space == 0 {
                    proof {
                        lemma_sink_rest(col, cur, i as int);
                    }
                    continue ;
                }
                let a = self.get(i, j);
                let b = self.get(i + space, j);
                self.value[j][i] = b;
                let ghost mid = self.grid();
                self.value[j][i + space] = a;
                proof {
                    lemma_sink_swap(col, cur, i as int, space as int);
                    assert forall|x: int| 0 <= x < 6 && x != j implies (#[trigger] self.grid()[x])
                        == entry[x] by {
                        assert(mid[x] == g0[x]);
                    }
                }
            }
            proof {
                lemma_sink_done(col, self.grid()[j as int], space as int);
            }
            j += 1;
        }
    }

    #[inline]
    fn is_empty(&self) -> (b: bool) {
        let mut j: usize = 0;
        while j < 6
            invariant
                j <= 6,
                forall|x: int, y: int|
                    0 <= x < j && 0 <= y < 13 ==> color_at(self.grid(), y, x) == 0,
            decreases 6 - j,
        {
            let mut i: usize = 0;
            while i < 13
                invariant
                    j < 6,
                    i <= 13,
                    forall|x: int, y: int|
                        0 <= x < j && 0 <= y < 13 ==> color_at(self.grid(), y, x) == 0,
                    forall|y: int| 0 <= y < i ==> color_at(self.grid(), y, j as int) == 0,
                decreases 13 - i,
            {
                if self.value[j][i] != 0 {
                    assert(color_at(self.grid(), i as int, j as int) != 0);
                    return false;
                }
                i += 1;
            }
            j += 1;
        }
        true
    }

    #[inline]
    fn is_alive(&self) -> (b: bool) {
        self.get(1, 2) == 0
    }
}

/// The chain of a board, resolved in place: `chain` under another name.
pub fn static_dispatch_chain<T: Field>(field: &mut T) -> (count: u32)
    ensures
        final(field).grid() == settled(old(field).grid()),
        count == chain_length(old(field).grid()),
{
    chain(field)
}

} // verus!
