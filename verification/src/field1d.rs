//! The board as one flat array, column after column.

use crate::field::{array_grid, decode_chars, Field};
use crate::grid::{
    color_at, empty_grid, grid_wf, lemma_grid_ext, lemma_sink_blank, lemma_sink_done,
    lemma_sink_rest, lemma_sink_start, lemma_sink_swap, put, settle, sinking,
};
use vstd::prelude::*;

verus! {

/// A board stored as 78 bytes: row `y` of column `x` lies at `y + 13 * x`.
#[derive(Debug, Clone, Copy, Eq, PartialEq, Hash)]
pub struct Field1D {
    value: [u8; 78],
}

/// The grid that a flat array of 78 cells spells out.
pub open spec fn flat_grid(value: [u8; 78]) -> Seq<Seq<u8>> {
    Seq::new(6, |x: int| Seq::new(13, |y: int| value@[y + x * 13]))
}

impl Field for Field1D {
    closed spec fn grid(&self) -> Seq<Seq<u8>> {
        flat_grid(self.value)
    }

    proof fn lemma_grid_wf(&self) {
    }

    fn new() -> (f: Self) {
        let f = Self { value: [0;78] };
        proof {
            lemma_grid_ext(f.grid(), empty_grid());
        }
        f
    }

    fn from_u8(value: [[u8; 13]; 6]) -> (f: Self) {
        let mut v = [0u8;78];
        let mut j: usize = 0;
        while j < 6
            invariant
                j <= 6,
                forall|x: int, y: int|
                    0 <= x < j && 0 <= y < 13 ==> (#[trigger] v@[y + x * 13]) == value@[x]@[y],
            decreases 6 - j,
        {
            let mut i: usize = 0;
            while i < 13
                invariant
                    j < 6,
                    i <= 13,
                    forall|x: int, y: int|
                        0 <= x < j && 0 <= y < 13 ==> (#[trigger] v@[y + x * 13]) == value@[x]@[y],
                    forall|y: int|
                        0 <= y < i ==> (#[trigger] v@[y + j * 13]) == value@[j as int]@[y],
                decreases 13 - i,
            {
                v[i + j * 13] = value[j][i];
                i += 1;
            }
            j += 1;
        }
        let f = Self { value: v };
        proof {
            lemma_grid_ext(f.grid(), array_grid(value));
        }
        f
    }

    fn from_char(value: [[char; 13]; 6]) -> (f: Self) {
        Self::from_u8(decode_chars(&value))
    }

    #[inline]
    fn get(&self, y: usize, x: usize) -> (v: u8) {
        self.value[y + x * 13]
    }

    #[inline]
    fn set(&mut self, y: usize, x: usize, v: u8) {
        self.value[y + x * 13] = v;
        proof {
            let want = put(old(self).grid(), y as int, x as int, v);
            lemma_grid_ext(self.grid(), want);
        }
    }

    #[inline]
    fn is_alive(&self) -> (b: bool) {
        self.value[27] == 0
    }

    #[inline]
    fn is_empty(&self) -> (b: bool) {
        let mut k: usize = 0;
        while k < 78
            invariant
                k <= 78,
                forall|n: int| 0 <= n < k ==> self.value@[n] == 0,
            decreases 78 - k,
        {
            if self.value[k] != 0 {
                proof {
                    let x = k as int / 13;
                    let y = k as int % 13;
                    assert(color_at(self.grid(), y, x) == self.value@[y + x * 13]);
                }
                return false;
            }
            k += 1;
        }
        true
    }

    fn fall(&mut self) {
        let ghost before = self.grid();
        let mut j: usize = 0;
        while j < 6
            invariant
                j <= 6,
                grid_wf(before),
                forall|x: int| 0 <= x < j ==> (#[trigger] self.grid()[x]) == settle(before[x]),
                forall|x: int| j <= x < 6 ==> (#[trigger] self.grid()[x]) == before[x],
            decreases 6 - j,
        {
            let ghost col = before[j as int];
            let ghost entry = self.grid();
            let mut space: usize = 0;
            let mut i: usize = 13;
            proof {
                lemma_sink_start(col);
            }
            while i > 0
                invariant
                    j < 6,
                    i <= 13,
                    space <= 13 - i,
                    col.len() == 13,
                    grid_wf(entry),
                    forall|x: int| 0 <= x < 6 && x != j ==> (#[trigger] self.grid()[x]) == entry[x],
                    sinking(col, self.grid()[j as int], i as int, space as int),
                decreases i,
            {
                i -= 1;
                let ghost cur = self.grid()[j as int];
                let ghost g0 = self.grid();
                if self.get(i, j) == 0 {
                    space += 1;
                    proof {
                        lemma_sink_blank(col, cur, i as int, space as int - 1);
                    }
                    continue ;
                }
                if space == 0 {
                    proof {
                        lemma_sink_rest(col, cur, i as int);
                    }
                    continue ;
                }
                let a = self.get(i, j);
                let b = self.get(i + space, j);
                self.value[i + j * 13] = b;
                self.value[i + space + j * 13] = a;
                proof {
                    lemma_sink_swap(col, cur, i as int, space as int);
                    assert forall|x: int| 0 <= x < 6 && x != j implies (#[trigger] self.grid()[x])
                        == entry[x] by {
                        assert(self.grid()[x] =~= g0[x]);
                    }
                    assert(self.grid()[j as int] =~= cur.update(i as int, 0u8).update(
                        i + space,
                        col[i as int],
                    ));
                }
            }
            proof {
                lemma_sink_done(col, self.grid()[j as int], space as int);
            }
            j += 1;
        }
    }
}

} // verus!
