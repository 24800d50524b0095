//! The board packed into one word per column, three bits per cell.

use crate::field::{decode_chars, Field};
use crate::grid::{color_at, empty_grid, grid_wf, lemma_grid_ext, lemma_settle_push, put, settle};
use vstd::prelude::*;

verus! {

/// A board stored as six words. Row `y` of a column lies in bits `3 * y` to
/// `3 * y + 2` of its word, and the bits from 39 up are always zero, so two
/// boards with the same cells are the same value.
#[derive(Debug, PartialEq, Eq, Clone, Copy, Hash)]
pub struct FieldNaiveBit {
    value: [u64; 6],
}

/// First value that does not fit in the 39 bits of a column.
pub const COLUMN_LIMIT: u64 = 0x80_0000_0000;

/// The cell that a column word holds at row `y`.
pub open spec fn packed_cell(w: u64, y: int) -> u8 {
    ((w >> ((3 * y) as u64)) & 7) as u8
}

/// The column that a word holds.
pub open spec fn unpack(w: u64) -> Seq<u8> {
    Seq::new(13, |y: int| packed_cell(w, y))
}

/// The grid that six column words hold.
pub open spec fn packed_grid(value: [u64; 6]) -> Seq<Seq<u8>> {
    Seq::new(6, |x: int| unpack(value@[x]))
}

/// Masking a cell in place and shifting it down reads it.
proof fn lemma_bits_read(w: u64, s: u64)
    by (bit_vector)
    requires
        s <= 36,
    ensures
        (w & (7u64 << s)) >> s == (w >> s) & 7,
        (w >> s) & 7 <= 7,
        (w & (7u64 << s)) == 0 <==> (w >> s) & 7 == 0,
{
}

/// Writing a cell sets that cell, keeps the others, and stays in 39 bits.
proof fn lemma_bits_write(w: u64, s: u64, v: u64, t: u64)
    by (bit_vector)
    requires
        s <= 36,
        s % 3 == 0,
        t <= 36,
        t % 3 == 0,
        v <= 7,
        w < 0x80_0000_0000,
    ensures
        ((w & !(7u64 << s)) | (v << s)) < 0x80_0000_0000,
        t == s ==> (((w & !(7u64 << s)) | (v << s)) >> t) & 7 == v,
        t != s ==> (((w & !(7u64 << s)) | (v << s)) >> t) & 7 == (w >> t) & 7,
{
}

/// The zero word holds empty cells only.
proof fn lemma_bits_zero(s: u64)
    by (bit_vector)
    requires
        s <= 36,
    ensures
        (0u64 >> s) & 7 == 0,
{
}

/// Clearing the bits from 39 up changes no cell.
proof fn lemma_bits_trim(w: u64, s: u64)
    by (bit_vector)
    requires
        s <= 36,
    ensures
        ((w & 0x7f_ffff_ffff) >> s) & 7 == (w >> s) & 7,
        (w & 0x7f_ffff_ffff) < 0x80_0000_0000,
{
}

/// A column word without an occupied cell is zero.
proof fn lemma_bits_blank(w: u64)
    by (bit_vector)
    requires
        w < 0x80_0000_0000,
        (w >> 0) & 7 == 0,
        (w >> 3) & 7 == 0,
        (w >> 6) & 7 == 0,
        (w >> 9) & 7 == 0,
        (w >> 12) & 7 == 0,
        (w >> 15) & 7 == 0,
        (w >> 18) & 7 == 0,
        (w >> 21) & 7 == 0,
        (w >> 24) & 7 == 0,
        (w >> 27) & 7 == 0,
        (w >> 30) & 7 == 0,
        (w >> 33) & 7 == 0,
        (w >> 36) & 7 == 0,
    ensures
        w == 0,
{
}

/// Shifting the settled rows one row down leaves an empty row on top.
proof fn lemma_bits_shift_top(r: u64, s: u64)
    by (bit_vector)
    requires
        s <= 36,
        r >> s == 0,
    ensures
        ((r << 3) >> 0) & 7 == 0,
        (r << 3) >> (s + 3) == 0,
{
}

/// Shifting the settled rows one row down moves row `t / 3` to the next.
proof fn lemma_bits_shift_cell(r: u64, s: u64, t: u64)
    by (bit_vector)
    requires
        s <= 36,
        t < s,
        r >> s == 0,
    ensures
        ((r << 3) >> (t + 3)) & 7 == (r >> t) & 7,
{
}

/// Laying a cell under the settled rows: it is the new lowest row.
proof fn lemma_bits_lay_top(r: u64, w: u64, s: u64)
    by (bit_vector)
    requires
        s <= 36,
        r >> s == 0,
    ensures
        ((r | (w & (7u64 << s))) >> s) & 7 == (w >> s) & 7,
        (r | (w & (7u64 << s))) >> (s + 3) == 0,
{
}

/// Laying a cell under the settled rows changes none of them.
proof fn lemma_bits_lay_cell(r: u64, w: u64, s: u64, t: u64)
    by (bit_vector)
    requires
        s <= 36,
        s % 3 == 0,
        t % 3 == 0,
        t < s,
    ensures
        ((r | (w & (7u64 << s))) >> t) & 7 == (r >> t) & 7,
{
}

/// The mask of the top row and of the spawn row, and the end of a column.
proof fn lemma_bits_ends(r: u64)
    by (bit_vector)
    ensures
        0u64 >> 0 == 0,
        (7u64 << 0) == 7,
        (7u64 << 3) == 56,
        r >> 39 == 0 ==> r < 0x80_0000_0000,
{
}

/// The mask of a row, shifted by one cell, is the mask of the next row.
proof fn lemma_mask_step(s: u64)
    by (bit_vector)
    requires
        s <= 36,
    ensures
        (7u64 << s) << 3 == 7u64 << (s + 3),
{
}

impl FieldNaiveBit {
    /// Every column word fits in 39 bits.
    #[verifier::type_invariant]
    spec fn trimmed(self) -> bool {
        forall|x: int| 0 <= x < 6 ==> (#[trigger] self.value@[x]) < COLUMN_LIMIT
    }

    /// The board that six column words hold; bits from 39 up are dropped.
    pub fn from_packed(value: [u64; 6]) -> (f: Self)
        ensures
            f.grid() == packed_grid(value),
    {
        let mut trimmed = [0u64;6];
        let mut x: usize = 0;
        while x < 6
            invariant
                x <= 6,
                forall|j: int| 0 <= j < 6 ==> (#[trigger] trimmed@[j]) < COLUMN_LIMIT,
                forall|j: int| 0 <= j < x ==> unpack(#[trigger] trimmed@[j]) == unpack(value@[j]),
            decreases 6 - x,
        {
            trimmed[x] = value[x] & 0x7f_ffff_ffff;
            proof {
                let w = value@[x as int];
                let t = trimmed@[x as int];
                lemma_bits_trim(w, 0);
                assert forall|y: int| 0 <= y < 13 implies packed_cell(t, y) == packed_cell(
                    w,
                    y,
                ) by {
                    lemma_bits_trim(w, (3 * y) as u64);
                }
            }
            x += 1;
        }
        let f = FieldNaiveBit { value: trimmed };
        f
    }

    /// The six column words of the board.
    pub fn packed(&self) -> (value: [u64; 6])
        ensures
            packed_grid(value) == self.grid(),
            forall|x: int| 0 <= x < 6 ==> (#[trigger] value@[x]) < COLUMN_LIMIT,
    {
        proof {
            use_type_invariant(self);
        }
        self.value
    }
}

impl Field for FieldNaiveBit {
    closed spec fn grid(&self) -> Seq<Seq<u8>> {
        packed_grid(self.value)
    }

    proof fn lemma_grid_wf(&self) {
    }

    fn new() -> (f: Self) {
        let f = Self { value: [0, 0, 0, 0, 0, 0] };
        proof {
            assert forall|x: int, y: int| 0 <= x < 6 && 0 <= y < 13 implies color_at(f.grid(), y, x)
                == 0 by {
                lemma_bits_zero((3 * y) as u64);
            }
            lemma_grid_ext(f.grid(), empty_grid());
        }
        f
    }

    fn from_u8(value: [[u8; 13]; 6]) -> (f: Self) {
        let mut res = Self::new();
        let mut j: usize = 0;
        proof {
            assert forall|x: int, y: int| 0 <= x < 6 && 0 <= y < 13 implies value@[x]@[y] <= 7 by {
                assert(crate::field::array_grid(value)[x][y] <= 7);
            }
        }
        while j < 6
            invariant
                j <= 6,
                grid_wf(res.grid()),
                forall|x: int, y: int|
                    0 <= x < 6 && 0 <= y < 13 ==> value@[x]@[y] <= 7,
                forall|x: int, y: int|
                    0 <= x < j && 0 <= y < 13 ==> color_at(res.grid(), y, x) == value@[x]@[y],
            decreases 6 - j,
        {
            let mut i: usize = 0;
            while i < 13
                invariant
                    j < 6,
                    i <= 13,
                    grid_wf(res.grid()),
                    forall|x: int, y: int|
                        0 <= x < 6 && 0 <= y < 13 ==> value@[x]@[y] <= 7,
                    forall|x: int, y: int|
                        0 <= x < j && 0 <= y < 13 ==> color_at(res.grid(), y, x) == value@[x]@[y],
                    forall|y: int|
                        0 <= y < i ==> color_at(res.grid(), y, j as int) == value@[j as int]@[y],
                decreases 13 - i,
            {
                let ghost g0 = res.grid();
                res.set(i, j, value[j][i]);
                proof {
                    crate::grid::lemma_put_wf(g0, i as int, j as int, value@[j as int]@[i as int]);
                }
                i += 1;
            }
            j += 1;
        }
        proof {
            lemma_grid_ext(res.grid(), crate::field::array_grid(value));
        }
        res
    }

    fn from_char(value: [[char; 13]; 6]) -> (f: Self) {
        Self::from_u8(decode_chars(&value))
    }

    #[inline]
    fn set(&mut self, y: usize, x: usize, v: u8) {
        proof {
            use_type_invariant(&*self);
        }
        let mask = 7u64 << (y * 3);
        let ghost w = self.value@[x as int];
        let ghost s = (3 * y) as u64;
        proof {
            lemma_bits_write(w, s, v as u64, s);
        }
        self.value[x] = self.value[x] & !mask | ((v as u64) << (y * 3));
        proof {
            let want = put(old(self).grid(), y as int, x as int, v);
            assert forall|j: int, i: int| 0 <= j < 6 && 0 <= i < 13 implies color_at(
                self.grid(),
                i,
                j,
            ) == color_at(want, i, j) by {
                if j == x {
                    lemma_bits_write(w, s, v as u64, (3 * i) as u64);
                }
            }
            lemma_grid_ext(self.grid(), want);
        }
    }

    #[inline]
    fn get(&self, y: usize, x: usize) -> (v: u8) {
        let mask = 7u64 << (y * 3);
        proof {
            lemma_bits_read(self.value@[x as int], (3 * y) as u64);
        }
        ((self.value[x] & mask) >> (y * 3)) as u8
    }

    #[inline]
    fn fall(&mut self) {
        proof {
            use_type_invariant(&*self);
        }
        let ghost before = self.grid();
        let mut j: usize = 0;
        while j < 6
            invariant
                j <= 6,
                grid_wf(before),
                forall|x: int| 0 <= x < 6 ==> (#[trigger] self.value@[x]) < COLUMN_LIMIT,
                forall|x: int| 0 <= x < j ==> (#[trigger] self.grid()[x]) == settle(before[x]),
                forall|x: int| j <= x < 6 ==> (#[trigger] self.grid()[x]) == before[x],
            decreases 6 - j,
        {
            let w = self.value[j];
            let ghost col = unpack(w);
            let ghost entry = self.grid();
            let mut res = 0u64;
            let mut mask = 0b111u64;
            let mut k: usize = 0;
            proof {
                lemma_bits_ends(res);
            }
            while k < 13
                invariant
                    k <= 13,
                    col == unpack(w),
                    mask == 7u64 << ((3 * k) as u64),
                    res >> ((3 * k) as u64) == 0,
                    forall|i: int|
                        0 <= i < k ==> packed_cell(res, i) == (#[trigger] settle(
                            col.take(k as int),
                        )[i]),
                decreases 13 - k,
            {
                let ghost s = (3 * k) as u64;
                let ghost next = settle(col.take(k as int + 1));
                let ghost r0 = res;
                proof {
                    lemma_bits_read(w, s);
                    lemma_settle_push(col.take(k as int), col[k as int]);
                    assert(col.take(k as int).push(col[k as int]) =~= col.take(k as int + 1));
                    lemma_mask_step(s);
                }
                if w & mask == 0 {
                    res <<= 3;
                    proof {
                        lemma_bits_shift_top(r0, s);
                        assert forall|i: int| 0 <= i < k + 1 implies packed_cell(res, i)
                            == #[trigger] next[i] by {
                            if i > 0 {
                                lemma_bits_shift_cell(r0, s, (3 * (i - 1)) as u64);
                            }
                        }
                    }
                } else {
                    res |= w & mask;
                    proof {
                        lemma_bits_lay_top(r0, w, s);
                        assert forall|i: int| 0 <= i < k + 1 implies packed_cell(res, i)
                            == #[trigger] next[i] by {
                            if i < k {
                                lemma_bits_lay_cell(r0, w, s, (3 * i) as u64);
                            }
                        }
                    }
                }
                mask <<= 3;
                k += 1;
            }
            proof {
                lemma_bits_ends(res);
                assert(col.take(13) =~= col);
                assert(entry[j as int] == col);
            }
            self.value[j] = res;
            proof {
                assert forall|x: int| 0 <= x < 6 && x != j implies (#[trigger] self.grid()[x])
                    == entry[x] by {}
            }
            j += 1;
        }
    }

    #[inline]
    fn is_alive(&self) -> (b: bool) {
        proof {
            lemma_bits_read(self.value@[2], 3);
            lemma_bits_ends(0);
        }
        (self.value[2] & 0b111000) == 0
    }

    #[inline]
    fn is_empty(&self) -> (b: bool) {
        proof {
            use_type_invariant(self);
        }
        let mut x: usize = 0;
        while x < 6
            invariant
                x <= 6,
                forall|j: int| 0 <= j < 6 ==> (#[trigger] self.value@[j]) < COLUMN_LIMIT,
                forall|j: int| 0 <= j < x ==> (#[trigger] self.value@[j]) == 0,
            decreases 6 - x,
        {
            if self.value[x] != 0 {
                proof {
                    let w = self.value@[x as int];
                    if crate::grid::grid_is_empty(self.grid()) {
                        assert forall|y: int| 0 <= y < 13 implies packed_cell(w, y) == 0 by {
                            assert(color_at(self.grid(), y, x as int) == 0);
                        }
                        assert(packed_cell(w, 0) == 0 && packed_cell(w, 1) == 0 && packed_cell(w, 2)
                            == 0 && packed_cell(w, 3) == 0 && packed_cell(w, 4) == 0
                            && packed_cell(w, 5) == 0 && packed_cell(w, 6) == 0 && packed_cell(w, 7)
                            == 0 && packed_cell(w, 8) == 0 && packed_cell(w, 9) == 0
                            && packed_cell(w, 10) == 0 && packed_cell(w, 11) == 0 && packed_cell(
                            w,
                            12,
                        ) == 0);
                        lemma_bits_read(w, 0);
                        lemma_bits_read(w, 3);
                        lemma_bits_read(w, 6);
                        lemma_bits_read(w, 9);
                        lemma_bits_read(w, 12);
                        lemma_bits_read(w, 15);
                        lemma_bits_read(w, 18);
                        lemma_bits_read(w, 21);
                        lemma_bits_read(w, 24);
                        lemma_bits_read(w, 27);
                        lemma_bits_read(w, 30);
                        lemma_bits_read(w, 33);
                        lemma_bits_read(w, 36);
                        lemma_bits_blank(w);
                    }
                }
                return false;
            }
            x += 1;
        }
        proof {
            assert forall|j: int, y: int| 0 <= j < 6 && 0 <= y < 13 implies color_at(
                self.grid(),
                y,
                j,
            ) == 0 by {
                lemma_bits_zero((3 * y) as u64);
            }
        }
        true
    }
}

} // verus!
