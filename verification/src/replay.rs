//! Runs of board operations, to hold one storage layout against another.

use crate::field::Field;
use crate::grid::{color_at, fall_grid, put};
use crate::group::{chain_length, settled};
use vstd::prelude::*;

verus! {

/// One operation on a board.
#[derive(Debug, Clone, Copy, PartialEq, Eq)]
pub enum BoardOp {
    /// Read the cell at row `y` of column `x`.
    Read { y: usize, x: usize },
    /// Write `v` at row `y` of column `x`.
    Write { y: usize, x: usize, v: u8 },
    /// Let the cells fall.
    Fall,
}

/// The operation names a cell of the board, and writes a value that a cell
/// can hold.
pub open spec fn op_valid(op: BoardOp) -> bool {
    match op {
        BoardOp::Read { y, x } => y < 13 && x < 6,
        BoardOp::Write { y, x, v } => y < 13 && x < 6 && v <= 7,
        BoardOp::Fall => true,
    }
}

/// The grid after one operation.
pub open spec fn grid_after(g: Seq<Seq<u8>>, op: BoardOp) -> Seq<Seq<u8>> {
    match op {
        BoardOp::Read { y, x } => g,
        BoardOp::Write { y, x, v } => put(g, y as int, x as int, v),
        BoardOp::Fall => fall_grid(g),
    }
}

/// What one operation reads: the color of the cell for a read, nothing else.
pub open spec fn op_reads(g: Seq<Seq<u8>>, op: BoardOp) -> Seq<u8> {
    match op {
        BoardOp::Read { y, x } => seq![color_at(g, y as int, x as int)],
        _ => Seq::empty(),
    }
}

/// The grid after a run of operations.
pub open spec fn grid_after_all(g: Seq<Seq<u8>>, ops: Seq<BoardOp>) -> Seq<Seq<u8>>
    decreases ops.len(),
{
    if ops.len() == 0 {
        g
    } else {
        grid_after(grid_after_all(g, ops.drop_last()), ops.last())
    }
}

/// The colors that the reads of a run return, in their order.
pub open spec fn reads_of(g: Seq<Seq<u8>>, ops: Seq<BoardOp>) -> Seq<u8>
    decreases ops.len(),
{
    if ops.len() == 0 {
        Seq::empty()
    } else {
        reads_of(g, ops.drop_last()) + op_reads(grid_after_all(g, ops.drop_last()), ops.last())
    }
}

/// Runs `ops` on `field` and returns what the reads among them gave.
pub fn replay<F: Field>(field: &mut F, ops: &Vec<BoardOp>) -> (reads: Vec<u8>)
    requires
        forall|i: int| 0 <= i < ops@.len() ==> op_valid(#[trigger] ops@[i]),
    ensures
        final(field).grid() == grid_after_all(old(field).grid(), ops@),
        reads@ == reads_of(old(field).grid(), ops@),
{
    let ghost g = field.grid();
    let mut reads: Vec<u8> = Vec::new();
    let mut i: usize = 0;
    while i < ops.len()
        invariant
            i <= ops.len(),
            g == old(field).grid(),
            forall|n: int| 0 <= n < ops@.len() ==> op_valid(#[trigger] ops@[n]),
            field.grid() == grid_after_all(g, ops@.take(i as int)),
            reads@ == reads_of(g, ops@.take(i as int)),
        decreases ops.len() - i,
    {
        let op = ops[i];
        proof {
            assert(ops@.take(i as int + 1).drop_last() =~= ops@.take(i as int));
        }
        match op {
            BoardOp::Read { y, x } => {
                let v = field.get(y, x);
                reads.push(v);
            },
            BoardOp::Write { y, x, v } => {
                field.set(y, x, v);
            },
            BoardOp::Fall => {
                field.fall();
            },
        }
        i += 1;
    }
    proof {
        assert(ops@.take(ops@.len() as int) =~= ops@);
    }
    reads
}

/// The storage layout of a board cannot be observed: two boards that stand
/// for one grid, of whatever layouts, go through any run of operations with
/// the same reads, stand for one grid after it, and have chains of one
/// length that leave one grid.
pub proof fn lemma_backends_agree<A: Field, B: Field>(a: A, b: B, ops: Seq<BoardOp>)
    requires
        a.grid() == b.grid(),
    ensures
        reads_of(a.grid(), ops) == reads_of(b.grid(), ops),
        grid_after_all(a.grid(), ops) == grid_after_all(b.grid(), ops),
        chain_length(grid_after_all(a.grid(), ops)) == chain_length(grid_after_all(b.grid(), ops)),
        settled(grid_after_all(a.grid(), ops)) == settled(grid_after_all(b.grid(), ops)),
{
}

} // verus!
