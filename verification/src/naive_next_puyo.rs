//! The pieces of a puzzle, in the order in which they come.

use vstd::prelude::*;

verus! {

/// Up to ten pieces of two colors each. The first `len` entries of `value`
/// are the pieces; what follows them is not read.
#[derive(Debug, Clone, Copy)]
pub struct NaiveNextPuyo {
    pub value: [[u8; 2]; 10],
    pub len: usize,
}

impl NaiveNextPuyo {
    /// The pieces as a sequence of pairs of colors.
    pub open spec fn pieces(&self) -> Seq<(u8, u8)> {
        Seq::new(self.len as nat, |d: int| (self.value@[d]@[0], self.value@[d]@[1]))
    }

    /// There are at most ten pieces, and every color of a piece is a value
    /// that a cell can hold.
    pub open spec fn wf(&self) -> bool {
        &&& self.len <= 10
        &&& forall|d: int|
            0 <= d < self.len ==> (#[trigger] self.value@[d])@[0] <= 7 && self.value@[d]@[1] <= 7
    }

    /// No pieces.
    pub fn new() -> (next: Self)
        ensures
            next.len == 0,
            next.pieces() == Seq::<(u8, u8)>::empty(),
            next.wf(),
            forall|d: int| 0 <= d < 10 ==> (#[trigger] next.value@[d])@ == seq![0u8, 0u8],
    {
        let next = NaiveNextPuyo { value: [[0u8;2];10], len: 0 };
        next
    }

    /// The ten pieces of `v`, in their order.
    pub fn from_vec(v: Vec<[u8; 2]>) -> (next: Self)
        requires
            v@.len() == 10,
        ensures
            next.len == 10,
            next.value@ == v@,
    {
        let mut value = [[0u8;2];10];
        let mut d: usize = 0;
        while d < 10
            invariant
                d <= 10,
                v@.len() == 10,
                forall|i: int| 0 <= i < d ==> value@[i] == v@[i],
            decreases 10 - d,
        {
            value[d] = v[d];
            d += 1;
        }
        NaiveNextPuyo { len: v.len(), value }
    }
}

} // verus!
