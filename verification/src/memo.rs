//! The set of boards that a search has met.

use crate::field::{array_grid, Field};
use crate::grid::{color_at, lemma_grid_ext};
use std::collections::HashMap;
use vstd::prelude::*;

verus! {

broadcast use vstd::std_specs::hash::group_hash_axioms;

/// Modulus of the fingerprint, the prime 2^61 - 1.
pub const FINGERPRINT_MODULUS: u64 = 0x1fff_ffff_ffff_ffff;

/// The fingerprint of the first `n` cells of `s`, counted column by column.
pub open spec fn fingerprint_upto(s: [[u8; 13]; 6], n: int) -> u64
    decreases n,
{
    if n <= 0 {
        0
    } else {
        ((fingerprint_upto(s, n - 1) * 7 + s@[(n - 1) / 13]@[(n - 1) % 13]) % (
        FINGERPRINT_MODULUS as int)) as u64
    }
}

/// The number under which a board is filed.
pub open spec fn fingerprint_of(s: [[u8; 13]; 6]) -> u64 {
    fingerprint_upto(s, 78)
}

/// Arrays that spell out one grid are one array.
proof fn lemma_array_grid_one(a: [[u8; 13]; 6], b: [[u8; 13]; 6])
    requires
        array_grid(a) == array_grid(b),
    ensures
        a == b,
{
    assert forall|x: int| 0 <= x < 6 implies a[x] == b[x] by {
        assert(array_grid(a)[x] == array_grid(b)[x]);
    }
}

/// The cells of a board, column by column.
pub fn snapshot<F: Field>(field: &F) -> (cells: [[u8; 13]; 6])
    ensures
        array_grid(cells) == field.grid(),
{
    let mut cells = [[0u8;13];6];
    let mut x: usize = 0;
    while x < 6
        invariant
            x <= 6,
            forall|j: int, i: int|
                0 <= j < x && 0 <= i < 13 ==> (#[trigger] cells@[j]@[i]) == color_at(
                    field.grid(),
                    i,
                    j,
                ),
        decreases 6 - x,
    {
        let mut y: usize = 0;
        while y < 13
            invariant
                x < 6,
                y <= 13,
                forall|j: int, i: int|
                    0 <= j < x && 0 <= i < 13 ==> (#[trigger] cells@[j]@[i]) == color_at(
                        field.grid(),
                        i,
                        j,
                    ),
                forall|i: int|
                    0 <= i < y ==> (#[trigger] cells@[x as int]@[i]) == color_at(
                        field.grid(),
                        i,
                        x as int,
                    ),
            decreases 13 - y,
        {
            cells[x][y] = field.get(y, x);
            y += 1;
        }
        x += 1;
    }
    proof {
        field.lemma_grid_wf();
        lemma_grid_ext(array_grid(cells), field.grid());
    }
    cells
}

/// The fingerprint of a board.
pub fn fingerprint(s: &[[u8; 13]; 6]) -> (h: u64)
    ensures
        h == fingerprint_of(*s),
{
    let mut h: u64 = 0;
    let mut x: usize = 0;
    while x < 6
        invariant
            x <= 6,
            h < FINGERPRINT_MODULUS,
            h == fingerprint_upto(*s, x * 13),
        decreases 6 - x,
    {
        let mut y: usize = 0;
        while y < 13
            invariant
                x < 6,
                y <= 13,
                h < FINGERPRINT_MODULUS,
                h == fingerprint_upto(*s, x * 13 + y),
            decreases 13 - y,
        {
            h = (h * 7 + s[x][y] as u64) % FINGERPRINT_MODULUS;
            y += 1;
        }
        x += 1;
    }
    h
}

/// Whether two arrays hold the same cells.
pub fn same_cells(a: &[[u8; 13]; 6], b: &[[u8; 13]; 6]) -> (same: bool)
    ensures
        same == (*a == *b),
{
    let mut x: usize = 0;
    while x < 6
        invariant
            x <= 6,
            forall|j: int, i: int| 0 <= j < x && 0 <= i < 13 ==> a@[j]@[i] == b@[j]@[i],
        decreases 6 - x,
    {
        let mut y: usize = 0;
        while y < 13
            invariant
                x < 6,
                y <= 13,
                forall|j: int, i: int| 0 <= j < x && 0 <= i < 13 ==> a@[j]@[i] == b@[j]@[i],
                forall|i: int| 0 <= i < y ==> a@[x as int]@[i] == b@[x as int]@[i],
            decreases 13 - y,
        {
            if a[x][y] != b[x][y] {
                return false;
            }
            y += 1;
        }
        x += 1;
    }
    proof {
        assert forall|j: int| 0 <= j < 6 implies a@[j] == b@[j] by {}
        assert(*a =~= *b);
    }
    true
}

/// The boards that a search has met, filed under their fingerprints.
#[derive(Debug)]
pub struct Memo {
    buckets: HashMap<u64, Vec<[[u8; 13]; 6]>>,
}

impl Memo {
    /// Every board lies in the bucket of its fingerprint.
    pub closed spec fn wf(&self) -> bool {
        forall|h: u64, i: int|
            self.buckets@.contains_key(h) && 0 <= i < self.buckets@[h]@.len() ==> fingerprint_of(
                #[trigger] self.buckets@[h]@[i],
            ) == h
    }

    /// A board with the grid `g` lies at place `i` of bucket `h`.
    pub closed spec fn lies_at(&self, g: Seq<Seq<u8>>, h: u64, i: int) -> bool {
        &&& self.buckets@.contains_key(h)
        &&& 0 <= i < self.buckets@[h]@.len()
        &&& array_grid(self.buckets@[h]@[i]) == g
    }

    /// The memo holds a board with the grid `g`.
    pub open spec fn holds(&self, g: Seq<Seq<u8>>) -> bool {
        exists|h: u64, i: int| #[trigger] self.lies_at(g, h, i)
    }

    /// The grids of the boards in the memo.
    pub open spec fn view(&self) -> Set<Seq<Seq<u8>>> {
        Set::new(|g: Seq<Seq<u8>>| self.holds(g))
    }

    /// The memo without any board.
    pub fn new() -> (m: Self)
        ensures
            m.wf(),
            m@ == Set::<Seq<Seq<u8>>>::empty(),
    {
        Memo { buckets: HashMap::new() }
    }

    /// Whether the memo holds a board with the cells of `field`.
    pub fn contains<F: Field>(&self, field: &F) -> (found: bool)
        requires
            self.wf(),
        ensures
            found == self@.contains(field.grid()),
    {
        let key = snapshot(field);
        let h = fingerprint(&key);
        let ghost g = field.grid();
        proof {
            // a board with these cells can only lie in bucket `h`
            assert forall|h2: u64, i: int| #[trigger] self.lies_at(g, h2, i) implies h2 == h by {
                lemma_array_grid_one(self.buckets@[h2]@[i], key);
            }
        }
        match self.buckets.get(&h) {
            None => {
                proof {
                    vstd::std_specs::hash::axiom_contains_deref_key(self.buckets@, &h);
                }
                false
            },
            Some(bucket) => {
                proof {
                    vstd::std_specs::hash::axiom_maps_deref_key_to_value(
                        self.buckets@,
                        &h,
                        *bucket,
                    );
                }
                let mut i: usize = 0;
                while i < bucket.len()
                    invariant
                        i <= bucket.len(),
                        g == array_grid(key),
                        g == field.grid(),
                        self.buckets@.contains_key(h),
                        self.buckets@[h] == *bucket,
                        forall|k: int| 0 <= k < i ==> !#[trigger] self.lies_at(g, h, k),
                    decreases bucket.len() - i,
                {
                    if same_cells(&bucket[i], &key) {
                        proof {
                            assert(self.lies_at(g, h, i as int));
                        }
                        return true;
                    }
                    proof {
                        if self.lies_at(g, h, i as int) {
                            lemma_array_grid_one(bucket@[i as int], key);
                        }
                    }
                    i += 1;
                }
                false
            },
        }
    }

    /// Adds a board with the cells of `field`.
    pub fn insert<F: Field>(&mut self, field: &F)
        requires
            old(self).wf(),
        ensures
            final(self).wf(),
            final(self)@ == old(self)@.insert(field.grid()),
    {
        let key = snapshot(field);
        let h = fingerprint(&key);
        let ghost g = field.grid();
        let ghost before = self.buckets@;
        let mut bucket = match self.buckets.remove(&h) {
            Some(b) => {
                proof {
                    vstd::std_specs::hash::axiom_maps_deref_key_to_value(before, &h, b);
                }
                b
            },
            None => {
                proof {
                    vstd::std_specs::hash::axiom_contains_deref_key(before, &h);
                }
                Vec::new()
            },
        };
        proof {
            vstd::std_specs::hash::axiom_deref_key_removed(before, self.buckets@, &h);
        }
        let ghost was = bucket@;
        bucket.push(key);
        self.buckets.insert(h, bucket);
        proof {
            assert forall|q: Seq<Seq<u8>>| self@.contains(q) <==> old(self)@.insert(g).contains(
                q,
            ) by {
                if old(self).holds(q) {
                    let (h2, i) = choose|h2: u64, i: int| #[trigger] old(self).lies_at(q, h2, i);
                    assert(self.lies_at(q, h2, i));
                }
                if q == g {
                    assert(self.lies_at(q, h, was.len() as int));
                }
                if self.holds(q) && q != g {
                    let (h2, i) = choose|h2: u64, i: int| #[trigger] self.lies_at(q, h2, i);
                    assert(old(self).lies_at(q, h2, i));
                }
            }
        }
    }

    /// A memo with the same boards.
    pub fn duplicate(&self) -> (m: Self)
        requires
            self.wf(),
        ensures
            m.wf(),
            m@ == self@,
    {
        let m = Memo { buckets: self.buckets.clone() };
        proof {
            assert forall|q: Seq<Seq<u8>>| m.holds(q) <==> self.holds(q) by {
                if m.holds(q) {
                    let (h2, i) = choose|h2: u64, i: int| #[trigger] m.lies_at(q, h2, i);
                    assert(self.lies_at(q, h2, i));
                }
                if self.holds(q) {
                    let (h2, i) = choose|h2: u64, i: int| #[trigger] self.lies_at(q, h2, i);
                    assert(m.lies_at(q, h2, i));
                }
            }
        }
        m
    }
}

} // verus!
