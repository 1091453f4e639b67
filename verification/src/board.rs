//! The board: a square grid of occupancy flags, fixed size, mutable
//! occupancy. It only records and answers which squares have been visited;
//! keeping every query in bounds is the caller's duty, stated as `requires`.

use vstd::prelude::*;

verus! {

/// A square as a pair of 0-indexed coordinates (row, column).
pub type Point = (i32, i32);

/// Both coordinates of `q` lie in `[0, size)`.
pub open spec fn in_bounds(size: int, q: Point) -> bool {
    &&& 0 <= q.0 as int
    &&& (q.0 as int) < size
    &&& 0 <= q.1 as int
    &&& (q.1 as int) < size
}

/// Row-major position of a square in a flattened `size * size` grid.
pub open spec fn square_index(size: int, q: Point) -> int {
    q.0 as int * size + q.1 as int
}

/// The row-major position of an in-bounds square lies in `[0, size * size)`.
pub proof fn lemma_square_index_bounds(size: int, q: Point)
    requires
        in_bounds(size, q),
    ensures
        0 <= square_index(size, q),
        square_index(size, q) < size * size,
{
    assert(0 <= q.0 as int * size + q.1 as int && (q.0 as int * size + q.1 as int) < size * size)
        by (nonlinear_arith)
        requires
            0 <= q.0 as int,
            (q.0 as int) < size,
            0 <= q.1 as int,
            (q.1 as int) < size,
    ;
}

/// Distinct in-bounds squares have distinct row-major positions.
pub proof fn lemma_square_index_injective(size: int, a: Point, b: Point)
    requires
        in_bounds(size, a),
        in_bounds(size, b),
        square_index(size, a) == square_index(size, b),
    ensures
        a == b,
{
    assert(a.0 as int == b.0 as int && a.1 as int == b.1 as int) by (nonlinear_arith)
        requires
            0 <= a.0 as int,
            (a.0 as int) < size,
            0 <= a.1 as int,
            (a.1 as int) < size,
            0 <= b.0 as int,
            (b.0 as int) < size,
            0 <= b.1 as int,
            (b.1 as int) < size,
            a.0 as int * size + a.1 as int == b.0 as int * size + b.1 as int,
    ;
    assert(a.0 == b.0 && a.1 == b.1);
}

/// An N x N grid of visited flags, N fixed at construction.
pub struct Board {
    size: usize,
    cells: Vec<bool>,
}

impl Board {
    /// The board's fixed dimension N, as a mathematical integer.
    pub closed spec fn spec_size(&self) -> int {
        self.size as int
    }

    /// Representation invariant: a positive size small enough that every
    /// coordinate fits an `i32` with room for a knight's offset, and a
    /// flattened grid of exactly `size * size` cells.
    pub closed spec fn wf(&self) -> bool {
        &&& 0 < self.size
        &&& self.size * self.size <= usize::MAX as int
        &&& self.size + 2 <= i32::MAX as int
        &&& self.cells@.len() == self.size * self.size
    }

    /// The size bounds that well-formedness guarantees, for use by callers.
    pub proof fn lemma_wf_bounds(&self)
        requires
            self.wf(),
        ensures
            0 < self.spec_size(),
            self.spec_size() + 2 <= i32::MAX as int,
            self.spec_size() * self.spec_size() <= usize::MAX as int,
    {
    }

    /// The set of squares marked visited; never holds an out-of-bounds square.
    pub closed spec fn visited_set(&self) -> Set<Point> {
        Set::new(
            |q: Point|
                in_bounds(self.spec_size(), q) && self.cells@[square_index(self.spec_size(), q)],
        )
    }

    /// A fresh board with every square unvisited.
    pub fn new(size: usize) -> (r: Board)
        requires
            0 < size,
            size * size <= usize::MAX as int,
            size + 2 <= i32::MAX as int,
        ensures
            r.wf(),
            r.spec_size() == size as int,
            r.visited_set() == Set::<Point>::empty(),
    {
        let n: usize = size * size;
        let mut cells: Vec<bool> = Vec::new();
        let mut i: usize = 0;
        while i < n
            invariant
                i <= n,
                cells@.len() == i as int,
                forall|j: int| 0 <= j < i as int ==> !cells@[j],
            decreases n - i,
        {
            cells.push(false);
            i += 1;
        }
        let r = Board { size, cells };
        proof {
            assert forall|q: Point| !r.visited_set().contains(q) by {
                if in_bounds(r.spec_size(), q) {
                    lemma_square_index_bounds(r.spec_size(), q);
                }
            }
            assert(r.visited_set() =~= Set::<Point>::empty());
        }
        r
    }

    /// The board's fixed dimension N.
    pub fn size(&self) -> (r: usize)
        ensures
            r as int == self.spec_size(),
    {
        self.size
    }

    /// Marks `p` visited; every other square keeps its flag.
    pub fn visit(&mut self, p: &Point)
        requires
            old(self).wf(),
            in_bounds(old(self).spec_size(), *p),
        ensures
            final(self).wf(),
            final(self).spec_size() == old(self).spec_size(),
            final(self).visited_set() == old(self).visited_set().insert(*p),
    {
        proof {
            lemma_square_index_bounds(self.spec_size(), *p);
            assert(p.0 as int * self.spec_size() <= square_index(self.spec_size(), *p));
        }
        let idx: usize = (p.0 as usize) * self.size + (p.1 as usize);
        self.cells.set(idx, true);
        proof {
            let n = old(self).spec_size();
            assert forall|q: Point|
                self.visited_set().contains(q) == old(self).visited_set().insert(*p).contains(
                    q,
                ) by {
                if in_bounds(n, q) {
                    lemma_square_index_bounds(n, q);
                    if q != *p {
                        if square_index(n, q) == square_index(n, *p) {
                            lemma_square_index_injective(n, q, *p);
                        }
                    }
                }
            }
            assert(self.visited_set() =~= old(self).visited_set().insert(*p));
        }
    }

    /// True iff `p` has been marked visited. Pure query.
    pub fn visited(&self, p: &Point) -> (r: bool)
        requires
            self.wf(),
            in_bounds(self.spec_size(), *p),
        ensures
            r == self.visited_set().contains(*p),
    {
        proof {
            lemma_square_index_bounds(self.spec_size(), *p);
            assert(p.0 as int * self.spec_size() <= square_index(self.spec_size(), *p));
        }
        let idx: usize = (p.0 as usize) * self.size + (p.1 as usize);
        self.cells[idx]
    }

    /// An independent copy: same size, same visited squares, no sharing.
    pub fn duplicate(&self) -> (r: Board)
        requires
            self.wf(),
        ensures
            r.wf(),
            r.spec_size() == self.spec_size(),
            r.visited_set() == self.visited_set(),
    {
        let mut cells: Vec<bool> = Vec::new();
        let mut i: usize = 0;
        while i < self.cells.len()
            invariant
                i <= self.cells@.len(),
                cells@ == self.cells@.take(i as int),
            decreases self.cells@.len() - i,
        {
            cells.push(self.cells[i]);
            proof {
                assert(self.cells@.take(i as int + 1) =~= self.cells@.take(i as int).push(
                    self.cells@[i as int],
                ));
            }
            i += 1;
        }
        proof {
            assert(self.cells@.take(self.cells@.len() as int) =~= self.cells@);
        }
        let r = Board { size: self.size, cells };
        proof {
            assert(r.visited_set() =~= self.visited_set());
        }
        r
    }
}

} // verus!
