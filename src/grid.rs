//! A fixed-size two-dimensional store addressed by `(x, y)` coordinates.

use vstd::prelude::*;
use crate::error::GenError;

verus! {

/// Row-major grid: cell `(x, y)` lives at index `y * width + x`.
#[derive(Debug, PartialEq, Eq, Hash)]
pub struct NodeMap<C> {
    pub width: usize,
    pub height: usize,
    /// The cells in row-major order; well-formed grids hold `width * height` of them.
    pub grid: Vec<C>,
}

/// The index of cell `(x, y)` is inside the backing store.
pub proof fn lemma_index_bounds(width: int, height: int, x: int, y: int)
    requires
        0 <= x < width,
        0 <= y < height,
    ensures
        0 <= y * width + x < width * height,
{
    assert(y * width <= (height - 1) * width) by (nonlinear_arith)
        requires
            0 <= y < height,
            0 <= width,
    ;
    assert((height - 1) * width + width == width * height) by (nonlinear_arith);
    assert(0 <= y * width) by (nonlinear_arith)
        requires
            0 <= y,
            0 <= width,
    ;
}

/// Two cells with equal indices are the same cell.
pub proof fn lemma_index_injective(width: int, x1: int, y1: int, x2: int, y2: int)
    requires
        0 <= x1 < width,
        0 <= x2 < width,
        0 <= y1,
        0 <= y2,
        y1 * width + x1 == y2 * width + x2,
    ensures
        x1 == x2,
        y1 == y2,
{
    if y1 < y2 {
        assert(y1 * width + width <= y2 * width) by (nonlinear_arith)
            requires
                y1 < y2,
                0 <= width,
        ;
    } else if y2 < y1 {
        assert(y2 * width + width <= y1 * width) by (nonlinear_arith)
            requires
                y2 < y1,
                0 <= width,
        ;
    }
}

impl<C> NodeMap<C> {
    /// The cells in row-major order.
    pub open spec fn cells(&self) -> Seq<C> {
        self.grid@
    }

    /// The backing store holds exactly `width * height` cells.
    pub open spec fn wf(&self) -> bool {
        self.cells().len() == self.width * self.height
    }

    /// `p` lies on the grid.
    pub open spec fn contains(&self, p: (usize, usize)) -> bool {
        p.0 < self.width && p.1 < self.height
    }

    /// The value of cell `p`.
    pub open spec fn at(&self, p: (usize, usize)) -> C {
        self.cells()[p.1 * self.width + p.0]
    }

    /// Same dimensions and same value in every cell.
    pub open spec fn same_as(&self, other: &NodeMap<C>) -> bool {
        &&& self.width == other.width
        &&& self.height == other.height
        &&& forall|p: (usize, usize)| #[trigger] self.contains(p) ==> self.at(p) == other.at(p)
    }

    /// Two well-formed grids that agree on every cell have the same backing store.
    pub proof fn lemma_same_cells(&self, other: &NodeMap<C>)
        requires
            self.wf(),
            other.wf(),
            self.same_as(other),
        ensures
            self.cells() == other.cells(),
    {
        assert forall|i: int| 0 <= i < self.cells().len() implies self.cells()[i]
            == other.cells()[i] by {
            let w = self.width as int;
            assert(w > 0) by (nonlinear_arith)
                requires
                    0 <= i < w * self.height,
                    self.height >= 0,
            ;
            let x = i % w;
            let y = i / w;
            assert(y * w + x == i) by (nonlinear_arith)
                requires
                    w > 0,
                    x == i % w,
                    y == i / w,
            ;
            assert(y < self.height) by (nonlinear_arith)
                requires
                    w > 0,
                    y == i / w,
                    0 <= i < w * self.height,
            ;
            let p = (x as usize, y as usize);
            assert(self.contains(p));
        }
        assert(self.cells() =~= other.cells());
    }

    /// Builds a grid over `values`, read in row-major order.
    pub fn from_vec(width: usize, height: usize, values: Vec<C>) -> (r: Self)
        requires
            width * height == values@.len(),
        ensures
            r.wf(),
            r.width == width,
            r.height == height,
            r.cells() == values@,
    {
        NodeMap { width, height, grid: values }
    }
}

impl<C> NodeMap<C> {
    /// Builds a grid over `values`, or reports `DimensionMismatch` when their
    /// number is not `width * height`.
    pub fn try_from_vec(width: usize, height: usize, values: Vec<C>) -> (r: Result<Self, GenError>)
        ensures
            r is Ok <==> width * height == values@.len(),
            r matches Ok(g) ==> g.wf() && g.width == width && g.height == height && g.cells() == values@,
            r matches Err(e) ==> e == GenError::DimensionMismatch,
    {
        let len = values.len();
        match width.checked_mul(height) {
            Some(n) => {
                if n == len {
                    Ok(NodeMap::from_vec(width, height, values))
                } else {
                    Err(GenError::DimensionMismatch)
                }
            },
            None => Err(GenError::DimensionMismatch),
        }
    }
}

impl<C: Clone> Clone for NodeMap<C> {
    /// A deep copy: the new grid has its own backing store.
    fn clone(&self) -> (r: Self)
        ensures
            r.width == self.width,
            r.height == self.height,
            r.cells().len() == self.cells().len(),
            forall|i: int| 0 <= i < self.cells().len() ==> cloned(self.cells()[i], #[trigger] r.cells()[i]),
    {
        NodeMap { width: self.width, height: self.height, grid: self.grid.clone() }
    }
}

impl<C: Clone> NodeMap<C> {
    /// A `width` by `height` grid with every cell a clone of `init`.
    pub fn new(width: usize, height: usize, init: C) -> (r: NodeMap<C>)
        requires
            width * height <= usize::MAX,
        ensures
            r.wf(),
            r.width == width,
            r.height == height,
            forall|p: (usize, usize)| #[trigger] r.contains(p) ==> cloned(init, r.at(p)),
    {
        let n: usize = width * height;
        let mut v: Vec<C> = Vec::with_capacity(n);
        v.resize(n, init);
        let r = NodeMap { width, height, grid: v };
        assert forall|p: (usize, usize)| #[trigger] r.contains(p) implies cloned(init, r.at(p)) by {
            lemma_index_bounds(width as int, height as int, p.0 as int, p.1 as int);
        }
        r
    }

    /// A clone of cell `p`.
    pub fn get(&self, p: &(usize, usize)) -> (r: C)
        requires
            self.wf(),
            self.contains(*p),
        ensures
            cloned(self.at(*p), r),
    {
        let n = self.grid.len();
        proof {
            lemma_index_bounds(self.width as int, self.height as int, p.0 as int, p.1 as int);
        }
        self.grid[p.1 * self.width + p.0].clone()
    }

    /// Overwrites cell `p` with `value`; every other cell keeps its value.
    pub fn set(&mut self, p: &(usize, usize), value: C)
        requires
            old(self).wf(),
            old(self).contains(*p),
        ensures
            final(self).wf(),
            final(self).width == old(self).width,
            final(self).height == old(self).height,
            final(self).at(*p) == value,
            final(self).cells() == old(self).cells().update(p.1 * old(self).width + p.0, value),
            forall|q: (usize, usize)|
                #[trigger] final(self).contains(q) && q != *p ==> final(self).at(q) == old(self).at(q),
    {
        let n = self.grid.len();
        proof {
            lemma_index_bounds(self.width as int, self.height as int, p.0 as int, p.1 as int);
        }
        let i = p.1 * self.width + p.0;
        self.grid.set(i, value);
        proof {
            assert forall|q: (usize, usize)| #[trigger] self.contains(q) && q != *p implies self.at(q)
                == old(self).at(q) by {
                lemma_index_bounds(self.width as int, self.height as int, q.0 as int, q.1 as int);
                if q.1 * self.width + q.0 == i {
                    lemma_index_injective(self.width as int, q.0 as int, q.1 as int, p.0 as int, p.1 as int);
                }
            }
        }
    }
}

} // verus!
