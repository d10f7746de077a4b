//! Tiles: a grid whose cells are fixed-size tiles forms a finer coordinate
//! space, `extent` times finer than the grid's own on each axis.
use vstd::prelude::*;
use crate::expandable_grid::{ExpandableGrid, lemma_flat_injective_eq, lemma_position_in_bounds};
use crate::vector::{IVec2, UVec2};

verus! {

/// A fixed-size tile of `Output` cells, addressed by offsets in
/// `[0, extent())`.
pub trait Subchunk: Sized {
    type Output;

    /// The tile's width and height in cells.
    spec fn extent() -> UVec2;

    /// Whether this tile is well formed, so that every offset inside the
    /// extent addresses a cell.
    spec fn tile_wf(&self) -> bool;

    /// The cell at offset `(x, y)`.
    spec fn cell(&self, x: int, y: int) -> Self::Output;

    /// The tile's width and height in cells.
    fn subchunk_size() -> (r: UVec2)
        ensures
            r == Self::extent(),
    ;

    /// The cell at `offset`.
    fn at(&self, offset: UVec2) -> (r: &Self::Output)
        requires
            self.tile_wf(),
            offset.x < Self::extent().x,
            offset.y < Self::extent().y,
        ensures
            *r == self.cell(offset.x as int, offset.y as int),
    ;

    /// A mutable reference to the cell at `offset`; every other cell is
    /// left as it was.
    fn at_mut(&mut self, offset: UVec2) -> (r: &mut Self::Output)
        requires
            old(self).tile_wf(),
            offset.x < Self::extent().x,
            offset.y < Self::extent().y,
        ensures
            *r == old(self).cell(offset.x as int, offset.y as int),
            final(self).tile_wf(),
            final(self).cell(offset.x as int, offset.y as int) == *final(r),
            forall|x: int, y: int|
                0 <= x < Self::extent().x && 0 <= y < Self::extent().y && (x != offset.x || y
                    != offset.y) ==> #[trigger] final(self).cell(x, y) == old(self).cell(x, y),
    ;
}

/// A tile of `W` by `H` cells stored row by row.
#[derive(Clone, Debug)]
pub struct ArrayTile<T, const W: usize, const H: usize> {
    pub cells: Vec<T>,
}

impl<T, const W: usize, const H: usize> ArrayTile<T, W, H> {
    /// A tile whose every cell is a clone of `fill`.
    pub fn new(fill: &T) -> (r: Self) where T: Clone
        requires
            W * H <= usize::MAX,
        ensures
            r.tile_wf(),
            forall|x: int, y: int| 0 <= x < W && 0 <= y < H ==> cloned(*fill, #[trigger] r.cell(x, y)),
    {
        let n: usize = W * H;
        let mut cells: Vec<T> = Vec::with_capacity(n);
        let mut i: usize = 0;
        while i < n
            invariant
                i <= n,
                n == W * H,
                cells@.len() == i,
                forall|j: int| 0 <= j < i ==> cloned(*fill, #[trigger] cells@[j]),
            decreases n - i,
        {
            cells.push(fill.clone());
            i += 1;
        }
        let r = ArrayTile { cells };
        proof {
            assert forall|x: int, y: int| 0 <= x < W && 0 <= y < H implies cloned(*fill, #[trigger] r.cell(x, y)) by {
                lemma_position_in_bounds(x, y, W as int, H as int);
            }
        }
        r
    }
}

/// Row-major position of the cell `(x, y)` in a tile `w` cells wide.
pub open spec fn tile_index(x: int, y: int, w: int) -> int {
    x + y * w
}

impl<T, const W: usize, const H: usize> Subchunk for ArrayTile<T, W, H> {
    type Output = T;

    open spec fn extent() -> UVec2 {
        UVec2 { x: W, y: H }
    }

    open spec fn tile_wf(&self) -> bool {
        self.cells@.len() == W * H
    }

    open spec fn cell(&self, x: int, y: int) -> T {
        self.cells@[tile_index(x, y, W as int)]
    }

    fn subchunk_size() -> (r: UVec2) {
        UVec2 { x: W, y: H }
    }

    fn at(&self, offset: UVec2) -> (r: &T) {
        proof {
            lemma_position_in_bounds(offset.x as int, offset.y as int, W as int, H as int);
            assert(self.cells@.len() == self.cells.len());
        }
        &self.cells[offset.x + offset.y * W]
    }

    fn at_mut(&mut self, offset: UVec2) -> (r: &mut T) {
        proof {
            lemma_position_in_bounds(offset.x as int, offset.y as int, W as int, H as int);
            assert(self.cells@.len() == self.cells.len());
            assert forall|x: int, y: int|
                0 <= x < W && 0 <= y < H && (x != offset.x || y != offset.y) implies #[trigger] tile_index(x, y, W as int)
                    != offset.x + offset.y * W && 0 <= tile_index(x, y, W as int) < W * H by {
                lemma_position_in_bounds(x, y, W as int, H as int);
                if x + y * W == offset.x + offset.y * W {
                    lemma_flat_injective_eq(x, y, offset.x as int, offset.y as int, W as int);
                }
            }
        }
        &mut self.cells[offset.x + offset.y * W]
    }
}

/// Floor division by a positive divisor: the tile that holds a fine
/// coordinate, also for negative coordinates.
pub open spec fn floor_div(a: int, b: int) -> int {
    a / b
}

/// Floor remainder by a positive divisor: always in `[0, b)`.
pub open spec fn floor_mod(a: int, b: int) -> int {
    a % b
}

proof fn lemma_div_in_range(a: int, b: int)
    requires
        isize::MIN <= a <= isize::MAX,
        b >= 1,
    ensures
        isize::MIN <= a / b <= isize::MAX,
{
    if a >= 0 {
        assert(0 <= a / b <= a) by (nonlinear_arith)
            requires
                a >= 0,
                b >= 1,
        ;
    } else {
        assert(a <= a / b < 0) by (nonlinear_arith)
            requires
                a < 0,
                b >= 1,
        ;
    }
}

impl<T: Subchunk> ExpandableGrid<T> {
    /// Whether every tile of the grid is well formed.
    pub open spec fn tiles_wf(&self) -> bool {
        forall|i: int| 0 <= i < self.data@.len() ==> (#[trigger] self.data@[i]).tile_wf()
    }

    /// Whether the tile extent is usable for coordinate translation.
    pub open spec fn extent_ok() -> bool {
        &&& 0 < T::extent().x <= isize::MAX
        &&& 0 < T::extent().y <= isize::MAX
    }

    /// The value at the fine coordinate `index`, or `None` where the tile
    /// that holds it lies outside the grid.
    pub fn get_from_subchunk(&self, index: IVec2) -> (r: Option<&T::Output>)
        requires
            self.wf(),
            self.tiles_wf(),
            Self::extent_ok(),
        ensures
            r.is_some() == self.contains(
                floor_div(index.x as int, T::extent().x as int),
                floor_div(index.y as int, T::extent().y as int),
            ),
            r matches Some(v) ==> *v == self.value_at(
                floor_div(index.x as int, T::extent().x as int),
                floor_div(index.y as int, T::extent().y as int),
            ).cell(floor_mod(index.x as int, T::extent().x as int), floor_mod(index.y as int, T::extent().y as int)),
    {
        let (chunk, subchunk) = Self::subchunk_index_of(index);
        match self.index_of(chunk) {
            Some(i) => Some(self.data[i].at(subchunk)),
            None => None,
        }
    }

    /// A mutable reference to the value at the fine coordinate `index`, or
    /// `None` where the tile that holds it lies outside the grid. Every other
    /// value is left as it was.
    pub fn get_mut_from_subchunk(&mut self, index: IVec2) -> (r: Option<&mut T::Output>)
        requires
            old(self).wf(),
            old(self).tiles_wf(),
            Self::extent_ok(),
        ensures
            ({
                let tx = floor_div(index.x as int, T::extent().x as int);
                let ty = floor_div(index.y as int, T::extent().y as int);
                let ox = floor_mod(index.x as int, T::extent().x as int);
                let oy = floor_mod(index.y as int, T::extent().y as int);
                let p = old(self).position(tx, ty);
                &&& r.is_some() == old(self).contains(tx, ty)
                &&& r.is_none() ==> *final(self) == *old(self)
                &&& r.is_some() ==> {
                    &&& *r.unwrap() == old(self).value_at(tx, ty).cell(ox, oy)
                    &&& final(self).size == old(self).size
                    &&& final(self).origin == old(self).origin
                    &&& final(self).wf()
                    &&& final(self).tiles_wf()
                    &&& forall|i: int|
                        0 <= i < old(self).data@.len() && i != p ==> #[trigger] final(self).data@[i]
                            == old(self).data@[i]
                    &&& final(self).value_at(tx, ty).cell(ox, oy) == *final(r.unwrap())
                    &&& forall|x: int, y: int|
                        0 <= x < T::extent().x && 0 <= y < T::extent().y && (x != ox || y != oy)
                            ==> #[trigger] final(self).value_at(tx, ty).cell(x, y) == old(
                            self,
                        ).value_at(tx, ty).cell(x, y)
                }
            }),
    {
        let (chunk, subchunk) = Self::subchunk_index_of(index);
        match self.index_of(chunk) {
            Some(i) => Some(self.data[i].at_mut(subchunk)),
            None => None,
        }
    }

    /// The tile that holds the fine coordinate `index`, and the offset of
    /// `index` inside that tile. Division is floored, so negative fine
    /// coordinates fall in negative tiles and offsets are never negative.
    pub fn subchunk_index_of(index: IVec2) -> (r: (IVec2, UVec2))
        requires
            Self::extent_ok(),
        ensures
            r.0.x == floor_div(index.x as int, T::extent().x as int),
            r.0.y == floor_div(index.y as int, T::extent().y as int),
            r.1.x == floor_mod(index.x as int, T::extent().x as int),
            r.1.y == floor_mod(index.y as int, T::extent().y as int),
    {
        let extent = T::subchunk_size();
        let ex = extent.x as isize;
        let ey = extent.y as isize;
        proof {
            lemma_div_in_range(index.x as int, ex as int);
            lemma_div_in_range(index.y as int, ey as int);
        }
        let tx: isize = match index.x.checked_div_euclid(ex) {
            Some(q) => q,
            None => 0,
        };
        let ty: isize = match index.y.checked_div_euclid(ey) {
            Some(q) => q,
            None => 0,
        };
        let mx: isize = match index.x.checked_rem_euclid(ex) {
            Some(m) => m,
            None => 0,
        };
        let my: isize = match index.y.checked_rem_euclid(ey) {
            Some(m) => m,
            None => 0,
        };
        (IVec2 { x: tx, y: ty }, UVec2 { x: mx as usize, y: my as usize })
    }

    /// The grid's extent in fine coordinates: its size scaled by the tile
    /// extent.
    pub fn subchunk_index_size(&self) -> (r: UVec2)
        requires
            self.size.x * T::extent().x <= usize::MAX,
            self.size.y * T::extent().y <= usize::MAX,
        ensures
            r.x == self.size.x * T::extent().x,
            r.y == self.size.y * T::extent().y,
    {
        let extent = T::subchunk_size();
        UVec2 { x: self.size.x * extent.x, y: self.size.y * extent.y }
    }

    /// The grid's origin in fine coordinates: its origin scaled by the tile
    /// extent.
    pub fn subchunk_index_origin(&self) -> (r: IVec2)
        requires
            Self::extent_ok(),
            isize::MIN <= self.origin.x * T::extent().x <= isize::MAX,
            isize::MIN <= self.origin.y * T::extent().y <= isize::MAX,
        ensures
            r.x == self.origin.x * T::extent().x,
            r.y == self.origin.y * T::extent().y,
    {
        let extent = crate::util::usize_vec_to_isize(T::subchunk_size());
        IVec2 { x: self.origin.x * extent.x, y: self.origin.y * extent.y }
    }
}

} // verus!
