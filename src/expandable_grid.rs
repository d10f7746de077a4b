//! The grid itself: storage, coordinate translation, growth and relocation.
use vstd::prelude::*;
use crate::vector::{IVec2, UVec2};
use crate::util::{calculate_exponential_distance, exp_growth};

verus! {

/// A 2d grid that can be expanded in any direction, addressed by signed
/// coordinates. It grows to fit a point or a box with `expand_to_fit_point`
/// and `expand_to_fit_box`, or to an exact layout with `change_size`.
///
/// `data` holds the cells row by row; the cell at buffer position `(0, 0)`
/// has the logical coordinate `origin`.
#[derive(Clone, Debug)]
pub struct ExpandableGrid<T> {
    pub size: UVec2,
    pub origin: IVec2,
    pub data: Vec<T>,
}

/// Whether a grid of `size` placed at `origin` can be represented: its cell
/// count fits in `usize` and its far corner fits in `isize`.
pub open spec fn layout_fits(size: UVec2, origin_x: int, origin_y: int) -> bool {
    fits(size.x as int, size.y as int, origin_x, origin_y)
}

/// `layout_fits` over integers, with sizes that must not be negative.
pub open spec fn fits(size_x: int, size_y: int, origin_x: int, origin_y: int) -> bool {
    &&& 0 <= size_x <= isize::MAX
    &&& 0 <= size_y <= isize::MAX
    &&& size_x * size_y <= usize::MAX
    &&& isize::MIN <= origin_x
    &&& isize::MIN <= origin_y
    &&& origin_x + size_x <= isize::MAX
    &&& origin_y + size_y <= isize::MAX
}

/// Growth on the low side of an axis at `origin` of length `len`, so that
/// it reaches down to `lo`.
pub open spec fn low_growth(origin: int, len: int, lo: int) -> int {
    if lo < origin {
        exp_growth(origin - lo, len)
    } else {
        0
    }
}

/// Growth on the high side of an axis at `origin` of length `len`, so that
/// it reaches up to (but excluding) `hi`.
pub open spec fn high_growth(origin: int, len: int, hi: int) -> int {
    if hi > origin + len {
        exp_growth(hi - (origin + len), len)
    } else {
        0
    }
}

/// A cell inside a `w` by `h` buffer has a row-major position inside it.
pub(crate) proof fn lemma_position_in_bounds(x: int, y: int, w: int, h: int)
    requires
        0 <= x < w,
        0 <= y < h,
    ensures
        0 <= x + y * w < w * h,
        0 <= y * w,
{
    assert(0 <= x + y * w < w * h) by (nonlinear_arith)
        requires
            0 <= x < w,
            0 <= y < h,
    ;
    assert(0 <= y * w) by (nonlinear_arith)
        requires
            0 <= y,
            0 <= w,
    ;
}

/// Row-major position of the cell `(x, y)` in a buffer `w` cells wide.
pub open spec fn flat(x: int, y: int, w: int) -> int {
    x + y * w
}

/// Distinct cells of a buffer `w` wide have distinct row-major positions.
proof fn lemma_flat_injective(x1: int, y1: int, x2: int, y2: int, w: int)
    requires
        0 <= x1 < w,
        0 <= x2 < w,
    ensures
        flat(x1, y1, w) == flat(x2, y2, w) ==> x1 == x2 && y1 == y2,
{
    if flat(x1, y1, w) == flat(x2, y2, w) {
        lemma_flat_injective_eq(x1, y1, x2, y2, w);
    }
}

/// Cells with the same row-major position in a buffer `w` wide are equal.
pub(crate) proof fn lemma_flat_injective_eq(x1: int, y1: int, x2: int, y2: int, w: int)
    requires
        0 <= x1 < w,
        0 <= x2 < w,
        flat(x1, y1, w) == flat(x2, y2, w),
    ensures
        x1 == x2,
        y1 == y2,
{
    assert(y1 == y2) by (nonlinear_arith)
        requires
            0 <= x1 < w,
            0 <= x2 < w,
            x1 + y1 * w == x2 + y2 * w,
    {
        if y1 > y2 {
            assert((y1 - y2) * w >= w);
        } else if y1 < y2 {
            assert((y2 - y1) * w >= w);
        }
    }
}

/// First position of the copy window along one axis: `max(0, -offset)`,
/// capped at `new_len`.
pub open spec fn window_start(new_len: int, offset: int) -> int {
    if offset >= 0 {
        0
    } else if -offset < new_len {
        -offset
    } else {
        new_len
    }
}

/// End of the copy window along one axis: `min(new_len, old_len - offset)`,
/// never before its start.
pub open spec fn window_end(old_len: int, new_len: int, offset: int) -> int {
    let start = window_start(new_len, offset);
    if old_len - offset <= start {
        start
    } else if old_len - offset < new_len {
        old_len - offset
    } else {
        new_len
    }
}

/// The range of positions `n` along one axis of a buffer `new_len` long
/// whose source `n + offset` lies inside an axis `old_len` long.
fn copy_window(old_len: usize, new_len: usize, offset: isize) -> (r: (usize, usize))
    requires
        old_len <= isize::MAX,
    ensures
        r.0 <= r.1 <= new_len,
        r.0 == window_start(new_len as int, offset as int),
        r.1 == window_end(old_len as int, new_len as int, offset as int),
{
    if offset >= 0 {
        let o = offset as usize;
        let end: usize = if o >= old_len {
            0
        } else if old_len - o < new_len {
            old_len - o
        } else {
            new_len
        };
        (0, end)
    } else {
        let o: usize = ((-(offset + 1)) as usize) + 1;
        let start: usize = if o < new_len { o } else { new_len };
        let far: usize = old_len + o;
        let end: usize = if far < new_len { far } else { new_len };
        (start, end)
    }
}

/// Whether the cell `(nx, ny)` of the new buffer has been filled from the old
/// one, when rows `sy..y` and the first cells `sx..x` of row `y` are done.
spec fn copied(nx: int, ny: int, sx: int, ex: int, sy: int, y: int, x: int) -> bool {
    sx <= nx < ex && (sy <= ny < y || (ny == y && nx < x))
}

/// Whether `after` keeps, at every cell that it shares with `before`, the
/// value that `before` held there, and holds a clone of `fill` at every
/// other cell.
pub open spec fn relocated<T: Clone>(after: ExpandableGrid<T>, before: ExpandableGrid<T>, fill: T) -> bool {
    forall|x: int, y: int|
        #![trigger after.value_at(x, y)]
        after.contains(x, y) ==> if before.contains(x, y) {
            after.value_at(x, y) == before.value_at(x, y)
        } else {
            cloned(fill, after.value_at(x, y))
        }
}

impl<T> ExpandableGrid<T> {
    /// The buffer holds exactly one cell per position, and the grid's layout
    /// is representable.
    pub open spec fn wf(&self) -> bool {
        &&& self.data@.len() == self.size.x * self.size.y
        &&& layout_fits(self.size, self.origin.x as int, self.origin.y as int)
    }

    /// Whether the grid has no extent at all.
    pub open spec fn is_empty_spec(&self) -> bool {
        self.size.x == 0 && self.size.y == 0
    }

    /// Whether the logical coordinate `(x, y)` lies inside the grid.
    pub open spec fn contains(&self, x: int, y: int) -> bool {
        &&& self.origin.x <= x < self.origin.x + self.size.x
        &&& self.origin.y <= y < self.origin.y + self.size.y
    }

    /// The buffer position of the logical coordinate `(x, y)`.
    pub open spec fn position(&self, x: int, y: int) -> int {
        (x - self.origin.x) + (y - self.origin.y) * self.size.x
    }

    /// The value stored at the logical coordinate `(x, y)`.
    pub open spec fn value_at(&self, x: int, y: int) -> T {
        self.data@[self.position(x, y)]
    }

    /// Creates a new, empty grid.
    pub fn new() -> (r: Self)
        ensures
            r.wf(),
            r.size == (UVec2 { x: 0, y: 0 }),
            r.origin == (IVec2 { x: 0, y: 0 }),
            r.data@.len() == 0,
    {
        ExpandableGrid { size: UVec2 { x: 0, y: 0 }, origin: IVec2 { x: 0, y: 0 }, data: Vec::new() }
    }

    /// Creates a new grid of `size` at `origin`, every cell a clone of `fill`.
    pub fn with_size(size: UVec2, origin: IVec2, fill: &T) -> (r: Self) where T: Clone
        requires
            layout_fits(size, origin.x as int, origin.y as int),
        ensures
            r.wf(),
            r.size == size,
            r.origin == origin,
            forall|i: int| 0 <= i < r.data@.len() ==> cloned(*fill, #[trigger] r.data@[i]),
    {
        let n: usize = size.x * size.y;
        let data = filled(fill, n);
        ExpandableGrid { size, origin, data }
    }

    /// The buffer position of `index`, or `None` where it lies outside the grid.
    pub fn index_of(&self, index: IVec2) -> (r: Option<usize>)
        requires
            self.wf(),
        ensures
            r.is_some() == self.contains(index.x as int, index.y as int),
            r matches Some(p) ==> p == self.position(index.x as int, index.y as int) && p
                < self.data@.len(),
    {
        if index.x < self.origin.x || index.y < self.origin.y {
            None
        } else if index.x >= self.origin.x + self.size.x as isize || index.y >= self.origin.y
            + self.size.y as isize {
            None
        } else {
            let absolute_index = UVec2 {
                x: (index.x - self.origin.x) as usize,
                y: (index.y - self.origin.y) as usize,
            };
            Some(self.vector_to_1d_index(absolute_index))
        }
    }

    /// The buffer position of `index`, which the caller knows to lie inside
    /// the grid.
    pub fn index_of_unchecked(&self, index: IVec2) -> (r: usize)
        requires
            self.wf(),
            self.contains(index.x as int, index.y as int),
        ensures
            r == self.position(index.x as int, index.y as int),
            r < self.data@.len(),
    {
        let absolute_index = UVec2 {
            x: (index.x - self.origin.x) as usize,
            y: (index.y - self.origin.y) as usize,
        };
        self.vector_to_1d_index(absolute_index)
    }

    fn vector_to_1d_index(&self, index: UVec2) -> (r: usize)
        requires
            self.wf(),
            index.x < self.size.x,
            index.y < self.size.y,
        ensures
            r == index.x + index.y * self.size.x,
            r < self.data@.len(),
    {
        proof {
            lemma_position_in_bounds(index.x as int, index.y as int, self.size.x as int, self.size.y as int);
        }
        index.x + index.y * self.size.x
    }

    /// The origin after `change_size` with `offset`: a grid that holds no
    /// cells is built afresh at `offset`, any other grid has its origin
    /// shifted by `offset`.
    pub open spec fn resized_origin(&self, offset: IVec2) -> (int, int) {
        if self.data@.len() == 0 {
            (offset.x as int, offset.y as int)
        } else {
            (self.origin.x + offset.x, self.origin.y + offset.y)
        }
    }

    /// Changes the size of this grid to `new_size`, shifting its origin by
    /// `offset`. Cells that fall outside the new bounds are dropped; every
    /// cell the old and new grids share keeps its value; new cells are clones
    /// of `fill`.
    pub fn change_size(&mut self, new_size: UVec2, offset: IVec2, fill: &T) where T: Clone
        requires
            old(self).wf(),
            layout_fits(new_size, old(self).resized_origin(offset).0, old(self).resized_origin(offset).1),
        ensures
            final(self).wf(),
            final(self).size == new_size,
            final(self).origin.x == old(self).resized_origin(offset).0,
            final(self).origin.y == old(self).resized_origin(offset).1,
            old(self).data@.len() == 0 ==> final(self).origin == offset,
            relocated(*final(self), *old(self), *fill),
    {
        if self.data.len() == 0 {
            proof {
                self.lemma_no_cells();
            }
            *self = Self::with_size(new_size, offset, fill);
            proof {
                assert forall|x: int, y: int| self.contains(x, y) implies cloned(
                    *fill,
                    #[trigger] self.value_at(x, y),
                ) by {
                    lemma_position_in_bounds(
                        x - self.origin.x,
                        y - self.origin.y,
                        self.size.x as int,
                        self.size.y as int,
                    );
                }
            }
            return;
        }
        let ghost before = *self;
        let w = new_size.x;
        let h = new_size.y;
        let ow = self.size.x;
        let oh = self.size.y;
        let mut data = filled(fill, w * h);
        let (sx, ex) = copy_window(ow, w, offset.x);
        let (sy, ey) = copy_window(oh, h, offset.y);
        let ghost ox = offset.x as int;
        let ghost oy = offset.y as int;
        let mut old_data: Vec<T> = Vec::new();
        std::mem::swap(&mut self.data, &mut old_data);
        proof {
            assert forall|nx: int, ny: int| 0 <= nx < w && 0 <= ny < h implies cloned(
                *fill,
                #[trigger] data@[flat(nx, ny, w as int)],
            ) by {
                lemma_position_in_bounds(nx, ny, w as int, h as int);
            }
        }

        let mut y: usize = sy;
        while y < ey
            invariant
                sy <= y <= ey <= h,
                sx <= ex <= w,
                ow == before.size.x,
                oh == before.size.y,
                w == new_size.x,
                h == new_size.y,
                w <= isize::MAX,
                h <= isize::MAX,
                ox == offset.x,
                oy == offset.y,
                before.wf(),
                w * h <= usize::MAX,
                sx == window_start(w as int, ox),
                ex == window_end(ow as int, w as int, ox),
                sy == window_start(h as int, oy),
                ey == window_end(oh as int, h as int, oy),
                data@.len() == w * h,
                old_data@.len() == ow * oh,
                before.data@.len() == ow * oh,
                forall|nx: int, ny: int|
                    #![trigger data@[flat(nx, ny, w as int)]]
                    0 <= nx < w && 0 <= ny < h ==> if copied(nx, ny, sx as int, ex as int, sy as int, y as int, sx as int) {
                        data@[flat(nx, ny, w as int)] == before.data@[flat(nx + ox, ny + oy, ow as int)]
                    } else {
                        cloned(*fill, data@[flat(nx, ny, w as int)])
                    },
                forall|ax: int, ay: int|
                    #![trigger old_data@[flat(ax, ay, ow as int)]]
                    0 <= ax < ow && 0 <= ay < oh && !copied(ax - ox, ay - oy, sx as int, ex as int, sy as int, y as int, sx as int)
                        ==> old_data@[flat(ax, ay, ow as int)] == before.data@[flat(ax, ay, ow as int)],
            decreases ey - y,
        {
            let mut x: usize = sx;
            while x < ex
                invariant
                    sy <= y < ey <= h,
                    sx <= x <= ex <= w,
                    w == new_size.x,
                    h == new_size.y,
                    w <= isize::MAX,
                    h <= isize::MAX,
                    ow == before.size.x,
                    oh == before.size.y,
                    ox == offset.x,
                    oy == offset.y,
                    before.wf(),
                    w * h <= usize::MAX,
                    sx == window_start(w as int, ox),
                    ex == window_end(ow as int, w as int, ox),
                    sy == window_start(h as int, oy),
                    ey == window_end(oh as int, h as int, oy),
                    data@.len() == w * h,
                    old_data@.len() == ow * oh,
                    before.data@.len() == ow * oh,
                    forall|nx: int, ny: int|
                        #![trigger data@[flat(nx, ny, w as int)]]
                        0 <= nx < w && 0 <= ny < h ==> if copied(nx, ny, sx as int, ex as int, sy as int, y as int, x as int) {
                            data@[flat(nx, ny, w as int)] == before.data@[flat(nx + ox, ny + oy, ow as int)]
                        } else {
                            cloned(*fill, data@[flat(nx, ny, w as int)])
                        },
                    forall|ax: int, ay: int|
                        #![trigger old_data@[flat(ax, ay, ow as int)]]
                        0 <= ax < ow && 0 <= ay < oh && !copied(ax - ox, ay - oy, sx as int, ex as int, sy as int, y as int, x as int)
                            ==> old_data@[flat(ax, ay, ow as int)] == before.data@[flat(ax, ay, ow as int)],
                decreases ex - x,
            {
                let src_x: usize = (x as isize + offset.x) as usize;
                let src_y: usize = (y as isize + offset.y) as usize;
                proof {
                    lemma_position_in_bounds(x as int, y as int, w as int, h as int);
                    lemma_position_in_bounds(src_x as int, src_y as int, ow as int, oh as int);
                }
                let ni: usize = x + y * w;
                let oi: usize = src_x + src_y * ow;
                let ghost data_pre = data@;
                let ghost old_pre = old_data@;
                std::mem::swap(&mut data[ni], &mut old_data[oi]);
                proof {
                    assert(data@ == data_pre.update(ni as int, old_pre[oi as int]));
                    assert(old_data@ == old_pre.update(oi as int, data_pre[ni as int]));
                    assert(old_pre[flat(src_x as int, src_y as int, ow as int)] == before.data@[flat(src_x as int, src_y as int, ow as int)]);
                    assert forall|nx: int, ny: int| 0 <= nx < w && 0 <= ny < h implies (if copied(nx, ny, sx as int, ex as int, sy as int, y as int, x + 1) {
                        data@[flat(nx, ny, w as int)] == before.data@[flat(nx + ox, ny + oy, ow as int)]
                    } else {
                        cloned(*fill, #[trigger] data@[flat(nx, ny, w as int)])
                    }) by {
                        lemma_flat_injective(nx, ny, x as int, y as int, w as int);
                        if nx == x && ny == y {
                            assert(flat(nx + ox, ny + oy, ow as int) == oi);
                        } else {
                            lemma_position_in_bounds(nx, ny, w as int, h as int);
                            assert(data@[flat(nx, ny, w as int)] == data_pre[flat(nx, ny, w as int)]);
                        }
                    }
                    assert forall|ax: int, ay: int| 0 <= ax < ow && 0 <= ay < oh && !copied(ax - ox, ay - oy, sx as int, ex as int, sy as int, y as int, x + 1)
                        implies #[trigger] old_data@[flat(ax, ay, ow as int)] == before.data@[flat(ax, ay, ow as int)] by {
                        lemma_flat_injective(ax, ay, src_x as int, src_y as int, ow as int);
                        if ax != src_x || ay != src_y {
                            lemma_position_in_bounds(ax, ay, ow as int, oh as int);
                            assert(old_data@[flat(ax, ay, ow as int)] == old_pre[flat(ax, ay, ow as int)]);
                        }
                    }
                }
                x += 1;
            }
            y += 1;
        }
        self.data = data;
        self.size = new_size;
        self.origin = IVec2 { x: self.origin.x + offset.x, y: self.origin.y + offset.y };
        proof {
            assert forall|x: int, y: int| #![trigger self.value_at(x, y)] self.contains(x, y) implies if before.contains(x, y) {
                self.value_at(x, y) == before.value_at(x, y)
            } else {
                cloned(*fill, self.value_at(x, y))
            } by {
                let nx = x - self.origin.x;
                let ny = y - self.origin.y;
                assert(self.position(x, y) == flat(nx, ny, w as int));
                assert(before.position(x, y) == flat(nx + ox, ny + oy, ow as int));
            }
        }
    }

    /// Whether the box at `box_origin` of `box_size` lies inside the grid's
    /// bounds on both axes.
    pub open spec fn covers(&self, box_origin: IVec2, box_size: UVec2) -> bool {
        &&& self.origin.x <= box_origin.x
        &&& box_origin.x + box_size.x <= self.origin.x + self.size.x
        &&& self.origin.y <= box_origin.y
        &&& box_origin.y + box_size.y <= self.origin.y + self.size.y
    }

    /// The size of the grid after `expand_to_fit_box(box_origin, box_size)`.
    pub open spec fn fit_size(&self, box_origin: IVec2, box_size: UVec2) -> (int, int) {
        if self.is_empty_spec() {
            (box_size.x as int, box_size.y as int)
        } else {
            (
                self.size.x + low_growth(self.origin.x as int, self.size.x as int, box_origin.x as int)
                    + high_growth(self.origin.x as int, self.size.x as int, box_origin.x + box_size.x),
                self.size.y + low_growth(self.origin.y as int, self.size.y as int, box_origin.y as int)
                    + high_growth(self.origin.y as int, self.size.y as int, box_origin.y + box_size.y),
            )
        }
    }

    /// The origin of the grid after `expand_to_fit_box(box_origin, box_size)`.
    pub open spec fn fit_origin(&self, box_origin: IVec2, box_size: UVec2) -> (int, int) {
        if self.is_empty_spec() {
            (box_origin.x as int, box_origin.y as int)
        } else {
            (
                self.origin.x - low_growth(self.origin.x as int, self.size.x as int, box_origin.x as int),
                self.origin.y - low_growth(self.origin.y as int, self.size.y as int, box_origin.y as int),
            )
        }
    }

    /// Whether the grid that `expand_to_fit_box(box_origin, box_size)`
    /// produces can be represented.
    pub open spec fn fit_fits(&self, box_origin: IVec2, box_size: UVec2) -> bool {
        &&& box_origin.x + box_size.x <= isize::MAX
        &&& box_origin.y + box_size.y <= isize::MAX
        &&& fits(
            self.fit_size(box_origin, box_size).0,
            self.fit_size(box_origin, box_size).1,
            self.fit_origin(box_origin, box_size).0,
            self.fit_origin(box_origin, box_size).1,
        )
    }

    /// A grid whose buffer is empty contains no coordinate.
    proof fn lemma_no_cells(&self)
        requires
            self.wf(),
            self.data@.len() == 0,
        ensures
            forall|x: int, y: int| !#[trigger] self.contains(x, y),
    {
        let (w, h) = (self.size.x as int, self.size.y as int);
        assert(w == 0 || h == 0) by (nonlinear_arith)
            requires
                w * h == 0,
                w >= 0,
                h >= 0,
        ;
    }

    proof fn lemma_filled_cells(&self, fill: T) where T: Clone
        requires
            self.wf(),
            forall|i: int| 0 <= i < self.data@.len() ==> cloned(fill, #[trigger] self.data@[i]),
        ensures
            forall|x: int, y: int| self.contains(x, y) ==> cloned(fill, #[trigger] self.value_at(x, y)),
    {
        assert forall|x: int, y: int| self.contains(x, y) implies cloned(
            fill,
            #[trigger] self.value_at(x, y),
        ) by {
            lemma_position_in_bounds(
                x - self.origin.x,
                y - self.origin.y,
                self.size.x as int,
                self.size.y as int,
            );
        }
    }

    /// Grows the grid so that `point` lies inside it; new cells are clones of
    /// `fill`. Growth is by the exponential rule of `expand_to_fit_box`, so
    /// the grid may end up larger than strictly needed.
    pub fn expand_to_fit_point(&mut self, point: IVec2, fill: &T) where T: Clone
        requires
            old(self).wf(),
            old(self).fit_fits(point, UVec2 { x: 1, y: 1 }),
        ensures
            final(self).wf(),
            final(self).contains(point.x as int, point.y as int),
            final(self).size.x >= old(self).size.x,
            final(self).size.y >= old(self).size.y,
            final(self).size.x == old(self).fit_size(point, UVec2 { x: 1, y: 1 }).0,
            final(self).size.y == old(self).fit_size(point, UVec2 { x: 1, y: 1 }).1,
            final(self).origin.x == old(self).fit_origin(point, UVec2 { x: 1, y: 1 }).0,
            final(self).origin.y == old(self).fit_origin(point, UVec2 { x: 1, y: 1 }).1,
            forall|x: int, y: int| #[trigger] old(self).contains(x, y) ==> final(self).contains(x, y)
                && final(self).value_at(x, y) == old(self).value_at(x, y),
            relocated(*final(self), *old(self), *fill),
            !old(self).is_empty_spec() && old(self).contains(point.x as int, point.y as int)
                ==> *final(self) == *old(self),
    {
        self.expand_to_fit_box(point, UVec2 { x: 1, y: 1 }, fill);
    }

    /// Grows the grid so that every cell of the box at `box_origin` of
    /// `box_size` lies inside it; new cells are clones of `fill`.
    ///
    /// A 0 by 0 grid becomes exactly the box. Otherwise each side of each
    /// axis that falls short grows by the exponential rule: the axis at least
    /// doubles, and grows further only if doubling is not enough. A grid that
    /// already covers the box is left untouched.
    #[verifier::rlimit(60)]
    pub fn expand_to_fit_box(&mut self, box_origin: IVec2, box_size: UVec2, fill: &T) where T: Clone
        requires
            old(self).wf(),
            old(self).fit_fits(box_origin, box_size),
        ensures
            final(self).wf(),
            forall|x: int, y: int|
                box_origin.x <= x < box_origin.x + box_size.x && box_origin.y <= y < box_origin.y
                    + box_size.y ==> #[trigger] final(self).contains(x, y),
            final(self).size.x >= old(self).size.x,
            final(self).size.y >= old(self).size.y,
            final(self).size.x == old(self).fit_size(box_origin, box_size).0,
            final(self).size.y == old(self).fit_size(box_origin, box_size).1,
            final(self).origin.x == old(self).fit_origin(box_origin, box_size).0,
            final(self).origin.y == old(self).fit_origin(box_origin, box_size).1,
            forall|x: int, y: int| #[trigger] old(self).contains(x, y) ==> final(self).contains(x, y)
                && final(self).value_at(x, y) == old(self).value_at(x, y),
            relocated(*final(self), *old(self), *fill),
            !old(self).is_empty_spec() && old(self).covers(box_origin, box_size)
                ==> *final(self) == *old(self),
    {
        if self.size.x == 0 && self.size.y == 0 {
            *self = Self::with_size(box_size, box_origin, fill);
            proof {
                self.lemma_filled_cells(*fill);
            }
        } else {
            proof {
                if self.data@.len() == 0 {
                    self.lemma_no_cells();
                }
            }
            let area_corner = IVec2 {
                x: self.origin.x + self.size.x as isize,
                y: self.origin.y + self.size.y as isize,
            };
            let box_corner = IVec2 {
                x: box_origin.x + box_size.x as isize,
                y: box_origin.y + box_size.y as isize,
            };
            let mut new_size = self.size;
            let mut offset = IVec2 { x: 0, y: 0 };
            let mut expanded = false;

            // Expand on the x axis
            if box_origin.x < self.origin.x {
                let distance = calculate_exponential_distance(self.origin.x - box_origin.x, self.size.x);
                offset.x = -(distance as isize);
                new_size.x = new_size.x + distance;
                expanded = true;
            }
            if box_corner.x > area_corner.x {
                let distance = calculate_exponential_distance(box_corner.x - area_corner.x, self.size.x);
                new_size.x = new_size.x + distance;
                expanded = true;
            }

            // Expand on the y axis
            if box_origin.y < self.origin.y {
                let distance = calculate_exponential_distance(self.origin.y - box_origin.y, self.size.y);
                offset.y = -(distance as isize);
                new_size.y = new_size.y + distance;
                expanded = true;
            }
            if box_corner.y > area_corner.y {
                let distance = calculate_exponential_distance(box_corner.y - area_corner.y, self.size.y);
                new_size.y = new_size.y + distance;
                expanded = true;
            }

            if expanded {
                // A grid without cells is rebuilt at an absolute origin.
                let target = if self.data.len() == 0 {
                    IVec2 { x: self.origin.x + offset.x, y: self.origin.y + offset.y }
                } else {
                    offset
                };
                self.change_size(new_size, target, fill);
            }
        }
    }

    /// The value at `index`, or `None` where it lies outside the grid.
    pub fn get(&self, index: IVec2) -> (r: Option<&T>)
        requires
            self.wf(),
        ensures
            r.is_some() == self.contains(index.x as int, index.y as int),
            r matches Some(v) ==> *v == self.value_at(index.x as int, index.y as int),
    {
        match self.index_of(index) {
            Some(i) => Some(&self.data[i]),
            None => None,
        }
    }

    /// A mutable reference to the value at `index`, or `None` where it lies
    /// outside the grid.
    pub fn get_mut(&mut self, index: IVec2) -> (r: Option<&mut T>)
        requires
            old(self).wf(),
        ensures
            r.is_some() == old(self).contains(index.x as int, index.y as int),
            r.is_none() ==> *final(self) == *old(self),
            r.is_some() ==> {
                &&& *r.unwrap() == old(self).value_at(index.x as int, index.y as int)
                &&& final(self).size == old(self).size
                &&& final(self).origin == old(self).origin
                &&& final(self).data@ == old(self).data@.update(
                    old(self).position(index.x as int, index.y as int),
                    *final(r.unwrap()),
                )
            },
    {
        match self.index_of(index) {
            Some(i) => Some(&mut self.data[i]),
            None => None,
        }
    }

    /// The value at `index`, which must lie inside the grid.
    pub fn index(&self, index: IVec2) -> (r: &T)
        requires
            self.wf(),
            self.contains(index.x as int, index.y as int),
        ensures
            *r == self.value_at(index.x as int, index.y as int),
    {
        let i = self.index_of_unchecked(index);
        &self.data[i]
    }

    /// A mutable reference to the value at `index`, which must lie inside
    /// the grid.
    pub fn index_mut(&mut self, index: IVec2) -> (r: &mut T)
        requires
            old(self).wf(),
            old(self).contains(index.x as int, index.y as int),
        ensures
            *r == old(self).value_at(index.x as int, index.y as int),
            final(self).size == old(self).size,
            final(self).origin == old(self).origin,
            final(self).data@ == old(self).data@.update(
                old(self).position(index.x as int, index.y as int),
                *final(r),
            ),
    {
        let i = self.index_of_unchecked(index);
        &mut self.data[i]
    }
}

/// A buffer of `n` clones of `fill`.
fn filled<T: Clone>(fill: &T, n: usize) -> (r: Vec<T>)
    ensures
        r@.len() == n,
        forall|i: int| 0 <= i < n ==> cloned(*fill, #[trigger] r@[i]),
{
    let mut v: Vec<T> = Vec::with_capacity(n);
    let mut i: usize = 0;
    while i < n
        invariant
            i <= n,
            v@.len() == i,
            forall|j: int| 0 <= j < i ==> cloned(*fill, #[trigger] v@[j]),
        decreases n - i,
    {
        v.push(fill.clone());
        i += 1;
    }
    v
}

} // verus!
