//! A fixed-size two-dimensional container with row-major linear storage and
//! coordinate-indexed access.
use vstd::prelude::*;

verus! {

/// An integer (x, y) grid coordinate. Values may lie outside any particular
/// grid; `Grid::in_bounds` decides whether they address a cell.
#[derive(Clone, Copy, Debug, PartialEq, Eq, Structural)]
pub struct Coords {
    pub x: i32,
    pub y: i32,
}

impl Coords {
    pub fn new(x: i32, y: i32) -> (r: Coords)
        ensures
            r == (Coords { x, y }),
    {
        Coords { x, y }
    }
}

/// The row-major linear index of a coordinate in a grid `width` cells wide.
pub open spec fn row_major(width: int, c: Coords) -> int {
    c.y * width + c.x
}

/// Whether a coordinate addresses a cell of a `width` x `height` grid.
pub open spec fn coords_in(width: int, height: int, c: Coords) -> bool {
    0 <= c.x < width && 0 <= c.y < height
}

/// In-bounds coordinates map to indices within `0 .. width * height`.
pub proof fn lemma_row_major_in_range(width: int, height: int, c: Coords)
    requires
        coords_in(width, height, c),
    ensures
        0 <= row_major(width, c) < width * height,
{
    assert(0 <= c.y * width + c.x < width * height) by (nonlinear_arith)
        requires
            0 <= c.x < width,
            0 <= c.y < height,
    ;
}

/// Row-major indexing is injective over the coordinates of one grid.
pub proof fn lemma_row_major_injective(width: int, height: int, a: Coords, b: Coords)
    requires
        coords_in(width, height, a),
        coords_in(width, height, b),
        row_major(width, a) == row_major(width, b),
    ensures
        a == b,
{
    assert(a.x == b.x && a.y == b.y) by (nonlinear_arith)
        requires
            0 <= a.x < width,
            0 <= b.x < width,
            0 <= a.y < height,
            0 <= b.y < height,
            a.y * width + a.x == b.y * width + b.x,
    ;
}

/// Cell `k` of a generated grid holds what `f` returns at the coordinate
/// with row-major index `k`.
pub open spec fn cell_generated<T, F: Fn(Coords) -> T>(
    width: int,
    height: int,
    f: F,
    k: int,
    t: T,
) -> bool {
    exists|c: Coords|
        coords_in(width, height, c) && row_major(width, c) == k && f.ensures((c,), t)
}

/// Every cell of the sequence holds what `f` returns at its coordinate.
pub open spec fn grid_generated<T, F: Fn(Coords) -> T>(
    width: int,
    height: int,
    f: F,
    s: Seq<T>,
) -> bool {
    forall|k: int| 0 <= k < s.len() ==> cell_generated(width, height, f, k, #[trigger] s[k])
}

/// A `width` x `height` grid of cells of type `T`, stored row-major
/// (y varies slowest). Width and height are fixed at creation.
pub struct Grid<T> {
    vec: Vec<T>,
    width: usize,
    height: usize,
}

impl<T> View for Grid<T> {
    type V = Seq<T>;

    closed spec fn view(&self) -> Seq<T> {
        self.vec@
    }
}

impl<T> Grid<T> {
    /// The grid's width, as a mathematical integer.
    pub closed spec fn spec_width(&self) -> int {
        self.width as int
    }

    /// The grid's height, as a mathematical integer.
    pub closed spec fn spec_height(&self) -> int {
        self.height as int
    }

    /// The container invariant: the backing storage holds exactly
    /// `width * height` cells, and both dimensions are addressable by `i32`
    /// coordinates.
    pub open spec fn wf(&self) -> bool {
        &&& self@.len() == self.spec_width() * self.spec_height()
        &&& self.spec_width() <= i32::MAX as int
        &&& self.spec_height() <= i32::MAX as int
        &&& self.spec_width() * self.spec_height() <= usize::MAX as int
    }

    /// Whether `c` addresses a cell of this grid.
    pub open spec fn spec_in_bounds(&self, c: Coords) -> bool {
        coords_in(self.spec_width(), self.spec_height(), c)
    }

    /// Builds a grid with every cell set to `value`.
    pub fn new_fill(width: usize, height: usize, value: T) -> (r: Grid<T>) where T: Copy
        requires
            width as int <= i32::MAX as int,
            height as int <= i32::MAX as int,
            width as int * height as int <= usize::MAX as int,
        ensures
            r.wf(),
            r.spec_width() == width as int,
            r.spec_height() == height as int,
            r@.len() == width as int * height as int,
            forall|i: int| 0 <= i < r@.len() ==> r@[i] == value,
    {
        let n: usize = width * height;
        let mut vec: Vec<T> = Vec::new();
        while vec.len() < n
            invariant
                vec@.len() <= n,
                forall|i: int| 0 <= i < vec@.len() ==> vec@[i] == value,
            decreases n - vec@.len(),
        {
            vec.push(value);
        }
        Grid { vec, width, height }
    }

    /// Builds a grid by evaluating `f` at every coordinate, row-major
    /// (y outer, x inner); no caller may rely on that order.
    pub fn new_generate<F: Fn(Coords) -> T>(width: usize, height: usize, f: F) -> (r: Grid<T>)
        requires
            width as int <= i32::MAX as int,
            height as int <= i32::MAX as int,
            width as int * height as int <= usize::MAX as int,
            forall|c: Coords| coords_in(width as int, height as int, c) ==> f.requires((c,)),
        ensures
            r.wf(),
            r.spec_width() == width as int,
            r.spec_height() == height as int,
            r@.len() == width as int * height as int,
            grid_generated(width as int, height as int, f, r@),
    {
        let mut vec: Vec<T> = Vec::new();
        let mut y: usize = 0;
        while y < height
            invariant
                y <= height,
                width as int <= i32::MAX as int,
                height as int <= i32::MAX as int,
                width as int * height as int <= usize::MAX as int,
                forall|c: Coords| coords_in(width as int, height as int, c) ==> f.requires((c,)),
                vec@.len() == y as int * width as int,
                grid_generated(width as int, height as int, f, vec@),
            decreases height - y,
        {
            let mut x: usize = 0;
            while x < width
                invariant
                    y < height,
                    x <= width,
                    width as int <= i32::MAX as int,
                    height as int <= i32::MAX as int,
                    width as int * height as int <= usize::MAX as int,
                    forall|c: Coords| coords_in(width as int, height as int, c) ==> f.requires(
                        (c,),
                    ),
                    vec@.len() == y as int * width as int + x as int,
                    grid_generated(width as int, height as int, f, vec@),
                decreases width - x,
            {
                let c = Coords { x: x as i32, y: y as i32 };
                proof {
                    assert(coords_in(width as int, height as int, c));
                    assert(f.requires((c,)));
                }
                let ghost pre = vec@;
                let v = f(c);
                vec.push(v);
                proof {
                    lemma_row_major_in_range(width as int, height as int, c);
                    assert(row_major(width as int, c) == vec@.len() - 1);
                    assert forall|k: int| 0 <= k < vec@.len() implies cell_generated(
                        width as int,
                        height as int,
                        f,
                        k,
                        #[trigger] vec@[k],
                    ) by {
                        if k == vec@.len() - 1 {
                            assert(coords_in(width as int, height as int, c) && row_major(
                                width as int,
                                c,
                            ) == k && f.ensures((c,), vec@[k]));
                        } else {
                            assert(vec@[k] == pre[k]);
                            assert(cell_generated(width as int, height as int, f, k, pre[k]));
                        }
                    }
                }
                x = x + 1;
            }
            proof {
                assert(y as int * width as int + width as int == (y + 1) as int * width as int)
                    by (nonlinear_arith);
            }
            y = y + 1;
        }
        proof {
            assert(height as int * width as int == width as int * height as int)
                by (nonlinear_arith);
        }
        Grid { vec, width, height }
    }

    /// Builds a grid with every cell set to the type's default value.
    pub fn new(width: usize, height: usize) -> (r: Grid<T>) where T: Copy + Default
        requires
            width as int <= i32::MAX as int,
            height as int <= i32::MAX as int,
            width as int * height as int <= usize::MAX as int,
        ensures
            r.wf(),
            r.spec_width() == width as int,
            r.spec_height() == height as int,
    {
        Self::new_fill(width, height, T::default())
    }

    /// The grid's width.
    pub fn width(&self) -> (r: usize)
        ensures
            r as int == self.spec_width(),
    {
        self.width
    }

    /// The grid's height.
    pub fn height(&self) -> (r: usize)
        ensures
            r as int == self.spec_height(),
    {
        self.height
    }

    /// Whether `c` addresses a cell of this grid.
    pub fn in_bounds(&self, c: Coords) -> (r: bool)
        requires
            self.wf(),
        ensures
            r == self.spec_in_bounds(c),
    {
        c.x >= 0 && c.y >= 0 && (c.x as usize) < self.width && (c.y as usize) < self.height
    }

    /// Reads the cell at an in-bounds coordinate.
    pub fn get(&self, c: Coords) -> (r: T) where T: Copy
        requires
            self.wf(),
            self.spec_in_bounds(c),
        ensures
            r == self@[row_major(self.spec_width(), c)],
    {
        proof {
            lemma_row_major_in_range(self.spec_width(), self.spec_height(), c);
            assert((c.y as int) * (self.width as int) + (c.x as int) < usize::MAX as int);
        }
        let i: usize = (c.y as usize) * self.width + (c.x as usize);
        self.vec[i]
    }

    /// Overwrites the cell at an in-bounds coordinate.
    pub fn set(&mut self, c: Coords, value: T)
        requires
            old(self).wf(),
            old(self).spec_in_bounds(c),
        ensures
            final(self).wf(),
            final(self).spec_width() == old(self).spec_width(),
            final(self).spec_height() == old(self).spec_height(),
            final(self)@ == old(self)@.update(row_major(old(self).spec_width(), c), value),
    {
        proof {
            lemma_row_major_in_range(self.spec_width(), self.spec_height(), c);
            assert((c.y as int) * (self.width as int) + (c.x as int) < usize::MAX as int);
        }
        let i: usize = (c.y as usize) * self.width + (c.x as usize);
        self.vec.set(i, value);
    }

    /// Reads a cell by its row-major linear index.
    pub(crate) fn get_idx(&self, i: usize) -> (r: T) where T: Copy
        requires
            i < self@.len(),
        ensures
            r == self@[i as int],
    {
        self.vec[i]
    }

    /// Overwrites a cell by its row-major linear index.
    pub(crate) fn set_idx(&mut self, i: usize, value: T)
        requires
            i < old(self)@.len(),
        ensures
            final(self).spec_width() == old(self).spec_width(),
            final(self).spec_height() == old(self).spec_height(),
            final(self)@ == old(self)@.update(i as int, value),
            old(self).wf() ==> final(self).wf(),
    {
        self.vec.set(i, value);
    }

    /// The number of cells.
    pub fn len(&self) -> (r: usize)
        ensures
            r as int == self@.len(),
    {
        self.vec.len()
    }

    /// The cells in row-major order, copied into a vector.
    pub fn iter(&self) -> (r: Vec<T>) where T: Copy
        ensures
            r@ == self@,
    {
        let mut out: Vec<T> = Vec::new();
        let mut i: usize = 0;
        let n = self.vec.len();
        while i < n
            invariant
                n == self@.len(),
                i <= n,
                out@ == self@.subrange(0, i as int),
            decreases n - i,
        {
            out.push(self.vec[i]);
            i = i + 1;
        }
        proof {
            assert(out@ =~= self@);
        }
        out
    }

    /// Every coordinate of the grid, row-major (y varies slowest).
    pub fn indices(&self) -> (r: Vec<Coords>)
        requires
            self.wf(),
        ensures
            r@.len() == self@.len(),
            forall|k: int|
                0 <= k < r@.len() ==> self.spec_in_bounds(#[trigger] r@[k]) && row_major(
                    self.spec_width(),
                    r@[k],
                ) == k,
    {
        let mut out: Vec<Coords> = Vec::new();
        let mut y: usize = 0;
        while y < self.height
            invariant
                self.wf(),
                y <= self.spec_height(),
                out@.len() == y as int * self.spec_width(),
                forall|k: int|
                    0 <= k < out@.len() ==> self.spec_in_bounds(#[trigger] out@[k]) && row_major(
                        self.spec_width(),
                        out@[k],
                    ) == k,
            decreases self.spec_height() - y,
        {
            let mut x: usize = 0;
            while x < self.width
                invariant
                    self.wf(),
                    y < self.spec_height(),
                    x <= self.spec_width(),
                    out@.len() == y as int * self.spec_width() + x as int,
                    forall|k: int|
                        0 <= k < out@.len() ==> self.spec_in_bounds(#[trigger] out@[k])
                            && row_major(self.spec_width(), out@[k]) == k,
                decreases self.spec_width() - x,
            {
                proof {
                    lemma_row_major_in_range(
                        self.spec_width(),
                        self.spec_height(),
                        Coords { x: x as i32, y: y as i32 },
                    );
                }
                out.push(Coords { x: x as i32, y: y as i32 });
                x = x + 1;
            }
            proof {
                assert(y as int * self.spec_width() + self.spec_width() == (y + 1) as int
                    * self.spec_width()) by (nonlinear_arith);
            }
            y = y + 1;
        }
        proof {
            assert(self.spec_height() * self.spec_width() == self.spec_width()
                * self.spec_height()) by (nonlinear_arith);
        }
        out
    }

    /// Every (coordinate, cell) pair, row-major.
    pub fn enumerate(&self) -> (r: Vec<(Coords, T)>) where T: Copy
        requires
            self.wf(),
        ensures
            r@.len() == self@.len(),
            forall|k: int|
                0 <= k < r@.len() ==> self.spec_in_bounds((#[trigger] r@[k]).0) && row_major(
                    self.spec_width(),
                    r@[k].0,
                ) == k && r@[k].1 == self@[k],
    {
        let idxs = self.indices();
        let mut out: Vec<(Coords, T)> = Vec::new();
        let mut k: usize = 0;
        let n = idxs.len();
        while k < n
            invariant
                self.wf(),
                n == idxs@.len(),
                idxs@.len() == self@.len(),
                k <= n,
                forall|j: int|
                    0 <= j < idxs@.len() ==> self.spec_in_bounds(#[trigger] idxs@[j]) && row_major(
                        self.spec_width(),
                        idxs@[j],
                    ) == j,
                out@.len() == k as int,
                forall|j: int|
                    0 <= j < out@.len() ==> self.spec_in_bounds((#[trigger] out@[j]).0)
                        && row_major(self.spec_width(), out@[j].0) == j && out@[j].1 == self@[j],
            decreases n - k,
        {
            let c = idxs[k];
            let t = self.get(c);
            out.push((c, t));
            k = k + 1;
        }
        out
    }
}

} // verus!
