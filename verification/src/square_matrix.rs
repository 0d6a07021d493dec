use std::cmp::Ordering;
use vstd::prelude::*;
use vstd::std_specs::cmp::{PartialEqSpecImpl, PartialOrdSpecImpl};

use crate::point_store::{position_order, PStore};

verus! {

/// The abstract state of a square matrix: its cells, row after row, and its side.
pub type MatrixView<T> = (Seq<T>, usize);

/// The matrix holds at least `side * side` cells, and its side fits an `i32`.
pub open spec fn matrix_wf<T>(m: MatrixView<T>) -> bool {
    &&& m.1 <= i32::MAX
    &&& m.0.len() >= m.1 * m.1
}

/// `(x, y)` is a cell of the matrix.
pub open spec fn in_bounds<T>(m: MatrixView<T>, x: int, y: int) -> bool {
    0 <= x < m.1 && 0 <= y < m.1
}

/// The cell in column `x` and row `y`.
pub open spec fn cell<T>(m: MatrixView<T>, x: int, y: int) -> T {
    m.0[y * m.1 + x]
}

/// The cell in column `x` and row `y`, if there is one.
pub open spec fn cell_at<T>(m: MatrixView<T>, x: int, y: int) -> Option<T> {
    if in_bounds(m, x, y) {
        Some(cell(m, x, y))
    } else {
        None
    }
}

/// The position of the cell `(x, y)` in the row-after-row storage.
pub proof fn lemma_cell_index(n: int, x: int, y: int)
    requires
        0 <= x < n,
        0 <= y < n,
    ensures
        0 <= y * n + x < n * n,
        y * n <= y * n + x,
{
    assert(y * n + x < n * n) by (nonlinear_arith)
        requires
            0 <= x < n,
            0 <= y < n,
    ;
    assert(0 <= y * n) by (nonlinear_arith)
        requires
            0 <= y,
            0 <= n,
    ;
}

/// Row-after-row positions of the cells of an `n`-wide block with `r` rows are below `r * n`.
pub proof fn lemma_block_index(n: int, r: int, a: int, b: int)
    requires
        0 <= a < n,
        0 <= b < r,
    ensures
        0 <= b * n + a < r * n,
        (r + 1) * n == r * n + n,
        b * n <= b * n + a,
{
    assert(b * n + a < r * n) by (nonlinear_arith)
        requires
            0 <= a < n,
            0 <= b < r,
    ;
    assert((r + 1) * n == r * n + n) by (nonlinear_arith);
    assert(0 <= b * n) by (nonlinear_arith)
        requires
            0 <= b,
            0 <= n,
    ;
}

/// One more row of `n` cells.
pub proof fn lemma_next_row(n: int, r: int)
    ensures
        (r + 1) * n == r * n + n,
{
    assert((r + 1) * n == r * n + n) by (nonlinear_arith);
}

/// Distinct cells have distinct row-after-row positions.
pub proof fn lemma_index_injective(n: int, a: int, b: int, a2: int, b2: int)
    requires
        0 <= a < n,
        0 <= a2 < n,
        0 <= b,
        0 <= b2,
        b * n + a == b2 * n + a2,
    ensures
        a == a2,
        b == b2,
{
    assert(b == b2) by (nonlinear_arith)
        requires
            0 <= a < n,
            0 <= a2 < n,
            0 <= b,
            0 <= b2,
            b * n + a == b2 * n + a2,
    ;
}

/// A square matrix stored row after row.
#[derive(Debug)]
pub struct SquareMatrix<T> {
    pub matrix: Vec<T>,
    size: usize,
}

impl<T> View for SquareMatrix<T> {
    type V = MatrixView<T>;

    closed spec fn view(&self) -> MatrixView<T> {
        (self.matrix@, self.size)
    }
}

impl SquareMatrix<u32> {
    /// A matrix of zeros.
    pub fn new(size: usize) -> (r: SquareMatrix<u32>)
        requires
            size * size <= usize::MAX,
        ensures
            r@ == (Seq::new((size * size) as nat, |i: int| 0u32), size),
    {
        let r = SquareMatrix { matrix: vec![0; size * size], size };
        assert(r.matrix@ =~= Seq::new((size * size) as nat, |i: int| 0u32));
        r
    }
}

impl<T: Copy> SquareMatrix<T> {
    /// A matrix with every cell `of`.
    pub fn new_with(size: usize, of: T) -> (r: SquareMatrix<T>)
        requires
            size * size <= usize::MAX,
        ensures
            r@ == (Seq::new((size * size) as nat, |i: int| of), size),
    {
        let n = size * size;
        let mut matrix: Vec<T> = Vec::new();
        let mut i: usize = 0;
        while i < n
            invariant
                i <= n,
                matrix@ =~= Seq::new(i as nat, |j: int| of),
            decreases n - i,
        {
            matrix.push(of);
            i = i + 1;
        }
        SquareMatrix { matrix, size }
    }
}

impl<T> SquareMatrix<T> {
    /// A matrix of the given side over the given cells.
    pub fn from(from_vec: Vec<T>, size: usize) -> (r: SquareMatrix<T>)
        ensures
            r@ == (from_vec@, size),
    {
        SquareMatrix { matrix: from_vec, size }
    }

    /// The side of the matrix.
    pub fn len(&self) -> (r: usize)
        ensures
            r == self@.1,
    {
        self.size
    }

    /// The cell `(x, y)`, the coordinates taken as `i32`.
    pub fn get(&self, x: usize, y: usize) -> (r: Option<&T>)
        requires
            matrix_wf(self@),
        ensures
            match r {
                Some(e) => cell_at(self@, (x as i32) as int, (y as i32) as int) == Some(*e),
                None => cell_at(self@, (x as i32) as int, (y as i32) as int) is None,
            },
    {
        self.get_at(#[verifier::truncate] (x as i32), #[verifier::truncate] (y as i32))
    }

    /// A mutable reference to the cell `(x, y)`: the bounds are checked on the coordinates
    /// taken as `i32`, the cell is found with them as given.
    pub fn get_mut(&mut self, x: usize, y: usize) -> (r: Option<&mut T>)
        requires
            matrix_wf(old(self)@),
            in_bounds(old(self)@, (x as i32) as int, (y as i32) as int) ==> y * old(self)@.1 + x
                < old(self)@.0.len(),
        ensures
            match r {
                Some(e) => {
                    &&& in_bounds(old(self)@, (x as i32) as int, (y as i32) as int)
                    &&& *e == old(self)@.0[y * old(self)@.1 + x]
                    &&& final(self)@ == (old(self)@.0.update(y * old(self)@.1 + x, *final(e)), old(
                        self,
                    )@.1)
                },
                None => {
                    &&& !in_bounds(old(self)@, (x as i32) as int, (y as i32) as int)
                    &&& final(self)@ == old(self)@
                },
            },
    {
        if self.check(#[verifier::truncate] (x as i32), #[verifier::truncate] (y as i32)) == false {
            None
        } else {
            let total = self.matrix.len();
            proof {
                assert(0 <= y * self@.1) by (nonlinear_arith)
                    requires
                        0 <= y,
                        0 <= self@.1,
                ;
            }
            let i = self.index(y, x);
            Some(&mut self.matrix[i])
        }
    }

    /// Writes `new` into the cell `(x, y)`: the bounds are checked on the coordinates taken
    /// as `i32`, the cell is found with them as given; false when they are out of bounds.
    pub fn set(&mut self, x: usize, y: usize, new: T) -> (r: bool)
        requires
            matrix_wf(old(self)@),
            in_bounds(old(self)@, (x as i32) as int, (y as i32) as int) ==> y * old(self)@.1 + x
                < old(self)@.0.len(),
        ensures
            r == in_bounds(old(self)@, (x as i32) as int, (y as i32) as int),
            final(self)@ == if r {
                (old(self)@.0.update(y * old(self)@.1 + x, new), old(self)@.1)
            } else {
                old(self)@
            },
    {
        let v = self.get_mut(x, y);
        if let Some(c) = v {
            *c = new;
            true
        } else {
            false
        }
    }

    fn get_at(&self, x: i32, y: i32) -> (r: Option<&T>)
        requires
            matrix_wf(self@),
        ensures
            match r {
                Some(e) => cell_at(self@, x as int, y as int) == Some(*e),
                None => cell_at(self@, x as int, y as int) is None,
            },
    {
        if self.check(x, y) == false {
            None
        } else {
            let total = self.matrix.len();
            proof {
                lemma_cell_index(self@.1 as int, x as int, y as int);
                assert((x as usize) as int == x as int);
                assert((y as usize) as int == y as int);
            }
            Some(&self.matrix[self.index(y as usize, x as usize)])
        }
    }

    /// The position in the storage of column `y` of row `x` (rows are stored one after
    /// the other).
    pub fn index(&self, x: usize, y: usize) -> (r: usize)
        requires
            x * self@.1 + y <= usize::MAX,
        ensures
            r == x * self@.1 + y,
    {
        (x * self.size) + y
    }

    fn check(&self, x: i32, y: i32) -> (r: bool)
        requires
            matrix_wf(self@),
        ensures
            r == in_bounds(self@, x as int, y as int),
    {
        let len = self.size;
        if x >= len as i32 || y >= len as i32 || x < 0 || y < 0 {
            false
        } else {
            true
        }
    }
}

/// The `n * n` cells of the `n`-wide block at `(x, y)` of `m`, row after row.
pub open spec fn is_block_of<T>(sub: MatrixView<T>, m: MatrixView<T>, x: int, y: int, n: int) -> bool {
    &&& sub.1 == n
    &&& sub.0.len() == n * n
    &&& forall|a: int, b: int|
        0 <= a < n && 0 <= b < n ==> #[trigger] cell(sub, a, b) == cell(m, x + a, y + b)
}

/// The cell `(a, b)` of `m` after the cells of `sub` were written in from `(u, v)` on, row
/// after row in rows of `sub.1` cells: the cell written there, if one was.
pub open spec fn copied_cell<T>(m: MatrixView<T>, sub: MatrixView<T>, u: int, v: int, a: int, b: int) -> T {
    if u <= a < u + sub.1 && v <= b && (b - v) * sub.1 + (a - u) < sub.0.len() {
        sub.0[(b - v) * sub.1 + (a - u)]
    } else {
        cell(m, a, b)
    }
}

/// Writing a cell and reading it back gives what was written; the other cells keep
/// their values.
pub proof fn lemma_set_then_get<T>(m: MatrixView<T>, x: int, y: int, v: T)
    requires
        matrix_wf(m),
        in_bounds(m, x, y),
    ensures
        cell_at((m.0.update(y * m.1 + x, v), m.1), x, y) == Some(v),
        forall|a: int, b: int|
            in_bounds(m, a, b) && (a != x || b != y) ==> #[trigger] cell_at(
                (m.0.update(y * m.1 + x, v), m.1),
                a,
                b,
            ) == cell_at(m, a, b),
{
    lemma_cell_index(m.1 as int, x, y);
    assert forall|a: int, b: int|
        in_bounds(m, a, b) && (a != x || b != y) implies #[trigger] cell_at(
        (m.0.update(y * m.1 + x, v), m.1),
        a,
        b,
    ) == cell_at(m, a, b) by {
        lemma_cell_index(m.1 as int, a, b);
        if b * m.1 + a == y * m.1 + x {
            lemma_index_injective(m.1 as int, a, b, x, y);
        }
    }
}

/// Copying a block of a matrix back to where it was cut out changes no cell.
pub proof fn lemma_copy_back_block<T>(m: MatrixView<T>, sub: MatrixView<T>, x: int, y: int, n: int)
    requires
        matrix_wf(m),
        0 <= x,
        0 <= y,
        x + n <= m.1,
        y + n <= m.1,
        is_block_of(sub, m, x, y, n),
    ensures
        forall|a: int, b: int|
            in_bounds(m, a, b) ==> #[trigger] copied_cell(m, sub, x, y, a, b) == cell(m, a, b),
{
    assert forall|a: int, b: int| in_bounds(m, a, b) implies #[trigger] copied_cell(m, sub, x, y, a, b)
        == cell(m, a, b) by {
        if x <= a < x + n && y <= b {
            if b < y + n {
                lemma_block_index(n, n, a - x, b - y);
                assert(cell(sub, a - x, b - y) == cell(m, x + (a - x), y + (b - y)));
            } else {
                assert((b - y) * n + (a - x) >= n * n) by (nonlinear_arith)
                    requires
                        b - y >= n,
                        a - x >= 0,
                        n >= 0,
                ;
            }
        }
    }
}

/// A square block cut out of a matrix, with the position of its corner.
#[derive(Debug)]
pub enum SubSquare<T> {
    SSquare(SquareMatrix<T>, usize, usize),
}

impl<T: PartialEq> PartialEq for SubSquare<T> {
    /// Any two blocks are equal.
    fn eq(&self, cmp: &SubSquare<T>) -> (r: bool) {
        true
    }
}

impl<T: PartialEq> PartialEqSpecImpl for SubSquare<T> {
    open spec fn obeys_eq_spec() -> bool {
        true
    }

    open spec fn eq_spec(&self, cmp: &SubSquare<T>) -> bool {
        true
    }
}

impl<T: Eq> Eq for SubSquare<T> {

}

impl<T: PartialOrd> PartialOrd for SubSquare<T> {
    /// Compares the corners row by row, whatever the cells.
    fn partial_cmp(&self, cmp: &SubSquare<T>) -> (r: Option<Ordering>) {
        let SubSquare::SSquare(_, x1, y1) = self;
        let SubSquare::SSquare(_, x2, y2) = cmp;
        if *y2 > *y1 {
            Some(Ordering::Less)
        } else if *y2 == *y1 {
            if *x1 < *x2 {
                Some(Ordering::Less)
            } else if *x1 == *x2 {
                Some(Ordering::Equal)
            } else {
                Some(Ordering::Greater)
            }
        } else {
            Some(Ordering::Greater)
        }
    }
}

impl<T: PartialOrd> PartialOrdSpecImpl for SubSquare<T> {
    open spec fn obeys_partial_cmp_spec() -> bool {
        true
    }

    open spec fn partial_cmp_spec(&self, cmp: &SubSquare<T>) -> Option<Ordering> {
        let SubSquare::SSquare(_, x1, y1) = *self;
        let SubSquare::SSquare(_, x2, y2) = *cmp;
        Some(position_order(x1, y1, x2, y2))
    }
}

/// The type of the writing walk over the cells of a slice.
#[verifier::external_type_specification]
#[verifier::external_body]
#[verifier::reject_recursive_types(T)]
pub struct ExIterMut<'a, T: 'a>(std::slice::IterMut<'a, T>);

/// Walks the cells of a matrix row after row, with their positions.
pub struct MatrixIter<'a, T: 'a> {
    items: &'a Vec<T>,
    pos: usize,
    size: usize,
    cx: usize,
    cy: usize,
}

impl<'a, T: 'a> MatrixIter<'a, T> {
    /// The cells walked over.
    pub closed spec fn items(self) -> Seq<T> {
        self.items@
    }

    /// How many cells have been handed out.
    pub closed spec fn pos(self) -> int {
        self.pos as int
    }

    /// The row width the positions are computed with.
    pub closed spec fn width(self) -> usize {
        self.size
    }

    /// The position of the next cell is that of `pos` in rows of `width` cells.
    pub closed spec fn wf(self) -> bool {
        &&& self.pos <= self.items@.len()
        &&& self.size > 0 ==> self.cx < self.size && self.pos == self.cy * self.size + self.cx
        &&& self.size == 0 ==> self.pos == 0
    }

    /// A walk in good order is within its cells.
    pub proof fn lemma_pos_in_range(self)
        requires
            self.wf(),
        ensures
            0 <= self.pos() <= self.items().len(),
    {
    }

    fn new(m: &'a SquareMatrix<T>) -> (r: MatrixIter<'a, T>)
        ensures
            r.wf(),
            r.items() == m@.0,
            r.width() == m@.1,
            r.pos() == 0,
    {
        MatrixIter { items: &m.matrix, pos: 0, size: m.len(), cx: 0, cy: 0 }
    }

    /// The next cell with its column and row, or `None` once all cells were handed out.
    pub fn next(&mut self) -> (r: Option<PStore<&'a T>>)
        requires
            old(self).wf(),
            old(self).pos() < old(self).items().len() ==> old(self).width() > 0,
        ensures
            final(self).wf(),
            final(self).items() == old(self).items(),
            final(self).width() == old(self).width(),
            old(self).pos() < old(self).items().len() ==> {
                &&& final(self).pos() == old(self).pos() + 1
                &&& r matches Some(PStore::PointStore(e, x, y)) && *e == old(self).items()[old(
                    self,
                ).pos()] && x < old(self).width() && old(self).pos() == y * old(self).width() + x
            },
            old(self).pos() >= old(self).items().len() ==> r is None && final(self).pos() == old(
                self,
            ).pos(),
    {
        if self.pos >= self.items.len() {
            return None;
        }
        let x = &self.items[self.pos];
        let ret = PStore::PointStore(x, self.cx, self.cy);
        let ghost p = self.pos as int;
        let ghost cx0 = self.cx as int;
        let ghost cy0 = self.cy as int;
        let ghost n = self.size as int;
        proof {
            lemma_next_row(n, cy0);
            if cx0 + 1 == n {
                assert(cy0 + 1 <= (cy0 + 1) * n) by (nonlinear_arith)
                    requires
                        n >= 1,
                        cy0 >= 0,
                ;
            }
        }
        self.pos = self.pos + 1;
        let nx = self.cx + 1;
        proof {
            if nx < self.size {
                assert(nx % self.size == nx) by (nonlinear_arith)
                    requires
                        0 <= nx < self.size,
                ;
            } else {
                assert(nx % self.size == 0) by (nonlinear_arith)
                    requires
                        nx == self.size,
                        self.size > 0,
                ;
            }
        }
        self.cx = nx % self.size;
        if self.cx == 0 {
            self.cy = self.cy + 1;
        }
        Some(ret)
    }
}

impl<T: Copy> SquareMatrix<T> {
    /// The `size`-wide block whose corner is `(x, y)`, or `None` when it does not fit.
    pub fn sub(&self, x: usize, y: usize, size: usize) -> (r: Option<SubSquare<T>>)
        requires
            matrix_wf(self@),
            x + size <= usize::MAX,
            y + size <= usize::MAX,
        ensures
            r is None <==> (x + size > self@.1 || y + size > self@.1),
            r matches Some(SubSquare::SSquare(m, rx, ry)) ==> rx == x && ry == y && matrix_wf(m@)
                && is_block_of(m@, self@, x as int, y as int, size as int),
    {
        if (x + size > self.size || y + size > self.size) {
            None
        } else {
            let mut ret: Vec<T> = Vec::new();
            let total = self.matrix.len();
            let n = self.size;
            let mut cy = y;
            while cy < y + size
                invariant
                    y <= cy <= y + size,
                    x + size <= n,
                    y + size <= n,
                    n == self@.1,
                    total == self@.0.len(),
                    matrix_wf(self@),
                    ret@.len() == (cy - y) * size,
                    forall|a: int, b: int|
                        0 <= a < size && 0 <= b < cy - y ==> #[trigger] cell((ret@, size), a, b) == cell(
                            self@,
                            x + a,
                            y + b,
                        ),
                decreases y + size - cy,
            {
                proof {
                    lemma_cell_index(n as int, x as int, cy as int);
                }
                let from = self.index(cy, x);
                let mut k: usize = 0;
                let ghost base = ret@.len();
                while k < size
                    invariant
                        k <= size,
                        y <= cy < y + size,
                        x + size <= n,
                        y + size <= n,
                        n == self@.1,
                        total == self@.0.len(),
                        matrix_wf(self@),
                        from == cy * n + x,
                        base == (cy - y) * size,
                        ret@.len() == base + k,
                        forall|a: int, b: int|
                            0 <= a < size && 0 <= b < cy - y ==> #[trigger] cell((ret@, size), a, b) == cell(
                                self@,
                                x + a,
                                y + b,
                            ),
                        forall|a: int|
                            0 <= a < k ==> #[trigger] cell((ret@, size), a, cy - y) == cell(
                                self@,
                                x + a,
                                cy as int,
                            ),
                    decreases size - k,
                {
                    proof {
                        lemma_cell_index(n as int, (x + k) as int, cy as int);
                    }
                    let ghost old_ret = ret@;
                    ret.push(self.matrix[from + k]);
                    proof {
                        assert forall|a: int, b: int|
                            0 <= a < size && 0 <= b < cy - y implies #[trigger] cell((ret@, size), a, b) == cell(
                            self@,
                            x + a,
                            y + b,
                        ) by {
                            lemma_block_index(size as int, (cy - y) as int, a, b);
                            assert(cell((old_ret, size), a, b) == cell((ret@, size), a, b));
                        }
                        assert forall|a: int|
                            0 <= a < k + 1 implies #[trigger] cell((ret@, size), a, cy - y) == cell(
                            self@,
                            x + a,
                            cy as int,
                        ) by {
                            if a < k {
                                assert(cell((old_ret, size), a, cy - y) == cell((ret@, size), a, cy - y));
                            }
                        }
                    }
                    k = k + 1;
                }
                proof {
                    lemma_next_row(size as int, (cy - y) as int);
                    assert forall|a: int, b: int|
                        0 <= a < size && 0 <= b < cy + 1 - y implies #[trigger] cell((ret@, size), a, b) == cell(
                        self@,
                        x + a,
                        y + b,
                    ) by {
                        if b < cy - y {
                            lemma_block_index(size as int, (cy - y) as int, a, b);
                        } else {
                            assert(b == cy - y);
                        }
                    }
                }
                cy = cy + 1;
            }
            let m = SquareMatrix::from(ret, size);
            proof {
                assert forall|a: int, b: int| 0 <= a < size && 0 <= b < size implies #[trigger] cell(
                    m@,
                    a,
                    b,
                ) == cell(self@, x + a, y + b) by {}
            }
            Some(SubSquare::SSquare(m, x, y))
        }
    }

    /// Writes the cells of a block into the matrix from its corner on, row after row in rows
    /// as wide as the block, when the block fits; does nothing otherwise.
    pub fn copy_sub(&mut self, cpy: &SubSquare<T>)
        requires
            matrix_wf(old(self)@),
            cpy matches SubSquare::SSquare(m, u, v) && u + m@.1 <= usize::MAX && v + m@.1
                <= usize::MAX && (u + m@.1 <= old(self)@.1 && v + m@.1 <= old(self)@.1 && m@.0.len() > 0
                ==> m@.1 > 0 && (m@.0.len() - 1) / (m@.1 as int) + *v <= i32::MAX),
        ensures
            cpy matches SubSquare::SSquare(m, u, v) && if u + m@.1 > old(self)@.1 || v + m@.1 > old(
                self,
            )@.1 {
                final(self)@ == old(self)@
            } else {
                &&& final(self)@.1 == old(self)@.1
                &&& final(self)@.0.len() == old(self)@.0.len()
                &&& forall|a: int, b: int|
                    0 <= a < old(self)@.1 && 0 <= b < old(self)@.1 ==> #[trigger] cell(
                        final(self)@,
                        a,
                        b,
                    ) == copied_cell(old(self)@, m@, u as int, v as int, a, b)
            },
    {
        let SubSquare::SSquare(m, u, v) = cpy;
        if (*u + m.len() > self.len() || *v + m.len() > self.len()) {
            return ;
        }
        let ghost old_m = self@;
        let s = m.len();
        let n = self.len();
        let mut it = m.iter_enum();
        loop
            invariant_except_break
                it.wf(),
                it.items() == m@.0,
                it.width() == s,
                s == m@.1,
                m@.0.len() > 0 ==> s > 0 && (m@.0.len() - 1) / (s as int) + *v <= i32::MAX,
                n == old_m.1,
                *u + s <= n,
                *v + s <= n,
                self@.1 == n,
                self@.0.len() == old_m.0.len(),
                matrix_wf(self@),
                forall|a: int, b: int|
                    0 <= a < n && 0 <= b < n ==> #[trigger] cell(self@, a, b) == if *u <= a < *u
                        + s && *v <= b && (b - *v) * s + (a - *u) < it.pos() {
                        m@.0[(b - *v) * s + (a - *u)]
                    } else {
                        cell(old_m, a, b)
                    },
            ensures
                self@.1 == n,
                self@.0.len() == old_m.0.len(),
                matrix_wf(self@),
                forall|a: int, b: int|
                    0 <= a < n && 0 <= b < n ==> #[trigger] cell(self@, a, b) == copied_cell(
                        old_m,
                        m@,
                        *u as int,
                        *v as int,
                        a,
                        b,
                    ),
            decreases m@.0.len() - it.pos(),
        {
            let ghost p = it.pos();
            proof {
                it.lemma_pos_in_range();
            }
            match it.next() {
                Some(PStore::PointStore(c, x, y)) => {
                    proof {
                        let len = m@.0.len() as int;
                        assert(y <= (len - 1) / (s as int)) by (nonlinear_arith)
                            requires
                                y * s + x == p,
                                p <= len - 1,
                                s > 0,
                                0 <= x,
                        ;
                        if y + *v < n {
                            lemma_cell_index(n as int, (x + *u) as int, (y + *v) as int);
                        }
                    }
                    let ghost before = self@;
                    self.set(x + *u, y + *v, *c);
                    proof {
                        let xx = (x + *u) as int;
                        let yy = (y + *v) as int;
                        assert(*c == m@.0[p]);
                        assert forall|a: int, b: int|
                            0 <= a < n && 0 <= b < n implies #[trigger] cell(self@, a, b) == if *u
                            <= a < *u + s && *v <= b && (b - *v) * s + (a - *u) < it.pos() {
                            m@.0[(b - *v) * s + (a - *u)]
                        } else {
                            cell(old_m, a, b)
                        } by {
                            lemma_cell_index(n as int, a, b);
                            if a == xx && b == yy {
                                assert((b - *v) * s + (a - *u) == p);
                            } else {
                                if b * n + a == yy * n + xx && yy < n && xx < n {
                                    lemma_index_injective(n as int, a, b, xx, yy);
                                }
                                assert(cell(self@, a, b) == cell(before, a, b));
                                if *u <= a < *u + s && *v <= b && (b - *v) * s + (a - *u) == p {
                                    lemma_index_injective(
                                        s as int,
                                        a - *u,
                                        b - *v,
                                        x as int,
                                        y as int,
                                    );
                                }
                            }
                        }
                    }
                },
                None => {
                    break ;
                },
            }
        }
    }

    /// The cells of every anti-diagonal in zigzag order, the first walked from its upper
    /// right end, the direction changing from one to the next.
    pub fn diagonal_unwrap(&self) -> (r: Vec<T>)
        requires
            matrix_wf(self@),
        ensures
            r@ == zigzag(self@),
    {
        let len = self.size;
        let total = self.matrix.len();
        let mut ret: Vec<T> = Vec::with_capacity(len * len);
        let mut dir = Dir::Up;
        let mut i: usize = 0;
        while i < len
            invariant
                i <= len,
                len == self@.1,
                matrix_wf(self@),
                ret@ == zigzag_upto(self@, i as nat),
                dir == (if i % 2 == 0 {
                    Dir::Up
                } else {
                    Dir::Down
                }),
            decreases len - i,
        {
            let add = self.diagonal_strip(i, 0, &dir);
            let ghost before = ret@;
            let mut j: usize = 0;
            while j < add.len()
                invariant
                    j <= add@.len(),
                    ret@ == before + deref_all(add@).take(j as int),
                decreases add@.len() - j,
            {
                ret.push(*add[j]);
                j = j + 1;
                assert(ret@ =~= before + deref_all(add@).take(j as int));
            }
            assert(deref_all(add@).take(j as int) =~= deref_all(add@));
            dir.switch();
            i = i + 1;
        }
        let mut i: usize = 1;
        while i < len
            invariant
                1 <= i <= len || (len == 0 && i == 1),
                len == self@.1,
                matrix_wf(self@),
                len > 0 ==> ret@ == zigzag_upto(self@, (len - 1 + i) as nat),
                len == 0 ==> ret@ == Seq::<T>::empty(),
                dir == (if (len - 1 + i) % 2 == 0 {
                    Dir::Up
                } else {
                    Dir::Down
                }),
            decreases len - i,
        {
            let add = self.diagonal_strip(len - 1, i, &dir);
            let ghost before = ret@;
            let mut j: usize = 0;
            while j < add.len()
                invariant
                    j <= add@.len(),
                    ret@ == before + deref_all(add@).take(j as int),
                decreases add@.len() - j,
            {
                ret.push(*add[j]);
                j = j + 1;
                assert(ret@ =~= before + deref_all(add@).take(j as int));
            }
            assert(deref_all(add@).take(j as int) =~= deref_all(add@));
            dir.switch();
            i = i + 1;
        }
        ret
    }

    /// The cells from `(x, y)` down to the left inside the matrix, the coordinates taken
    /// as `i32`: in that order for `Up`, reversed for `Down`.
    pub fn diagonal_strip(&self, x: usize, y: usize, dir: &Dir) -> (r: Vec<&T>)
        requires
            matrix_wf(self@),
        ensures
            deref_all(r@) == strip_in(self@, (x as i32) as int, (y as i32) as int, *dir),
    {
        match dir {
            Dir::Up => self.unwrap_d_up(x, y),
            Dir::Down => self.unwrap_d_down(x, y),
        }
    }

    fn unwrap_d_up(&self, x: usize, y: usize) -> (r: Vec<&T>)
        requires
            matrix_wf(self@),
        ensures
            deref_all(r@) == strip_up(self@, (x as i32) as int, (y as i32) as int),
    {
        let xi = #[verifier::truncate] (x as i32);
        let yi = #[verifier::truncate] (y as i32);
        let ghost n = self@.1 as int;
        let ghost len = strip_len(n, xi as int, yi as int);
        let mut offset: i32 = 0;
        let mut ret: Vec<&T> = Vec::new();
        loop
            invariant_except_break
                matrix_wf(self@),
                n == self@.1,
                len == strip_len(n, xi as int, yi as int),
                0 <= offset <= len,
                deref_all(ret@) =~= strip_up(self@, xi as int, yi as int).take(offset as int),
            ensures
                deref_all(ret@) =~= strip_up(self@, xi as int, yi as int),
            decreases len - offset,
        {
            match self.get_at(xi - offset, yi + offset) {
                Some(a) => {
                    let ghost old_ret = ret@;
                    proof {
                        assert(*a == strip_up(self@, xi as int, yi as int)[offset as int]);
                    }
                    offset = offset + 1;
                    ret.push(a);
                    assert(deref_all(ret@) =~= deref_all(old_ret).push(*a));
                },
                None => {
                    assert(strip_up(self@, xi as int, yi as int).take(offset as int) =~= strip_up(
                        self@,
                        xi as int,
                        yi as int,
                    ));
                    break ;
                },
            }
        }
        ret
    }

    fn unwrap_d_down(&self, x: usize, y: usize) -> (r: Vec<&T>)
        requires
            matrix_wf(self@),
        ensures
            deref_all(r@) == strip_up(self@, (x as i32) as int, (y as i32) as int).reverse(),
    {
        let up = self.unwrap_d_up(x, y);
        let mut ret: Vec<&T> = Vec::new();
        let mut j = up.len();
        while j > 0
            invariant
                j <= up@.len(),
                deref_all(ret@) =~= deref_all(up@).reverse().take(up@.len() - j),
            decreases j,
        {
            j = j - 1;
            let ghost old_ret = ret@;
            ret.push(up[j]);
            assert(deref_all(ret@) =~= deref_all(old_ret).push(*up@[j as int]));
            assert(deref_all(up@).reverse().take(up@.len() - j) =~= deref_all(up@).reverse().take(
                up@.len() - j - 1,
            ).push(*up@[j as int]));
        }
        assert(deref_all(up@).reverse().take(up@.len() as int) =~= deref_all(up@).reverse());
        ret
    }

    /// The cells, row after row.
    pub fn iter(&self) -> (r: std::slice::Iter<T>)
        ensures
            vstd::std_specs::slice::into_iter_elts(r) == self@.0,
    {
        self.matrix.iter()
    }

    /// The cells, row after row, for writing: calls `<[T]>::iter_mut` on the cells. Nothing
    /// is stated of the walk, nor of the cells after it.
    #[verifier::external_body]
    pub fn iter_mut(&mut self) -> std::slice::IterMut<T> {
        self.matrix.iter_mut()
    }

    /// The cells with their positions, row after row.
    pub fn iter_enum(&self) -> (r: MatrixIter<T>)
        ensures
            r.wf(),
            r.items() == self@.0,
            r.width() == self@.1,
            r.pos() == 0,
    {
        MatrixIter::new(&self)
    }
}

/// How many cells there are from `(x, y)` down to the left (`x` falling, `y` rising)
/// inside a matrix of side `n`.
pub open spec fn strip_len(n: int, x: int, y: int) -> int {
    if 0 <= x < n && 0 <= y < n {
        if x + 1 < n - y {
            x + 1
        } else {
            n - y
        }
    } else {
        0
    }
}

/// The cells from `(x, y)` down to the left, inside the matrix.
pub open spec fn strip_up<T>(m: MatrixView<T>, x: int, y: int) -> Seq<T> {
    Seq::new(strip_len(m.1 as int, x, y) as nat, |k: int| cell(m, x - k, y + k))
}

/// The cells of a strip walked in the direction `dir`: `Up` from `(x, y)`, `Down`
/// towards it.
pub open spec fn strip_in<T>(m: MatrixView<T>, x: int, y: int, dir: Dir) -> Seq<T> {
    match dir {
        Dir::Up => strip_up(m, x, y),
        Dir::Down => strip_up(m, x, y).reverse(),
    }
}

/// The references of `r` point at the values of `s`.
pub open spec fn deref_all<T>(r: Seq<&T>) -> Seq<T> {
    r.map_values(|e: &T| *e)
}

/// The number of cells on the anti-diagonal `d` of a matrix of side `n`.
pub open spec fn diag_len(n: int, d: int) -> int {
    if d < n {
        d + 1
    } else {
        2 * n - 1 - d
    }
}

/// The number of cells on the anti-diagonals before `d`.
pub open spec fn diag_start(n: int, d: nat) -> int
    decreases d,
{
    if d == 0 {
        0
    } else {
        diag_start(n, (d - 1) as nat) + diag_len(n, d - 1)
    }
}

/// The upper right end of the anti-diagonal `d`.
pub open spec fn diag_corner(n: int, d: int) -> (int, int) {
    if d < n {
        (d, 0)
    } else {
        (n - 1, d - n + 1)
    }
}

/// The anti-diagonal `d` in zigzag order: from its upper right end when `d` is even,
/// from its lower left end when `d` is odd.
pub open spec fn zigzag_strip<T>(m: MatrixView<T>, d: int) -> Seq<T> {
    let (x, y) = diag_corner(m.1 as int, d);
    if d % 2 == 0 {
        strip_up(m, x, y)
    } else {
        strip_up(m, x, y).reverse()
    }
}

/// The first `e` anti-diagonals in zigzag order, one after the other.
pub open spec fn zigzag_upto<T>(m: MatrixView<T>, e: nat) -> Seq<T>
    decreases e,
{
    if e == 0 {
        seq![]
    } else {
        zigzag_upto(m, (e - 1) as nat) + zigzag_strip(m, e - 1)
    }
}

/// All cells of the matrix in zigzag order.
pub open spec fn zigzag<T>(m: MatrixView<T>) -> Seq<T> {
    if m.1 == 0 {
        seq![]
    } else {
        zigzag_upto(m, (2 * m.1 - 1) as nat)
    }
}

/// The cell `(a, b)` of the matrix of side `n` filled from `nums` in zigzag order, one
/// anti-diagonal after the other, each walked from its lower left end when odd and from
/// its upper right end when even; where `nums` runs out, the cells are 0.
pub open spec fn unzigzag_cell(nums: Seq<i8>, n: int, a: int, b: int) -> i8 {
    let d = a + b;
    let start = diag_start(n, d as nat);
    let len = diag_len(n, d);
    let x0 = if d < n {
        0
    } else {
        d - n + 1
    };
    let k = a - x0;
    let avail = nums.len() - start;
    let plen = if avail < 0 {
        0
    } else if avail < len {
        avail
    } else {
        len
    };
    if k < plen {
        if d % 2 == 0 {
            nums[start + plen - 1 - k]
        } else {
            nums[start + k]
        }
    } else {
        0
    }
}

/// Counts up from 1 to `rev`, then back down to 1, giving with each count the corner of
/// the anti-diagonal of that length in a matrix of side `rev`.
pub struct RevCounter {
    curr: usize,
    rev: usize,
    switch: bool,
}

impl RevCounter {
    /// The current count, the turning point, and whether the count is going down.
    pub closed spec fn state(self) -> (usize, usize, bool) {
        (self.curr, self.rev, self.switch)
    }

    /// A counter that turns at `rev`.
    pub fn new(rev: usize) -> (r: RevCounter)
        ensures
            r.state() == (0usize, rev, false),
    {
        RevCounter { curr: 0, rev, switch: false }
    }

    /// The next count with the corner `(x, y)` of its anti-diagonal; `None` when going
    /// down reaches 0.
    pub fn count(&mut self) -> (r: Option<PStore<usize>>)
        requires
            old(self).state().2 ==> 1 <= old(self).state().0 <= old(self).state().1,
            !old(self).state().2 ==> old(self).state().0 < usize::MAX,
        ensures
            ({
                let (c, rev, sw) = old(self).state();
                if sw {
                    &&& final(self).state() == ((c - 1) as usize, rev, true)
                    &&& r == if c - 1 == 0 {
                        None
                    } else {
                        Some(PStore::PointStore((c - 1) as usize, (rev - (c - 1)) as usize, (rev - 1) as usize))
                    }
                } else {
                    &&& final(self).state() == ((c + 1) as usize, rev, c + 1 == rev)
                    &&& r == Some(PStore::PointStore((c + 1) as usize, 0usize, c as usize))
                }
            }),
    {
        if self.switch {
            self.curr -= 1;
            if self.curr == 0 {
                None
            } else {
                Some(PStore::PointStore(self.curr, self.rev - self.curr, self.rev - 1))
            }
        } else {
            self.curr += 1;
            if self.curr == self.rev {
                self.switch = true;
            }
            Some(PStore::PointStore(self.curr, 0, self.curr - 1))
        }
    }
}

/// The cell `(a, b)` after the values `p` were written along the anti-diagonal through
/// `(x, y)`, going up and to the right from it, in order for `Up`, reversed for `Down`.
pub open spec fn diagonal_copied(m: MatrixView<i8>, p: Seq<i8>, x: int, y: int, dir: Dir, a: int, b: int) -> i8 {
    let o = a - x;
    if a + b == x + y && 0 <= o < p.len() {
        match dir {
            Dir::Up => p[o],
            Dir::Down => p[p.len() - 1 - o],
        }
    } else {
        cell(m, a, b)
    }
}

fn copy_diagonal(matrix: &mut SquareMatrix<i8>, points: PStore<&[i8]>, dir: &Dir)
    requires
        matrix_wf(old(matrix)@),
        points matches PStore::PointStore(p, x, y) && p@.len() <= y + 1 && x + p@.len() <= usize::MAX
            + 1 && (old(matrix)@.1 == 0
            || p@.len() == 0 || (x + p@.len() <= old(matrix)@.1 && y < old(matrix)@.1)),
    ensures
        final(matrix)@.1 == old(matrix)@.1,
        matrix_wf(final(matrix)@),
        points matches PStore::PointStore(p, x, y) && forall|a: int, b: int|
            0 <= a < old(matrix)@.1 && 0 <= b < old(matrix)@.1 ==> #[trigger] cell(
                final(matrix)@,
                a,
                b,
            ) == diagonal_copied(old(matrix)@, p@, x as int, y as int, *dir, a, b),
{
    let PStore::PointStore(p, x, y) = points;
    let ghost m0 = matrix@;
    let n = matrix.len();
    let len = p.len();
    let mut offset: usize = 0;
    while offset < len
        invariant
            offset <= len,
            len == p@.len(),
            n == m0.1,
            matrix_wf(m0),
            matrix@.1 == n,
            matrix_wf(matrix@),
            p@.len() <= y + 1,
            x + p@.len() <= usize::MAX + 1,
            n == 0 || p@.len() == 0 || (x + p@.len() <= n && y < n),
            forall|a: int, b: int|
                0 <= a < n && 0 <= b < n ==> #[trigger] cell(matrix@, a, b) == if a + b == x + y
                    && 0 <= a - x < offset {
                    diagonal_copied(m0, p@, x as int, y as int, *dir, a, b)
                } else {
                    cell(m0, a, b)
                },
        decreases len - offset,
    {
        let v = match dir {
            Dir::Up => p[offset],
            Dir::Down => p[len - 1 - offset],
        };
        let ghost before = matrix@;
        let ghost xx = (x + offset) as int;
        let ghost yy = (y - offset) as int;
        proof {
            if n > 0 {
                lemma_cell_index(n as int, xx, yy);
            }
        }
        matrix.set(x + offset, y - offset, v);
        proof {
            assert forall|a: int, b: int|
                0 <= a < n && 0 <= b < n implies #[trigger] cell(matrix@, a, b) == if a + b == x + y
                && 0 <= a - x < offset + 1 {
                diagonal_copied(m0, p@, x as int, y as int, *dir, a, b)
            } else {
                cell(m0, a, b)
            } by {
                lemma_cell_index(n as int, a, b);
                if b * n + a == yy * n + xx {
                    lemma_index_injective(n as int, a, b, xx, yy);
                } else {
                    assert(cell(matrix@, a, b) == cell(before, a, b));
                }
            }
        }
        offset = offset + 1;
    }
}

/// The state of a counter turning at `rev` after it gave `t` counts.
pub open spec fn counter_after(rev: usize, t: int) -> (usize, usize, bool) {
    if rev == 0 {
        (t as usize, rev, false)
    } else if t <= rev {
        (t as usize, rev, t == rev)
    } else {
        ((2 * rev - t) as usize, rev, true)
    }
}

/// The anti-diagonals are counted in order: the start of a later one is not before the
/// start of an earlier one.
pub proof fn lemma_diag_start_mono(n: int, d1: nat, d2: nat)
    requires
        d1 <= d2 <= 2 * n - 1,
    ensures
        diag_start(n, d1) <= diag_start(n, d2),
    decreases d2,
{
    if d1 < d2 {
        lemma_diag_start_mono(n, d1, (d2 - 1) as nat);
    }
}

/// A matrix of side `size` filled from `nums` along its anti-diagonals in zigzag order
/// (see `unzigzag_cell`); cells beyond the end of `nums` are 0.
pub fn from_diagonal_wrap(nums: &[i8], size: usize) -> (r: SquareMatrix<i8>)
    requires
        size * size <= usize::MAX,
        size <= i32::MAX,
        nums@.len() <= isize::MAX,
    ensures
        r@.1 == size,
        matrix_wf(r@),
        forall|a: int, b: int|
            0 <= a < size && 0 <= b < size ==> #[trigger] cell(r@, a, b) == unzigzag_cell(
                nums@,
                size as int,
                a,
                b,
            ),
{
    let mut ret = SquareMatrix::new_with(size, 0i8);
    let mut counter = RevCounter::new(size);
    let mut curr: usize = 0;
    let mut cont = true;
    let mut dir = Dir::Down;
    let ghost mut t: int = 0;
    let ghost n = size as int;
    let nlen = nums.len();
    assert forall|a: int, b: int| 0 <= a < n && 0 <= b < n implies #[trigger] cell(ret@, a, b)
        == 0i8 by {
        lemma_cell_index(n, a, b);
    }
    loop
        invariant_except_break
            n == size,
            nlen == nums@.len(),
            nums@.len() <= isize::MAX,
            size <= i32::MAX,
            ret@.1 == size,
            matrix_wf(ret@),
            0 <= t <= nums@.len() + 1,
            n > 0 ==> t <= 2 * n - 1,
            counter.state() == counter_after(size, t),
            dir == (if t % 2 == 0 {
                Dir::Down
            } else {
                Dir::Up
            }),
            cont ==> curr <= nums@.len() && t <= curr,
            cont && n > 0 ==> curr == diag_start(n, t as nat),
            !cont && n > 0 ==> diag_start(n, t as nat) > nums@.len(),
            forall|a: int, b: int|
                0 <= a < n && 0 <= b < n ==> #[trigger] cell(ret@, a, b) == if a + b < t {
                    unzigzag_cell(nums@, n, a, b)
                } else {
                    0i8
                },
        ensures
            ret@.1 == size,
            matrix_wf(ret@),
            forall|a: int, b: int|
                0 <= a < n && 0 <= b < n ==> #[trigger] cell(ret@, a, b) == unzigzag_cell(
                    nums@,
                    n,
                    a,
                    b,
                ),
        decreases (if cont {
            nums@.len() + 2 - curr
        } else {
            1
        }),
    {
        match counter.count() {
            Some(PStore::PointStore(length, x, y)) => {
                if !cont {
                    proof {
                        assert forall|a: int, b: int|
                            0 <= a < n && 0 <= b < n implies #[trigger] cell(ret@, a, b)
                            == unzigzag_cell(nums@, n, a, b) by {
                            if a + b >= t {
                                lemma_diag_start_mono(n, t as nat, (a + b) as nat);
                            }
                        }
                    }
                    break ;
                }
                let ghost start = curr as int;
                let sl = if curr + length > nlen {
                    cont = false;
                    vstd::slice::slice_subrange(nums, curr, nlen)
                } else {
                    vstd::slice::slice_subrange(nums, curr, curr + length)
                };
                let ghost before = ret@;
                copy_diagonal(&mut ret, PStore::PointStore(sl, x, y), &dir);
                proof {
                    assert forall|a: int, b: int|
                        0 <= a < n && 0 <= b < n implies #[trigger] cell(ret@, a, b) == if a + b
                        < t + 1 {
                        unzigzag_cell(nums@, n, a, b)
                    } else {
                        0i8
                    } by {
                        assert(cell(before, a, b) == if a + b < t {
                            unzigzag_cell(nums@, n, a, b)
                        } else {
                            0i8
                        });
                    }
                }
                dir.switch();
                curr = curr + length;
                proof {
                    t = t + 1;
                }
            },
            None => {
                proof {
                    assert forall|a: int, b: int|
                        0 <= a < n && 0 <= b < n implies #[trigger] cell(ret@, a, b)
                        == unzigzag_cell(nums@, n, a, b) by {
                        if !cont && a + b >= t {
                            lemma_diag_start_mono(n, t as nat, (a + b) as nat);
                        }
                    }
                }
                break ;
            },
        }
    }
    ret
}

proof fn lemma_zigzag_strip_len<T>(m: MatrixView<T>, d: int)
    requires
        0 <= d <= 2 * m.1 - 2,
    ensures
        zigzag_strip(m, d).len() == diag_len(m.1 as int, d),
{
}

proof fn lemma_zigzag_upto_len<T>(m: MatrixView<T>, e: nat)
    requires
        e <= 2 * m.1 - 1,
    ensures
        zigzag_upto(m, e).len() == diag_start(m.1 as int, e),
    decreases e,
{
    if e > 0 {
        lemma_zigzag_upto_len(m, (e - 1) as nat);
    }
}

proof fn lemma_zigzag_upto_index<T>(m: MatrixView<T>, d: nat, e: nat, j: int)
    requires
        d < e <= 2 * m.1 - 1,
        0 <= j < diag_len(m.1 as int, d as int),
    ensures
        zigzag_upto(m, e)[diag_start(m.1 as int, d) + j] == zigzag_strip(m, d as int)[j],
    decreases e,
{
    lemma_zigzag_upto_len(m, (e - 1) as nat);
    lemma_zigzag_strip_len(m, d as int);
    let n = m.1 as int;
    let i = diag_start(n, d) + j;
    lemma_diag_start_mono(n, 0, d);
    assert(zigzag_upto(m, e) == zigzag_upto(m, (e - 1) as nat) + zigzag_strip(m, e - 1));
    if e > d + 1 {
        lemma_diag_start_mono(n, d + 1, (e - 1) as nat);
        assert(diag_start(n, d + 1) == diag_start(n, d) + diag_len(n, d as int));
        lemma_zigzag_upto_index(m, d, (e - 1) as nat, j);
        assert(i < zigzag_upto(m, (e - 1) as nat).len());
        assert(zigzag_upto(m, e)[i] == zigzag_upto(m, (e - 1) as nat)[i]);
    } else {
        assert(zigzag_upto(m, (e - 1) as nat).len() == diag_start(n, d));
        assert(e - 1 == d);
        assert(zigzag_upto(m, e)[i] == zigzag_strip(m, d as int)[j]);
    }
}

/// Filling a matrix from the zigzag order of another one gives that matrix back.
pub proof fn lemma_zigzag_roundtrip(m: MatrixView<i8>)
    requires
        matrix_wf(m),
    ensures
        forall|a: int, b: int|
            0 <= a < m.1 && 0 <= b < m.1 ==> #[trigger] unzigzag_cell(zigzag(m), m.1 as int, a, b)
                == cell(m, a, b),
{
    let n = m.1 as int;
    assert forall|a: int, b: int| 0 <= a < n && 0 <= b < n implies #[trigger] unzigzag_cell(
        zigzag(m),
        n,
        a,
        b,
    ) == cell(m, a, b) by {
        let d = a + b;
        let len = diag_len(n, d);
        let x0 = if d < n {
            0
        } else {
            d - n + 1
        };
        let k = a - x0;
        lemma_zigzag_upto_len(m, (2 * n - 1) as nat);
        lemma_zigzag_strip_len(m, d);
        lemma_diag_start_mono(n, (d + 1) as nat, (2 * n - 1) as nat);
        lemma_zigzag_upto_index(m, d as nat, (2 * n - 1) as nat, len - 1 - k);
        lemma_zigzag_upto_index(m, d as nat, (2 * n - 1) as nat, k);
    }
}

proof fn lemma_diag_start_total(n: int, d: nat)
    requires
        n >= 0,
        d <= 2 * n - 1,
    ensures
        d <= n ==> 2 * diag_start(n, d) == d * (d + 1),
        d >= n ==> 2 * diag_start(n, d) == 2 * n * n - (2 * n - 1 - d) * (2 * n - d),
    decreases d,
{
    if d > 0 {
        let e = (d - 1) as nat;
        lemma_diag_start_total(n, e);
        if e < n {
            assert(2 * (diag_start(n, e) + e + 1) == d * (d + 1)) by (nonlinear_arith)
                requires
                    2 * diag_start(n, e) == e * (e + 1),
                    d == e + 1,
            ;
            if d >= n {
                assert(d * (d + 1) == 2 * n * n - (2 * n - 1 - d) * (2 * n - d)) by (nonlinear_arith)
                    requires
                        d == n,
                ;
            }
        } else {
            assert(2 * (diag_start(n, e) + 2 * n - 1 - e) == 2 * n * n - (2 * n - 1 - d) * (2 * n
                - d)) by (nonlinear_arith)
                requires
                    2 * diag_start(n, e) == 2 * n * n - (2 * n - 1 - e) * (2 * n - e),
                    d == e + 1,
            ;
        }
    }
}

proof fn lemma_find_diag(n: int, i: int, e: nat) -> (d: nat)
    requires
        n >= 1,
        1 <= e <= 2 * n - 1,
        0 <= i < diag_start(n, e),
    ensures
        d < e,
        diag_start(n, d) <= i < diag_start(n, d + 1),
    decreases e,
{
    let p = (e - 1) as nat;
    if diag_start(n, p) <= i {
        p
    } else {
        lemma_find_diag(n, i, p)
    }
}

/// No value is lost when a matrix is filled from `nums` in zigzag order: when `nums` has
/// at most `n * n` values, each value `nums[i]` stands in some cell of the anti-diagonal
/// whose zigzag range holds `i`, also on an anti-diagonal that `nums` only partly fills.
pub proof fn lemma_unzigzag_keeps_values(nums: Seq<i8>, n: int, i: int)
    requires
        n >= 1,
        nums.len() <= n * n,
        0 <= i < nums.len(),
    ensures
        exists|a: int, b: int|
            0 <= a < n && 0 <= b < n && diag_start(n, (a + b) as nat) <= i < diag_start(
                n,
                (a + b + 1) as nat,
            ) && #[trigger] unzigzag_cell(nums, n, a, b) == nums[i],
{
    lemma_diag_start_total(n, (2 * n - 1) as nat);
    assert(diag_start(n, (2 * n - 1) as nat) == n * n) by (nonlinear_arith)
        requires
            2 * diag_start(n, (2 * n - 1) as nat) == 2 * n * n - (2 * n - 1 - (2 * n - 1)) * (2 * n
                - (2 * n - 1)),
    ;
    let d = lemma_find_diag(n, i, (2 * n - 1) as nat);
    let start = diag_start(n, d);
    let len = diag_len(n, d as int);
    assert(diag_start(n, d + 1) == start + len);
    let x0 = if d < n {
        0
    } else {
        d - n + 1
    };
    let avail = nums.len() - start;
    let plen = if avail < len {
        avail
    } else {
        len
    };
    let j = i - start;
    let k = if d % 2 == 0 {
        plen - 1 - j
    } else {
        j
    };
    let a = x0 + k;
    let b = d - a;
    assert(0 <= k < len);
    assert(unzigzag_cell(nums, n, a, b) == nums[i]);
}

/// Filling a matrix from a prefix of the zigzag order of `m` gives back each cell of `m`
/// whose anti-diagonal the prefix holds whole, and each cell of an odd anti-diagonal whose
/// zigzag position is inside the prefix.
pub proof fn lemma_unzigzag_prefix(m: MatrixView<i8>, e: int)
    requires
        matrix_wf(m),
        0 <= e <= zigzag(m).len(),
    ensures
        forall|a: int, b: int|
            0 <= a < m.1 && 0 <= b < m.1 && ((a + b) % 2 == 1 && diag_start(m.1 as int, (a + b) as nat)
                + (a - (if a + b < m.1 {
                0
            } else {
                a + b - m.1 + 1
            })) < e || diag_start(m.1 as int, (a + b + 1) as nat) <= e) ==> #[trigger] unzigzag_cell(
                zigzag(m).take(e),
                m.1 as int,
                a,
                b,
            ) == cell(m, a, b),
{
    let n = m.1 as int;
    lemma_zigzag_roundtrip(m);
    assert forall|a: int, b: int|
        0 <= a < n && 0 <= b < n && ((a + b) % 2 == 1 && diag_start(n, (a + b) as nat) + (a - (if a
            + b < n {
            0
        } else {
            a + b - n + 1
        })) < e || diag_start(n, (a + b + 1) as nat) <= e) implies #[trigger] unzigzag_cell(
        zigzag(m).take(e),
        n,
        a,
        b,
    ) == cell(m, a, b) by {
        let d = a + b;
        let start = diag_start(n, d as nat);
        let len = diag_len(n, d);
        assert(diag_start(n, (d + 1) as nat) == start + len);
        lemma_diag_start_mono(n, 0, d as nat);
        assert(unzigzag_cell(zigzag(m), n, a, b) == cell(m, a, b));
        assert(unzigzag_cell(zigzag(m).take(e), n, a, b) == unzigzag_cell(zigzag(m), n, a, b));
    }
}

/// Direction in which a diagonal of a square matrix is walked.
pub enum Dir {
    Up,
    Down,
}

impl Dir {
    /// Flips the direction.
    pub fn switch(&mut self)
        ensures
            *final(self) == (match *old(self) {
                Dir::Up => Dir::Down,
                Dir::Down => Dir::Up,
            }),
    {
        match self {
            Dir::Up => *self = Dir::Down,
            Dir::Down => *self = Dir::Up,
        }
    }
}

} // verus!
