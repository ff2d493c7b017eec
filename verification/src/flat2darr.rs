//! A dense two-dimensional array with bounds-checked access.

use vstd::prelude::*;

verus! {

/// `height` rows of `width` elements each, stored row by row in one vector.
/// The element at `(row, col)` lives at index `row * width + col`.
#[derive(Debug, PartialEq, Eq, Hash, PartialOrd, Ord)]
pub struct Flat2DArray<T> {
    width: usize,
    height: usize,
    data: Vec<T>,
}

/// A position inside `rows` rows of `cols` columns maps to an index inside the
/// storage, and two positions share an index only if they are the same.
pub proof fn lemma_index_in_range(row: int, col: int, rows: int, cols: int)
    requires
        0 <= row < rows,
        0 <= col < cols,
    ensures
        0 <= row * cols + col < rows * cols,
        (row * cols + col) / cols == row,
        (row * cols + col) % cols == col,
{
    assert(0 <= row * cols) by (nonlinear_arith)
        requires
            0 <= row,
            0 <= cols,
    ;
    assert(row * cols + cols <= rows * cols) by (nonlinear_arith)
        requires
            row + 1 <= rows,
            0 <= cols,
    ;
    vstd::arithmetic::div_mod::lemma_fundamental_div_mod_converse(
        row * cols + col,
        cols,
        row,
        col,
    );
}

impl<T> View for Flat2DArray<T> {
    type V = Seq<T>;

    /// The elements in row-major order.
    closed spec fn view(&self) -> Seq<T> {
        self.data@
    }
}

impl<T> Flat2DArray<T> {
    #[verifier::type_invariant]
    spec fn well_formed(&self) -> bool {
        self.data@.len() == self.height * self.width
    }

    /// The slot of an in-bounds position exists, so its index fits in `usize`.
    proof fn lemma_slot(&self, row: usize, col: usize)
        requires
            self.well_formed(),
            row < self.height,
            col < self.width,
        ensures
            0 <= row * self.width,
            row * self.width + col < self.data@.len(),
            self.data@.len() <= usize::MAX,
    {
        lemma_index_in_range(row as int, col as int, self.height as int, self.width as int);
        assert(self.data.len() == self.data@.len());
    }

    /// Number of columns.
    pub closed spec fn cols(&self) -> nat {
        self.width as nat
    }

    /// Number of rows.
    pub closed spec fn rows(&self) -> nat {
        self.height as nat
    }

    /// Whether `(row, col)` names an element.
    pub open spec fn in_bounds(&self, row: int, col: int) -> bool {
        0 <= row < self.rows() && 0 <= col < self.cols()
    }

    /// Where `(row, col)` lives in the row-major view.
    pub open spec fn index_of(&self, row: int, col: int) -> int {
        row * self.cols() + col
    }

    /// The element at `(row, col)`; meaningful only in bounds.
    pub open spec fn at(&self, row: int, col: int) -> T
        recommends
            self.in_bounds(row, col),
    {
        self@[self.index_of(row, col)]
    }

    /// Number of columns.
    pub fn width(&self) -> (w: usize)
        ensures
            w == self.cols(),
            self@.len() == self.rows() * self.cols(),
    {
        proof {
            use_type_invariant(self);
        }
        self.width
    }

    /// Number of rows.
    pub fn height(&self) -> (h: usize)
        ensures
            h == self.rows(),
            self@.len() == self.rows() * self.cols(),
    {
        proof {
            use_type_invariant(self);
        }
        self.height
    }

    /// The elements in row-major order.
    pub fn data(&self) -> (d: &Vec<T>)
        ensures
            d@ == self@,
            d@.len() == self.rows() * self.cols(),
    {
        proof {
            use_type_invariant(self);
        }
        &self.data
    }

    /// Shared access to the element at `(row, col)`, or `None` when either
    /// coordinate is out of bounds.
    pub fn get(&self, row: usize, col: usize) -> (r: Option<&T>)
        ensures
            self@.len() == self.rows() * self.cols(),
            self.in_bounds(row as int, col as int) ==> r == Some(&self.at(row as int, col as int)),
            !self.in_bounds(row as int, col as int) ==> r is None,
    {
        proof {
            use_type_invariant(self);
        }
        if row < self.height && col < self.width {
            proof {
                self.lemma_slot(row, col);
            }
            Some(&self.data[row * self.width + col])
        } else {
            None
        }
    }

    /// Exclusive access to the element at `(row, col)`, or `None` when either
    /// coordinate is out of bounds. Whatever is written through the reference
    /// replaces that one element; nothing else changes.
    pub fn get_mut(&mut self, row: usize, col: usize) -> (r: Option<&mut T>)
        ensures
            final(self).rows() == old(self).rows(),
            final(self).cols() == old(self).cols(),
            old(self).in_bounds(row as int, col as int) ==> {
                &&& r is Some
                &&& *r->0 == old(self).at(row as int, col as int)
                &&& final(self)@ == old(self)@.update(
                    old(self).index_of(row as int, col as int),
                    *final(r->0),
                )
            },
            !old(self).in_bounds(row as int, col as int) ==> r is None
                && final(self)@ == old(self)@,
    {
        proof {
            use_type_invariant(&*self);
        }
        if row < self.height && col < self.width {
            proof {
                self.lemma_slot(row, col);
            }
            Some(&mut self.data[row * self.width + col])
        } else {
            None
        }
    }

    /// Stores `value` at `(row, col)`. Out of bounds, nothing happens.
    pub fn set(&mut self, row: usize, col: usize, value: T)
        ensures
            final(self).rows() == old(self).rows(),
            final(self).cols() == old(self).cols(),
            final(self)@.len() == old(self)@.len(),
            old(self).in_bounds(row as int, col as int) ==> final(self)@ == old(self)@.update(
                old(self).index_of(row as int, col as int),
                value,
            ),
            !old(self).in_bounds(row as int, col as int) ==> final(self)@ == old(self)@,
    {
        proof {
            use_type_invariant(&*self);
        }
        if row < self.height && col < self.width {
            proof {
                self.lemma_slot(row, col);
            }
            self.data[row * self.width + col] = value;
        }
    }
}

impl<T: Default + Copy> Flat2DArray<T> {
    /// An array of `height` rows and `width` columns, every element the
    /// default value of `T`.
    pub fn new(width: usize, height: usize) -> (arr: Self)
        requires
            width * height <= usize::MAX,
        ensures
            arr.cols() == width,
            arr.rows() == height,
            arr@.len() == arr.rows() * arr.cols(),
            forall|i: int| 0 <= i < arr@.len() ==> T::default.ensures((), #[trigger] arr@[i]),
    {
        proof {
            vstd::arithmetic::mul::lemma_mul_is_commutative(width as int, height as int);
        }
        let n: usize = height * width;
        let fill = T::default();
        let mut data: Vec<T> = Vec::new();
        let mut i: usize = 0;
        while i < n
            invariant
                i <= n,
                data@.len() == i,
                T::default.ensures((), fill),
                forall|k: int| 0 <= k < i ==> data@[k] == fill,
            decreases n - i,
        {
            data.push(fill);
            i = i + 1;
        }
        Flat2DArray { width, height, data }
    }
}

impl<T: Copy> Clone for Flat2DArray<T> {
    /// An independent copy holding the same elements.
    fn clone(&self) -> (copy: Self)
        ensures
            copy.cols() == self.cols(),
            copy.rows() == self.rows(),
            copy@ == self@,
    {
        proof {
            use_type_invariant(self);
        }
        let n: usize = self.data.len();
        let mut data: Vec<T> = Vec::new();
        let mut i: usize = 0;
        while i < n
            invariant
                n == self.data@.len(),
                i <= n,
                data@.len() == i,
                forall|k: int| 0 <= k < i ==> data@[k] == self.data@[k],
            decreases n - i,
        {
            data.push(self.data[i]);
            i = i + 1;
        }
        assert(data@ =~= self.data@);
        Flat2DArray { width: self.width, height: self.height, data }
    }
}

} // verus!
