use vstd::prelude::*;
use vstd::arithmetic::mul::lemma_mul_inequality;
use crate::errors::EmbedError;

verus! {

/// Copy the elements `v[a..b]` into a fresh vector.
pub fn copy_range(v: &Vec<u32>, a: usize, b: usize) -> (r: Vec<u32>)
    requires
        a <= b <= v@.len(),
    ensures
        r@ == v@.subrange(a as int, b as int),
{
    let mut r: Vec<u32> = Vec::new();
    let mut i: usize = a;
    while i < b
        invariant
            a <= i <= b <= v@.len(),
            r@ == v@.subrange(a as int, i as int),
        decreases b - i,
    {
        r.push(v[i]);
        proof {
            assert(v@.subrange(a as int, i + 1) == v@.subrange(a as int, i as int).push(v@[i as int]));
        }
        i += 1;
    }
    r
}

/// A 2-D numeric array: `rows` item vectors of width `cols`, stored
/// row-major in a backing buffer starting at `offset`. Element `(i, j)`
/// lives at `data[offset + i * cols + j]`. A view with a non-zero offset
/// (or a buffer longer than the view) models a non-contiguous borrow of a
/// larger allocation; the flat aggregation path refuses such a view.
#[derive(Clone, Debug)]
pub struct PooledArray {
    /// Number of item vectors.
    pub rows: usize,
    /// Width of each item vector (the embedding dimension).
    pub cols: usize,
    /// Index of element `(0, 0)` in the backing buffer.
    pub offset: usize,
    /// The backing buffer.
    pub data: Vec<u32>,
}

impl PooledArray {
    /// The view lies inside its backing buffer.
    pub open spec fn wf(&self) -> bool {
        self.offset + self.rows * self.cols <= self.data@.len()
    }

    /// Row `i` of the view.
    pub open spec fn row_spec(&self, i: int) -> Seq<u32> {
        self.data@.subrange(
            self.offset + i * self.cols,
            self.offset + i * self.cols + self.cols,
        )
    }

    /// Build a contiguous array from exactly `rows * cols` elements;
    /// `None` exactly when the element count does not match.
    pub fn new(rows: usize, cols: usize, data: Vec<u32>) -> (r: Option<PooledArray>)
        ensures
            match r {
                Some(a) => a.rows == rows && a.cols == cols && a.offset == 0
                    && a.data@ == data@ && data@.len() == rows * cols && a.wf(),
                None => data@.len() != rows * cols,
            },
    {
        let dlen = data.len();
        match rows.checked_mul(cols) {
            Some(p) => {
                if dlen == p {
                    Some(PooledArray { rows, cols, offset: 0, data })
                } else {
                    None
                }
            },
            None => None,
        }
    }

    /// Build a possibly offset view into a larger buffer; `None` exactly
    /// when the view would not fit inside the buffer.
    pub fn with_offset(rows: usize, cols: usize, offset: usize, data: Vec<u32>) -> (r: Option<
        PooledArray,
    >)
        ensures
            match r {
                Some(a) => a.rows == rows && a.cols == cols && a.offset == offset
                    && a.data@ == data@ && a.wf(),
                None => offset + rows * cols > data@.len(),
            },
    {
        let dlen = data.len();
        match rows.checked_mul(cols) {
            Some(p) => {
                match offset.checked_add(p) {
                    Some(end) => {
                        if end <= dlen {
                            Some(PooledArray { rows, cols, offset, data })
                        } else {
                            None
                        }
                    },
                    None => None,
                }
            },
            None => None,
        }
    }

    /// The view's shape as `(rows, cols)`.
    pub fn dim(&self) -> (d: (usize, usize))
        ensures
            d.0 == self.rows,
            d.1 == self.cols,
    {
        (self.rows, self.cols)
    }

    /// Copy row `i` of the view out as an owned vector.
    pub fn row(&self, i: usize) -> (r: Vec<u32>)
        requires
            self.wf(),
            i < self.rows,
        ensures
            r@ == self.row_spec(i as int),
    {
        let dlen = self.data.len();
        proof {
            assert(dlen == self.data@.len());
            lemma_mul_inequality(i + 1, self.rows as int, self.cols as int);
            assert((i + 1) * self.cols == i * self.cols + self.cols) by (nonlinear_arith);
        }
        let start = self.offset + i * self.cols;
        copy_range(&self.data, start, start + self.cols)
    }

    /// Hand out the raw backing buffer, provided the view is contiguous
    /// from offset zero and covers the buffer exactly; otherwise report
    /// the layout violation instead of repairing it.
    pub fn into_contiguous(self) -> (r: Result<Vec<u32>, EmbedError>)
        ensures
            match r {
                Ok(d) => self.offset == 0 && self.data@.len() == self.rows * self.cols
                    && d@ == self.data@,
                Err(e) => e == EmbedError::LayoutViolation
                    && !(self.offset == 0 && self.data@.len() == self.rows * self.cols),
            },
    {
        let dlen = self.data.len();
        match self.rows.checked_mul(self.cols) {
            Some(p) => {
                if self.offset == 0 && dlen == p {
                    Ok(self.data)
                } else {
                    Err(EmbedError::LayoutViolation)
                }
            },
            None => Err(EmbedError::LayoutViolation),
        }
    }
}

} // verus!
