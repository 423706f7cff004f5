use vstd::prelude::*;
use vstd::arithmetic::mul::{lemma_mul_inequality, lemma_mul_is_associative};
use crate::errors::EmbedError;
use crate::pooling::Pooling;
use crate::precedence::{OutputPrecedence, spec_select, name_views, lemma_select_index_in_range};
use crate::tensor::{Tensor, shape_product};
use crate::array::{PooledArray, copy_range};

verus! {

/// One inference call's raw outputs: a mapping from output name to a
/// numeric tensor. The pipeline only reads batches; it never mutates them.
pub struct SingleBatchOutput {
    /// The named output tensors, in the order the inference layer yields
    /// them. When two entries carry the same name the first one wins.
    pub outputs: Vec<(String, Tensor)>,
}

impl SingleBatchOutput {
    /// Every tensor of the batch is well formed.
    pub open spec fn wf(&self) -> bool {
        forall|i: int| 0 <= i < self.outputs@.len() ==> (#[trigger] self.outputs@[i]).1.wf()
    }

    /// The batch's output names, in order.
    pub open spec fn names(&self) -> Seq<Seq<char>> {
        self.outputs@.map_values(|p: (String, Tensor)| p.0@)
    }
}

/// The shape `(items, width)` that pooling gives the selected tensor, or
/// `None` when the tensor's rank (or an empty token axis) is incompatible
/// with the requested strategy: without pooling the tensor must already be
/// rank 2; class-token pooling needs rank 3 with at least one token.
pub open spec fn pooled_dims(t: Tensor, pooling: Option<Pooling>) -> Option<(int, int)> {
    match pooling {
        None => if t.shape@.len() == 2 {
            Some((t.shape@[0] as int, t.shape@[1] as int))
        } else {
            None
        },
        Some(Pooling::Cls) => if t.shape@.len() == 3 && t.shape@[1] >= 1 {
            Some((t.shape@[0] as int, t.shape@[2] as int))
        } else {
            None
        },
    }
}

/// Item `i`'s pooled vector: its row of a rank-2 tensor, or its first
/// token's vector under class-token pooling of a rank-3 tensor.
pub open spec fn pooled_row(t: Tensor, pooling: Option<Pooling>, i: int) -> Seq<u32> {
    match pooling {
        None => t.data@.subrange(
            i * t.shape@[1],
            i * t.shape@[1] + t.shape@[1],
        ),
        Some(Pooling::Cls) => t.data@.subrange(
            i * (t.shape@[1] * t.shape@[2]),
            i * (t.shape@[1] * t.shape@[2]) + t.shape@[2],
        ),
    }
}

/// The concatenation of the first `n` pooled rows, in row order.
pub open spec fn pooled_prefix(t: Tensor, pooling: Option<Pooling>, n: int) -> Seq<u32>
    decreases n,
{
    if n <= 0 {
        Seq::empty()
    } else {
        pooled_prefix(t, pooling, n - 1) + pooled_row(t, pooling, n - 1)
    }
}

/// The whole pooled result, row-major.
pub open spec fn pooled_data(t: Tensor, pooling: Option<Pooling>) -> Seq<u32> {
    pooled_prefix(t, pooling, pooled_dims(t, pooling).unwrap().0)
}

/// What selecting and pooling one batch yields: the selected, pooled
/// tensor as `(items, width, row-major data)`, or the first applicable
/// error (selection first, then pooling compatibility).
pub open spec fn spec_select_and_pool(
    b: SingleBatchOutput,
    keys: Seq<crate::precedence::OutputKey>,
    pooling: Option<Pooling>,
) -> Result<(int, int, Seq<u32>), EmbedError> {
    match spec_select(keys, b.names()) {
        None => Err(EmbedError::SelectionFailure),
        Some(i) => {
            let t = b.outputs@[i].1;
            match pooled_dims(t, pooling) {
                None => Err(EmbedError::PoolingIncompatible),
                Some((r, c)) => Ok((r, c, pooled_data(t, pooling))),
            }
        },
    }
}

/// A rank-2 shape's element count is `rows * cols`.
pub proof fn lemma_shape_product_rank2(shape: Seq<usize>)
    requires
        shape.len() == 2,
    ensures
        shape_product(shape) == shape[0] * shape[1],
{
    let s1 = shape.drop_last();
    assert(s1.drop_last().len() == 0);
    assert(shape_product(s1.drop_last()) == 1);
    assert(shape_product(s1) == 1 * s1.last());
    assert(s1.last() == shape[0]);
}

/// A rank-3 shape's element count is `items * (tokens * width)`.
pub proof fn lemma_shape_product_rank3(shape: Seq<usize>)
    requires
        shape.len() == 3,
    ensures
        shape_product(shape) == shape[0] * (shape[1] * shape[2]),
{
    let s2 = shape.drop_last();
    lemma_shape_product_rank2(s2);
    assert(s2[0] == shape[0] && s2[1] == shape[1]);
    assert(shape_product(shape) == (shape[0] * shape[1]) * shape[2]);
    lemma_mul_is_associative(shape[0] as int, shape[1] as int, shape[2] as int);
}

/// Each pooled row lies inside the tensor's data and has the pooled width.
pub proof fn lemma_pooled_row_inside(t: Tensor, pooling: Option<Pooling>, i: int)
    requires
        t.wf(),
        pooled_dims(t, pooling) is Some,
        0 <= i < pooled_dims(t, pooling).unwrap().0,
    ensures
        ({
            let (rows, cols) = pooled_dims(t, pooling).unwrap();
            let w = pooled_stride(t, pooling);
            &&& 0 <= i * w
            &&& i * w + cols <= t.data@.len()
            &&& pooled_row(t, pooling, i).len() == cols
        }),
{
    let (rows, cols) = pooled_dims(t, pooling).unwrap();
    let w = pooled_stride(t, pooling);
    match pooling {
        None => {
            lemma_shape_product_rank2(t.shape@);
            lemma_mul_inequality(i + 1, rows, cols);
            assert((i + 1) * cols == i * cols + cols) by (nonlinear_arith);
            assert(i * cols >= 0) by (nonlinear_arith)
                requires i >= 0 && cols >= 0,
            ;
        },
        Some(Pooling::Cls) => {
            lemma_shape_product_rank3(t.shape@);
            let s = t.shape@[1] as int;
            lemma_mul_inequality(i + 1, rows, s * cols);
            assert((i + 1) * (s * cols) == i * (s * cols) + s * cols) by (nonlinear_arith);
            assert(cols <= s * cols) by (nonlinear_arith)
                requires s >= 1 && cols >= 0,
            ;
            assert(i * (s * cols) >= 0) by (nonlinear_arith)
                requires i >= 0 && s >= 0 && cols >= 0,
            ;
        },
    }
}

/// The distance between consecutive pooled rows' starts in the tensor's
/// backing data: its width for a rank-2 tensor, `tokens * width` under
/// class-token pooling.
pub open spec fn pooled_stride(t: Tensor, pooling: Option<Pooling>) -> int {
    match pooling {
        None => t.shape@[1] as int,
        Some(Pooling::Cls) => t.shape@[1] * t.shape@[2],
    }
}

/// The first `n` pooled rows concatenate to `n * cols` scalars.
pub proof fn lemma_pooled_prefix_len(t: Tensor, pooling: Option<Pooling>, n: int)
    requires
        t.wf(),
        pooled_dims(t, pooling) is Some,
        0 <= n <= pooled_dims(t, pooling).unwrap().0,
    ensures
        pooled_prefix(t, pooling, n).len() == n * pooled_dims(t, pooling).unwrap().1,
    decreases n,
{
    let cols = pooled_dims(t, pooling).unwrap().1;
    if n == 0 {
    } else {
        lemma_pooled_prefix_len(t, pooling, n - 1);
        lemma_pooled_row_inside(t, pooling, n - 1);
        assert((n - 1) * cols + cols == n * cols) by (nonlinear_arith);
    }
}

/// Without pooling, the pooled rows of a rank-2 tensor concatenate back to
/// its own row-major data.
pub proof fn lemma_pooled_prefix_rank2(t: Tensor, n: int)
    requires
        t.wf(),
        t.shape@.len() == 2,
        0 <= n <= t.shape@[0],
    ensures
        pooled_prefix(t, None, n) == t.data@.take(n * t.shape@[1]),
    decreases n,
{
    let cols = t.shape@[1] as int;
    if n == 0 {
        assert(pooled_prefix(t, None, 0) =~= t.data@.take(0));
    } else {
        lemma_pooled_prefix_rank2(t, n - 1);
        lemma_pooled_row_inside(t, None, n - 1);
        assert((n - 1) * cols + cols == n * cols) by (nonlinear_arith);
        lemma_shape_product_rank2(t.shape@);
        lemma_mul_inequality(n, t.shape@[0] as int, cols);
        assert(pooled_prefix(t, None, n) =~= t.data@.take(n * cols));
    }
}

impl SingleBatchOutput {
    /// Select one output tensor per the precedence policy and pool it into
    /// one vector per item, exactly as `spec_select_and_pool` says. The
    /// resulting array is contiguous from offset zero.
    pub fn select_and_pool_output(
        &self,
        output_precedence: &OutputPrecedence,
        pooling: Option<Pooling>,
    ) -> (r: Result<PooledArray, EmbedError>)
        requires
            self.wf(),
        ensures
            match r {
                Ok(a) => spec_select_and_pool(*self, output_precedence@, pooling)
                        == Ok::<(int, int, Seq<u32>), EmbedError>((a.rows as int, a.cols as int, a.data@))
                    && a.offset == 0
                    && a.data@.len() == a.rows * a.cols
                    && a.wf(),
                Err(e) => spec_select_and_pool(*self, output_precedence@, pooling)
                    == Err::<(int, int, Seq<u32>), EmbedError>(e),
            },
    {
        // Gather the available output names for the selection step.
        let n = self.outputs.len();
        let mut names: Vec<String> = Vec::new();
        let mut i: usize = 0;
        while i < n
            invariant
                n == self.outputs@.len(),
                0 <= i <= n,
                names@.len() == i,
                forall|j: int| 0 <= j < i ==> names@[j]@ == self.names()[j],
            decreases n - i,
        {
            names.push(self.outputs[i].0.clone());
            i += 1;
        }
        proof {
            assert(name_views(names@) =~= self.names());
        }
        let idx = match output_precedence.select(&names) {
            Ok(idx) => idx,
            Err(e) => {
                return Err(e);
            },
        };
        proof {
            lemma_select_index_in_range(output_precedence@, self.names());
        }
        let t = &self.outputs[idx].1;
        let ghost tt = self.outputs@[idx as int].1;
        let rank = t.shape.len();
        match pooling {
            None => {
                if rank == 2 {
                    let rows = t.shape[0];
                    let cols = t.shape[1];
                    proof {
                        lemma_shape_product_rank2(tt.shape@);
                    }
                    let dlen = t.data.len();
                    let data = copy_range(&t.data, 0, dlen);
                    proof {
                        assert(data@ =~= tt.data@);
                        lemma_pooled_prefix_rank2(tt, rows as int);
                        assert(tt.data@.take(rows * cols as int) =~= tt.data@);
                    }
                    Ok(PooledArray { rows, cols, offset: 0, data })
                } else {
                    Err(EmbedError::PoolingIncompatible)
                }
            },
            Some(Pooling::Cls) => {
                if rank == 3 && t.shape[1] >= 1 {
                    let rows = t.shape[0];
                    let toks = t.shape[1];
                    let cols = t.shape[2];
                    proof {
                        lemma_shape_product_rank3(tt.shape@);
                    }
                    if rows == 0 {
                        let data: Vec<u32> = Vec::new();
                        proof {
                            assert(pooled_data(tt, pooling) =~= data@);
                        }
                        Ok(PooledArray { rows: 0, cols, offset: 0, data })
                    } else {
                        let dlen = t.data.len();
                        proof {
                            assert(dlen == rows * (toks * cols));
                            assert(toks * cols <= rows * (toks * cols)) by (nonlinear_arith)
                                requires rows >= 1 && toks >= 0 && cols >= 0,
                            ;
                        }
                        let stride = toks * cols;
                        let mut out: Vec<u32> = Vec::new();
                        let mut r: usize = 0;
                        while r < rows
                            invariant
                                t.data@ == tt.data@,
                                tt.wf(),
                                tt.shape@.len() == 3,
                                rows == tt.shape@[0],
                                toks == tt.shape@[1],
                                cols == tt.shape@[2],
                                toks >= 1,
                                stride == toks * cols,
                                dlen == tt.data@.len(),
                                pooled_dims(tt, pooling) == Some((rows as int, cols as int)),
                                pooling == Some(Pooling::Cls),
                                0 <= r <= rows,
                                out@ == pooled_prefix(tt, pooling, r as int),
                            decreases rows - r,
                        {
                            proof {
                                lemma_pooled_row_inside(tt, pooling, r as int);
                            }
                            let start = r * stride;
                            let mut row = copy_range(&t.data, start, start + cols);
                            out.append(&mut row);
                            r += 1;
                        }
                        proof {
                            lemma_pooled_prefix_len(tt, pooling, rows as int);
                        }
                        Ok(PooledArray { rows, cols, offset: 0, data: out })
                    }
                } else {
                    Err(EmbedError::PoolingIncompatible)
                }
            },
        }
    }
}

} // verus!
