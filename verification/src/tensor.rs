use vstd::prelude::*;

verus! {

/// The number of scalar elements a tensor of the given shape holds: the
/// product of all its dimensions (one for the empty shape).
pub open spec fn shape_product(shape: Seq<usize>) -> int
    decreases shape.len(),
{
    if shape.len() == 0 {
        1
    } else {
        shape_product(shape.drop_last()) * shape.last()
    }
}

/// A shape with a zero dimension holds no elements.
pub proof fn lemma_shape_product_zero(shape: Seq<usize>, j: int)
    requires
        0 <= j < shape.len(),
        shape[j] == 0,
    ensures
        shape_product(shape) == 0,
    decreases shape.len(),
{
    assert(shape_product(shape) == shape_product(shape.drop_last()) * shape.last());
    if j == shape.len() - 1 {
        assert(shape.last() == 0);
    } else {
        lemma_shape_product_zero(shape.drop_last(), j);
    }
}

/// With every dimension positive, the element count is positive.
pub proof fn lemma_shape_product_pos(shape: Seq<usize>)
    requires
        forall|j: int| 0 <= j < shape.len() ==> shape[j] >= 1,
    ensures
        shape_product(shape) >= 1,
    decreases shape.len(),
{
    if shape.len() > 0 {
        lemma_shape_product_pos(shape.drop_last());
        let p = shape_product(shape.drop_last());
        let s = shape.last() as int;
        assert(p * s >= 1) by (nonlinear_arith)
            requires
                p >= 1,
                s >= 1,
        ;
    }
}

/// With every dimension positive, each prefix's element count is positive
/// and no larger than the whole shape's.
pub proof fn lemma_shape_product_prefix(shape: Seq<usize>, i: int)
    requires
        0 <= i <= shape.len(),
        forall|j: int| 0 <= j < shape.len() ==> shape[j] >= 1,
    ensures
        1 <= shape_product(shape.take(i)) <= shape_product(shape),
    decreases shape.len() - i,
{
    if i == shape.len() {
        assert(shape.take(i) =~= shape);
        lemma_shape_product_pos(shape);
    } else {
        lemma_shape_product_prefix(shape, i + 1);
        assert(shape.take(i + 1).drop_last() == shape.take(i));
        assert(shape.take(i + 1).last() == shape[i]);
        let p = shape_product(shape.take(i));
        let s = shape[i] as int;
        assert(shape_product(shape.take(i + 1)) == p * s);
        assert(p >= 1 && p <= p * s) by (nonlinear_arith)
            requires
                s >= 1,
                p * s >= 1,
        ;
    }
}

/// One raw named output of an inference call: a numeric tensor of arbitrary
/// rank whose leading dimension counts the items of the batch. Scalars are
/// single-precision values held as their raw 32-bit patterns, in row-major
/// order.
#[derive(Clone, Debug)]
pub struct Tensor {
    /// The tensor's dimensions; the first one is the item count.
    pub shape: Vec<usize>,
    /// The elements, row-major.
    pub data: Vec<u32>,
}

impl Tensor {
    /// A tensor is well formed when it has at least the leading item
    /// dimension and its element count equals its shape's product.
    pub open spec fn wf(&self) -> bool {
        &&& self.shape@.len() >= 1
        &&& self.data@.len() == shape_product(self.shape@)
    }

    /// Build a tensor, checking that `data` holds exactly as many elements
    /// as `shape` announces; `None` exactly when it does not (or when the
    /// shape is empty).
    pub fn new(shape: Vec<usize>, data: Vec<u32>) -> (r: Option<Tensor>)
        ensures
            match r {
                Some(t) => t.shape@ == shape@ && t.data@ == data@ && t.wf(),
                None => !(shape@.len() >= 1 && data@.len() == shape_product(shape@)),
            },
    {
        let rank = shape.len();
        let dlen = data.len();
        proof {
            assert(dlen == data@.len());
        }
        if rank == 0 {
            return None;
        }
        // A zero dimension anywhere forces an empty tensor.
        let mut i: usize = 0;
        while i < rank
            invariant
                rank == shape@.len(),
                0 <= i <= rank,
                forall|j: int| 0 <= j < i ==> shape@[j] >= 1,
            decreases rank - i,
        {
            if shape[i] == 0 {
                proof {
                    lemma_shape_product_zero(shape@, i as int);
                }
                if data.len() == 0 {
                    return Some(Tensor { shape, data });
                } else {
                    return None;
                }
            }
            i += 1;
        }
        // All dimensions positive: multiply them up, watching for overflow.
        let mut p: usize = 1;
        let mut k: usize = 0;
        while k < rank
            invariant
                rank == shape@.len(),
                dlen == data@.len(),
                0 <= k <= rank,
                forall|j: int| 0 <= j < rank ==> shape@[j] >= 1,
                p == shape_product(shape@.take(k as int)),
            decreases rank - k,
        {
            proof {
                assert(shape@.take(k + 1).drop_last() == shape@.take(k as int));
                assert(shape@.take(k + 1).last() == shape@[k as int]);
            }
            match p.checked_mul(shape[k]) {
                Some(np) => {
                    p = np;
                },
                None => {
                    proof {
                        lemma_shape_product_prefix(shape@, k + 1);
                    }
                    return None;
                },
            }
            k += 1;
        }
        proof {
            assert(shape@.take(rank as int) == shape@);
        }
        if data.len() == p {
            Some(Tensor { shape, data })
        } else {
            None
        }
    }
}

} // verus!
