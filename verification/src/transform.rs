use vstd::prelude::*;
use vstd::arithmetic::mul::lemma_mul_inequality;
use crate::errors::EmbedError;
use crate::pooling::Pooling;
use crate::precedence::{OutputPrecedence, OutputKey, lemma_select_index_in_range};
use crate::batch::{SingleBatchOutput, spec_select_and_pool, lemma_pooled_prefix_len};
use crate::normalize::{normalize, normalize_spec, normalized_shape_of};
use crate::array::copy_range;

verus! {

/// One finished vector: the raw 32-bit patterns of its scalars.
pub type Embedding = Vec<u32>;

/// A flat buffer split into `r` rows of width `c`.
pub open spec fn rows_of(data: Seq<u32>, r: int, c: int) -> Seq<Seq<u32>> {
    Seq::new(r as nat, |i: int| data.subrange(i * c, i * c + c))
}

/// The rows that one batch contributes, before normalization.
pub open spec fn batch_rows(
    b: SingleBatchOutput,
    keys: Seq<OutputKey>,
    pooling: Option<Pooling>,
) -> Result<Seq<Seq<u32>>, EmbedError> {
    match spec_select_and_pool(b, keys, pooling) {
        Err(e) => Err(e),
        Ok((r, c, data)) => Ok(rows_of(data, r, c)),
    }
}

/// The structured aggregation's raw model: the concatenation, in batch
/// order then row order, of every batch's pooled rows; or the error of the
/// first failing batch (fail-fast, all or nothing).
pub open spec fn structured_raw(
    batches: Seq<SingleBatchOutput>,
    keys: Seq<OutputKey>,
    pooling: Option<Pooling>,
) -> Result<Seq<Seq<u32>>, EmbedError>
    decreases batches.len(),
{
    if batches.len() == 0 {
        Ok(Seq::empty())
    } else {
        match structured_raw(batches.drop_last(), keys, pooling) {
            Err(e) => Err(e),
            Ok(acc) => match batch_rows(batches.last(), keys, pooling) {
                Err(e) => Err(e),
                Ok(rs) => Ok(acc + rs),
            },
        }
    }
}

/// The flat aggregation's raw model: the same rows, together with the
/// embedding width established by the first batch (`None` while no batch
/// has been seen). A later batch whose width disagrees turns the whole
/// result into the fatal `DimensionMismatch`.
pub open spec fn flat_raw(
    batches: Seq<SingleBatchOutput>,
    keys: Seq<OutputKey>,
    pooling: Option<Pooling>,
) -> Result<(Seq<Seq<u32>>, Option<int>), EmbedError>
    decreases batches.len(),
{
    if batches.len() == 0 {
        Ok((Seq::empty(), None))
    } else {
        match flat_raw(batches.drop_last(), keys, pooling) {
            Err(e) => Err(e),
            Ok((acc, copt)) => match spec_select_and_pool(batches.last(), keys, pooling) {
                Err(e) => Err(e),
                Ok((r, c, data)) => match copt {
                    None => Ok((acc + rows_of(data, r, c), Some(c))),
                    Some(c0) => if c == c0 {
                        Ok((acc + rows_of(data, r, c), Some(c0)))
                    } else {
                        Err(EmbedError::DimensionMismatch)
                    },
                },
            },
        }
    }
}

/// The item count over all batches, counting a failing batch as zero.
pub open spec fn total_rows(
    batches: Seq<SingleBatchOutput>,
    keys: Seq<OutputKey>,
    pooling: Option<Pooling>,
) -> int
    decreases batches.len(),
{
    if batches.len() == 0 {
        0
    } else {
        total_rows(batches.drop_last(), keys, pooling) + match spec_select_and_pool(
            batches.last(),
            keys,
            pooling,
        ) {
            Ok(t3) => t3.0,
            Err(_) => 0,
        }
    }
}

/// A successful selection and pooling yields non-negative dimensions and
/// exactly `items * width` scalars.
pub proof fn lemma_select_and_pool_ok_len(
    b: SingleBatchOutput,
    keys: Seq<OutputKey>,
    pooling: Option<Pooling>,
)
    requires
        b.wf(),
        spec_select_and_pool(b, keys, pooling) is Ok,
    ensures
        ({
            let (r, c, data) = spec_select_and_pool(b, keys, pooling).unwrap();
            &&& r >= 0
            &&& c >= 0
            &&& data.len() == r * c
            &&& rows_of(data, r, c).len() == r
            &&& forall|k: int| 0 <= k < r ==> (#[trigger] rows_of(data, r, c)[k]).len() == c
        }),
{
    let (r, c, data) = spec_select_and_pool(b, keys, pooling).unwrap();
    lemma_select_index_in_range(keys, b.names());
    let i = crate::precedence::spec_select(keys, b.names()).unwrap();
    let t = b.outputs@[i].1;
    assert(t.wf());
    lemma_pooled_prefix_len(t, pooling, r);
    assert forall|k: int| 0 <= k < r implies (#[trigger] rows_of(data, r, c)[k]).len() == c by {
        lemma_mul_inequality(k + 1, r, c);
        assert((k + 1) * c == k * c + c) by (nonlinear_arith);
        assert(k * c >= 0) by (nonlinear_arith)
            requires
                k >= 0,
                c >= 0,
        ;
    }
}

/// An erring prefix decides the whole structured aggregation.
pub proof fn lemma_structured_prefix(
    batches: Seq<SingleBatchOutput>,
    keys: Seq<OutputKey>,
    pooling: Option<Pooling>,
    l: int,
)
    requires
        0 <= l <= batches.len(),
        structured_raw(batches.take(l), keys, pooling) is Err,
    ensures
        structured_raw(batches, keys, pooling) == structured_raw(batches.take(l), keys, pooling),
    decreases batches.len() - l,
{
    if l == batches.len() {
        assert(batches.take(l) =~= batches);
    } else {
        assert(batches.take(l + 1).drop_last() =~= batches.take(l));
        lemma_structured_prefix(batches, keys, pooling, l + 1);
    }
}

/// An erring prefix decides the whole flat aggregation.
pub proof fn lemma_flat_prefix(
    batches: Seq<SingleBatchOutput>,
    keys: Seq<OutputKey>,
    pooling: Option<Pooling>,
    l: int,
)
    requires
        0 <= l <= batches.len(),
        flat_raw(batches.take(l), keys, pooling) is Err,
    ensures
        flat_raw(batches, keys, pooling) == flat_raw(batches.take(l), keys, pooling),
    decreases batches.len() - l,
{
    if l == batches.len() {
        assert(batches.take(l) =~= batches);
    } else {
        assert(batches.take(l + 1).drop_last() =~= batches.take(l));
        lemma_flat_prefix(batches, keys, pooling, l + 1);
    }
}

/// Every prefix contributes at most the whole list's item count.
pub proof fn lemma_total_rows_monotone(
    batches: Seq<SingleBatchOutput>,
    keys: Seq<OutputKey>,
    pooling: Option<Pooling>,
    l: int,
)
    requires
        0 <= l <= batches.len(),
    ensures
        total_rows(batches.take(l), keys, pooling) <= total_rows(batches, keys, pooling),
    decreases batches.len() - l,
{
    if l == batches.len() {
        assert(batches.take(l) =~= batches);
    } else {
        assert(batches.take(l + 1).drop_last() =~= batches.take(l));
        assert(batches.take(l + 1).last() == batches[l]);
        lemma_total_rows_monotone(batches, keys, pooling, l + 1);
    }
}

/// The embedding transformer configured for per-item output: selection
/// precedence and pooling strategy are fixed at construction and reused
/// across invocations.
pub struct StructuredTransformer {
    /// The output selection policy.
    pub precedence: OutputPrecedence,
    /// The pooling strategy, or `None` for tensors already pooled.
    pub pooling: Option<Pooling>,
}

/// Build the transformer that turns batch outputs into one normalized
/// embedding per input item, using the provided output precedence.
pub fn transformer_with_precedence(
    output_precedence: OutputPrecedence,
    pooling: Option<Pooling>,
) -> (t: StructuredTransformer)
    ensures
        t.precedence == output_precedence,
        t.pooling == pooling,
{
    StructuredTransformer { precedence: output_precedence, pooling }
}

impl StructuredTransformer {
    /// Turn the batch outputs into one embedding per item, in batch order
    /// then row order, each row scaled to unit length; or the error of the
    /// first failing batch, with no partial result. Each returned embedding
    /// is exactly `normalize_spec` of its selected, pooled row.
    pub fn run(&self, batches: &Vec<SingleBatchOutput>) -> (r: Result<Vec<Embedding>, EmbedError>)
        requires
            forall|i: int| 0 <= i < batches@.len() ==> (#[trigger] batches@[i]).wf(),
        ensures
            ({
                let model = structured_raw(batches@, self.precedence@, self.pooling);
                match r {
                    Ok(embs) => model matches Ok(rows) && embs@.len() == rows.len()
                        && (forall|k: int| 0 <= k < rows.len()
                            ==> (#[trigger] embs@[k])@ == normalize_spec(rows[k]))
                        && (forall|k: int| 0 <= k < rows.len()
                            ==> normalized_shape_of((#[trigger] embs@[k])@, rows[k])),
                    Err(e) => model == Err::<Seq<Seq<u32>>, EmbedError>(e),
                }
            }),
    {
        let ghost keys = self.precedence@;
        let nb = batches.len();
        let mut result: Vec<Embedding> = Vec::new();
        let mut bi: usize = 0;
        while bi < nb
            invariant
                nb == batches@.len(),
                0 <= bi <= nb,
                keys == self.precedence@,
                forall|i: int| 0 <= i < nb ==> (#[trigger] batches@[i]).wf(),
                structured_raw(batches@.take(bi as int), keys, self.pooling) matches Ok(rows)
                    && result@.len() == rows.len()
                    && (forall|k: int| 0 <= k < rows.len()
                        ==> (#[trigger] result@[k])@ == normalize_spec(rows[k]))
                    && (forall|k: int| 0 <= k < rows.len()
                        ==> normalized_shape_of((#[trigger] result@[k])@, rows[k])),
            decreases nb - bi,
        {
            let ghost prefix = structured_raw(batches@.take(bi as int), keys, self.pooling).unwrap();
            proof {
                assert(batches@.take(bi + 1).drop_last() =~= batches@.take(bi as int));
                assert(batches@.take(bi + 1).last() == batches@[bi as int]);
            }
            let arr = match batches[bi].select_and_pool_output(&self.precedence, self.pooling) {
                Ok(a) => a,
                Err(e) => {
                    proof {
                        lemma_structured_prefix(batches@, keys, self.pooling, bi + 1);
                    }
                    return Err(e);
                },
            };
            let (rws, cls) = arr.dim();
            let ghost brows = batch_rows(batches@[bi as int], keys, self.pooling).unwrap();
            proof {
                lemma_select_and_pool_ok_len(batches@[bi as int], keys, self.pooling);
                assert(brows =~= rows_of(arr.data@, rws as int, cls as int));
            }
            let mut ri: usize = 0;
            while ri < rws
                invariant
                    0 <= ri <= rws,
                    arr.wf(),
                    arr.offset == 0,
                    rws == arr.rows,
                    cls == arr.cols,
                    brows == rows_of(arr.data@, rws as int, cls as int),
                    brows.len() == rws,
                    forall|k: int| 0 <= k < rws ==> (#[trigger] brows[k]) == arr.row_spec(k),
                    result@.len() == prefix.len() + ri,
                    forall|k: int| 0 <= k < prefix.len()
                        ==> (#[trigger] result@[k])@ == normalize_spec(prefix[k]),
                    forall|k: int| prefix.len() <= k < prefix.len() + ri
                        ==> (#[trigger] result@[k])@ == normalize_spec(brows[k - prefix.len()]),
                    forall|k: int| 0 <= k < prefix.len()
                        ==> normalized_shape_of((#[trigger] result@[k])@, prefix[k]),
                    forall|k: int| prefix.len() <= k < prefix.len() + ri
                        ==> normalized_shape_of((#[trigger] result@[k])@, brows[k - prefix.len()]),
                decreases rws - ri,
            {
                let row = arr.row(ri);
                let emb = normalize(&row);
                result.push(emb);
                ri += 1;
            }
            proof {
                assert(structured_raw(batches@.take(bi + 1), keys, self.pooling)
                    == Ok::<Seq<Seq<u32>>, EmbedError>(prefix + brows));
            }
            bi += 1;
        }
        proof {
            assert(batches@.take(nb as int) =~= batches@);
        }
        Ok(result)
    }
}

/// The embedding transformer configured for flat output: one contiguous
/// buffer of normalized rows plus its dimensions. Rows are scaled to unit
/// length exactly as in the structured mode, so the two modes agree row
/// for row.
pub struct FlatTransformer {
    /// The output selection policy.
    pub precedence: OutputPrecedence,
    /// The pooling strategy, or `None` for tensors already pooled.
    pub pooling: Option<Pooling>,
}

/// Build the transformer that turns batch outputs into one flat row-major
/// buffer of normalized embeddings, with its row and column counts.
pub fn transformer_flat(
    output_precedence: OutputPrecedence,
    pooling: Option<Pooling>,
) -> (t: FlatTransformer)
    ensures
        t.precedence == output_precedence,
        t.pooling == pooling,
{
    FlatTransformer { precedence: output_precedence, pooling }
}

impl FlatTransformer {
    /// Turn the batch outputs into one flat row-major buffer of normalized
    /// embeddings, with `(buffer, row_count, column_count)`: the column
    /// count is established by the first batch, every later batch must
    /// match it exactly, and each batch's array must be contiguous from
    /// offset zero. Ordinary failures of a batch abort the call with that
    /// batch's error; a width disagreement is the fatal
    /// `DimensionMismatch`.
    pub fn run(&self, batches: &Vec<SingleBatchOutput>) -> (r: Result<
        (Vec<u32>, usize, usize),
        EmbedError,
    >)
        requires
            forall|i: int| 0 <= i < batches@.len() ==> (#[trigger] batches@[i]).wf(),
            total_rows(batches@, self.precedence@, self.pooling) <= usize::MAX,
        ensures
            ({
                let model = flat_raw(batches@, self.precedence@, self.pooling);
                match r {
                    Ok((buf, nrows, ncols)) => model matches Ok((rows, copt))
                        && nrows == rows.len()
                        && ncols == (match copt {
                            Some(c) => c,
                            None => 0,
                        })
                        && buf@.len() == nrows * ncols
                        && (forall|k: int| 0 <= k < rows.len()
                            ==> (#[trigger] rows[k]).len() == ncols)
                        && (forall|k: int| 0 <= k < rows.len()
                            ==> #[trigger] buf@.subrange(k * ncols, k * ncols + ncols)
                                == normalize_spec(rows[k]))
                        && (forall|k: int| 0 <= k < rows.len() ==> normalized_shape_of(
                            #[trigger] buf@.subrange(k * ncols, k * ncols + ncols),
                            rows[k],
                        )),
                    Err(e) => model == Err::<(Seq<Seq<u32>>, Option<int>), EmbedError>(e),
                }
            }),
    {
        let ghost keys = self.precedence@;
        let nb = batches.len();
        let mut all: Vec<u32> = Vec::new();
        let mut nrows: usize = 0;
        let mut cols: usize = 0;
        let mut cols_set: bool = false;
        let mut bi: usize = 0;
        while bi < nb
            invariant
                nb == batches@.len(),
                0 <= bi <= nb,
                keys == self.precedence@,
                forall|i: int| 0 <= i < nb ==> (#[trigger] batches@[i]).wf(),
                total_rows(batches@, keys, self.pooling) <= usize::MAX,
                flat_raw(batches@.take(bi as int), keys, self.pooling) matches Ok(st)
                    && st.0.len() == nrows
                    && (st.1 == if cols_set {
                        Some(cols as int)
                    } else {
                        None::<int>
                    })
                    && (!cols_set ==> nrows == 0 && all@.len() == 0 && cols == 0)
                    && all@.len() == nrows * cols
                    && (forall|k: int| 0 <= k < st.0.len() ==> (#[trigger] st.0[k]).len() == cols)
                    && (forall|k: int| 0 <= k < st.0.len()
                        ==> #[trigger] all@.subrange(k * cols as int, k * cols as int + cols as int)
                            == normalize_spec(st.0[k]))
                    && (forall|k: int| 0 <= k < st.0.len() ==> normalized_shape_of(
                        #[trigger] all@.subrange(k * cols as int, k * cols as int + cols as int),
                        st.0[k],
                    )),
                nrows as int == total_rows(batches@.take(bi as int), keys, self.pooling),
            decreases nb - bi,
        {
            let ghost prefix = flat_raw(batches@.take(bi as int), keys, self.pooling).unwrap().0;
            proof {
                assert(batches@.take(bi + 1).drop_last() =~= batches@.take(bi as int));
                assert(batches@.take(bi + 1).last() == batches@[bi as int]);
            }
            let arr = match batches[bi].select_and_pool_output(&self.precedence, self.pooling) {
                Ok(a) => a,
                Err(e) => {
                    proof {
                        lemma_flat_prefix(batches@, keys, self.pooling, bi + 1);
                    }
                    return Err(e);
                },
            };
            let (rws, cls) = arr.dim();
            if !cols_set {
                cols = cls;
                cols_set = true;
            } else if cls != cols {
                // A width disagreement is a broken configuration invariant,
                // not bad input: refuse it, never truncate or pad.
                proof {
                    lemma_flat_prefix(batches@, keys, self.pooling, bi + 1);
                }
                return Err(EmbedError::DimensionMismatch);
            }
            let ghost brows = rows_of(arr.data@, rws as int, cls as int);
            proof {
                lemma_select_and_pool_ok_len(batches@[bi as int], keys, self.pooling);
                lemma_total_rows_monotone(batches@, keys, self.pooling, bi + 1);
            }
            // The pooled array must be contiguous from offset zero before
            // its raw contents may be taken over; a violation would be the
            // fatal layout error (provably impossible for arrays built by
            // selection and pooling).
            let flat = match arr.into_contiguous() {
                Ok(d) => d,
                Err(e) => {
                    proof {
                        assert(false);
                    }
                    return Err(e);
                },
            };
            let ghost all0 = all@;
            let ghost nrows0 = nrows as int;
            let flen = flat.len();
            let mut ri: usize = 0;
            while ri < rws
                invariant
                    0 <= ri <= rws,
                    flen == flat@.len(),
                    flat@.len() == rws * cls,
                    brows == rows_of(flat@, rws as int, cls as int),
                    brows.len() == rws,
                    cols == cls,
                    all0.len() == nrows0 * cols,
                    nrows0 >= 0,
                    all@.len() == all0.len() + ri * cols,
                    all@.subrange(0, all0.len() as int) == all0,
                    forall|k: int| 0 <= k < ri
                        ==> #[trigger] all@.subrange(
                            all0.len() + k * cols,
                            all0.len() + k * cols + cols,
                        ) == normalize_spec(brows[k]),
                    forall|k: int| 0 <= k < ri ==> normalized_shape_of(
                        #[trigger] all@.subrange(
                            all0.len() + k * cols,
                            all0.len() + k * cols + cols,
                        ),
                        brows[k],
                    ),
                decreases rws - ri,
            {
                proof {
                    lemma_mul_inequality(ri + 1, rws as int, cls as int);
                    assert((ri + 1) * cls == ri * cls + cls) by (nonlinear_arith);
                    assert(ri * cls >= 0) by (nonlinear_arith)
                        requires
                            ri >= 0,
                            cls >= 0,
                    ;
                }
                let start = ri * cls;
                let row = copy_range(&flat, start, start + cls);
                let mut emb = normalize(&row);
                let ghost before = all@;
                let ghost embv = emb@;
                all.append(&mut emb);
                proof {
                    assert(all@.subrange(0, before.len() as int) =~= before);
                    assert(all@.subrange(0, all0.len() as int) =~= all0);
                    assert(all@.subrange(before.len() as int, all@.len() as int) =~= embv);
                    assert((ri + 1) * cols == ri * cols + cols) by (nonlinear_arith);
                    assert forall|k: int| 0 <= k < ri implies (normalized_shape_of(
                        #[trigger] all@.subrange(
                            all0.len() + k * cols,
                            all0.len() + k * cols + cols,
                        ),
                        brows[k],
                    ) && all@.subrange(all0.len() + k * cols, all0.len() + k * cols + cols)
                        == normalize_spec(brows[k])) by {
                        lemma_mul_inequality(k + 1, ri as int, cols as int);
                        assert((k + 1) * cols == k * cols + cols) by (nonlinear_arith);
                        assert(k * cols >= 0) by (nonlinear_arith)
                            requires
                                k >= 0,
                                cols >= 0,
                        ;
                        assert(all@.subrange(all0.len() + k * cols, all0.len() + k * cols + cols)
                            =~= before.subrange(all0.len() + k * cols, all0.len() + k * cols + cols));
                    }
                    assert(all@.subrange(all0.len() + ri * cols, all0.len() + ri * cols + cols)
                        =~= embv);
                }
                ri += 1;
            }
            nrows = nrows + rws;
            proof {
                let ghost newrows = prefix + brows;
                assert((nrows0 + rws) * cols == nrows0 * cols + rws * cols) by (nonlinear_arith);
                assert(flat_raw(batches@.take(bi + 1), keys, self.pooling)
                    == Ok::<(Seq<Seq<u32>>, Option<int>), EmbedError>((newrows, Some(cols as int))));
                assert forall|k: int| 0 <= k < newrows.len() implies (normalized_shape_of(
                    #[trigger] all@.subrange(k * cols as int, k * cols as int + cols as int),
                    newrows[k],
                ) && all@.subrange(k * cols as int, k * cols as int + cols as int)
                    == normalize_spec(newrows[k])) by {
                    if k < prefix.len() {
                        lemma_mul_inequality(k + 1, prefix.len() as int, cols as int);
                        assert((k + 1) * cols == k * cols + cols) by (nonlinear_arith);
                        assert(k * cols >= 0) by (nonlinear_arith)
                            requires
                                k >= 0,
                                cols >= 0,
                        ;
                        assert(all@.subrange(k * cols as int, k * cols as int + cols as int)
                            =~= all0.subrange(k * cols as int, k * cols as int + cols as int));
                    } else {
                        let j = k - prefix.len();
                        assert((prefix.len() + j) * cols == prefix.len() * cols + j * cols)
                            by (nonlinear_arith);
                        assert(all0.len() == prefix.len() * cols) by (nonlinear_arith)
                            requires
                                all0.len() == nrows0 * cols,
                                nrows0 == prefix.len(),
                        ;
                    }
                }
            }
            bi += 1;
        }
        proof {
            assert(batches@.take(nb as int) =~= batches@);
        }
        Ok((all, nrows, cols))
    }
}

/// For every batch list whose flat aggregation succeeds, the row count is
/// the sum of the per-batch item counts, the buffer splits into that many
/// rows of the established width, and every batch selected and pooled
/// successfully with exactly that width: nothing was truncated or padded.
pub proof fn lemma_flat_shape(
    batches: Seq<SingleBatchOutput>,
    keys: Seq<OutputKey>,
    pooling: Option<Pooling>,
)
    requires
        forall|i: int| 0 <= i < batches.len() ==> (#[trigger] batches[i]).wf(),
        flat_raw(batches, keys, pooling) is Ok,
    ensures
        ({
            let (rows, copt) = flat_raw(batches, keys, pooling).unwrap();
            &&& rows.len() == total_rows(batches, keys, pooling)
            &&& (batches.len() == 0 ==> rows.len() == 0 && copt is None)
            &&& (batches.len() > 0 ==> copt is Some)
            &&& (forall|i: int| 0 <= i < batches.len()
                ==> spec_select_and_pool(#[trigger] batches[i], keys, pooling) is Ok)
            &&& (forall|i: int| 0 <= i < batches.len()
                ==> spec_select_and_pool(#[trigger] batches[i], keys, pooling).unwrap().1
                    == copt.unwrap())
            &&& (forall|k: int| 0 <= k < rows.len()
                ==> (#[trigger] rows[k]).len() == copt.unwrap())
        }),
    decreases batches.len(),
{
    if batches.len() > 0 {
        let prev = batches.drop_last();
        assert(prev =~= batches.take(batches.len() - 1));
        assert(forall|i: int| 0 <= i < prev.len() ==> (#[trigger] prev[i]).wf());
        lemma_flat_shape(prev, keys, pooling);
        lemma_select_and_pool_ok_len(batches.last(), keys, pooling);
        let (rows, copt) = flat_raw(batches, keys, pooling).unwrap();
        let (prows, pcopt) = flat_raw(prev, keys, pooling).unwrap();
        assert(forall|i: int| 0 <= i < prev.len() ==> batches[i] == prev[i]);
    }
}

/// For every batch list whose structured aggregation succeeds, every batch
/// selected and pooled successfully and there is exactly one output row
/// per input item, in batch order then row order: the result is the
/// concatenation of the per-batch row sequences.
pub proof fn lemma_structured_shape(
    batches: Seq<SingleBatchOutput>,
    keys: Seq<OutputKey>,
    pooling: Option<Pooling>,
)
    requires
        forall|i: int| 0 <= i < batches.len() ==> (#[trigger] batches[i]).wf(),
        structured_raw(batches, keys, pooling) is Ok,
    ensures
        structured_raw(batches, keys, pooling).unwrap().len()
            == total_rows(batches, keys, pooling),
        forall|i: int| 0 <= i < batches.len()
            ==> spec_select_and_pool(#[trigger] batches[i], keys, pooling) is Ok,
        batches.len() > 0 ==> structured_raw(batches, keys, pooling).unwrap()
            == structured_raw(batches.drop_last(), keys, pooling).unwrap()
                + batch_rows(batches.last(), keys, pooling).unwrap(),
    decreases batches.len(),
{
    if batches.len() > 0 {
        let prev = batches.drop_last();
        assert(forall|i: int| 0 <= i < prev.len() ==> batches[i] == prev[i]);
        lemma_structured_shape(prev, keys, pooling);
        lemma_select_and_pool_ok_len(batches.last(), keys, pooling);
    }
}

/// A batch list whose batches all select and pool successfully can only
/// end in success or in the fatal width mismatch.
pub proof fn lemma_flat_err_kind(
    batches: Seq<SingleBatchOutput>,
    keys: Seq<OutputKey>,
    pooling: Option<Pooling>,
)
    requires
        forall|i: int| 0 <= i < batches.len()
            ==> spec_select_and_pool(#[trigger] batches[i], keys, pooling) is Ok,
    ensures
        flat_raw(batches, keys, pooling) is Ok
            || flat_raw(batches, keys, pooling)
                == Err::<(Seq<Seq<u32>>, Option<int>), EmbedError>(EmbedError::DimensionMismatch),
    decreases batches.len(),
{
    if batches.len() > 0 {
        let prev = batches.drop_last();
        assert(forall|i: int| 0 <= i < prev.len() ==> batches[i] == prev[i]);
        lemma_flat_err_kind(prev, keys, pooling);
    }
}

/// Two batches of different widths are never silently coerced: if every
/// batch selects and pools successfully but one width disagrees with the
/// first batch's, the flat aggregation reports the fatal
/// `DimensionMismatch` instead of a result.
pub proof fn lemma_flat_mismatch(
    batches: Seq<SingleBatchOutput>,
    keys: Seq<OutputKey>,
    pooling: Option<Pooling>,
    i: int,
)
    requires
        forall|j: int| 0 <= j < batches.len() ==> (#[trigger] batches[j]).wf(),
        forall|j: int| 0 <= j < batches.len()
            ==> spec_select_and_pool(#[trigger] batches[j], keys, pooling) is Ok,
        0 < i < batches.len(),
        spec_select_and_pool(batches[i], keys, pooling).unwrap().1
            != spec_select_and_pool(batches[0], keys, pooling).unwrap().1,
    ensures
        flat_raw(batches, keys, pooling)
            == Err::<(Seq<Seq<u32>>, Option<int>), EmbedError>(EmbedError::DimensionMismatch),
{
    lemma_flat_err_kind(batches, keys, pooling);
    if flat_raw(batches, keys, pooling) is Ok {
        lemma_flat_shape(batches, keys, pooling);
    }
}

} // verus!
