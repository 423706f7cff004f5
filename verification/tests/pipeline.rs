use embed_core::array::PooledArray;
use embed_core::batch::SingleBatchOutput;
use embed_core::errors::EmbedError;
use embed_core::normalize::normalize;
use embed_core::pooling::Pooling;
use embed_core::precedence::{OutputKey, OutputPrecedence};
use embed_core::tensor::Tensor;
use embed_core::transform::{transformer_flat, transformer_with_precedence};

fn bits(values: &[f32]) -> Vec<u32> {
    values.iter().map(|v| v.to_bits()).collect()
}

fn floats(patterns: &[u32]) -> Vec<f32> {
    patterns.iter().map(|b| f32::from_bits(*b)).collect()
}

fn close(a: f32, b: f32) -> bool {
    (a - b).abs() <= 1e-5 * b.abs().max(1.0)
}

fn assert_row_close(actual: &[f32], expected: &[f32]) {
    assert_eq!(actual.len(), expected.len());
    for (a, e) in actual.iter().zip(expected.iter()) {
        assert!(close(*a, *e), "got {:?}, wanted {:?}", actual, expected);
    }
}

fn precedence(keys: Vec<OutputKey>) -> OutputPrecedence {
    OutputPrecedence::new(keys).expect("non-empty precedence")
}

fn default_precedence() -> OutputPrecedence {
    precedence(vec![
        OutputKey::OnlyOne,
        OutputKey::ByName("text_embeds".to_string()),
        OutputKey::ByName("last_hidden_state".to_string()),
    ])
}

fn batch_rank2(name: &str, rows: usize, cols: usize, data: &[f32]) -> SingleBatchOutput {
    let t = Tensor::new(vec![rows, cols], bits(data)).expect("well-formed tensor");
    SingleBatchOutput { outputs: vec![(name.to_string(), t)] }
}

#[test]
fn structured_concrete_scenario() {
    // Batch A: 2 items, width 3, raw pooled vectors [1,0,0] and [0,3,4].
    let batch = batch_rank2("text_embeds", 2, 3, &[1.0, 0.0, 0.0, 0.0, 3.0, 4.0]);
    let t = transformer_with_precedence(default_precedence(), None);
    let embs = t.run(&vec![batch]).expect("aggregation succeeds");
    assert_eq!(embs.len(), 2);
    assert_row_close(&floats(&embs[0]), &[1.0, 0.0, 0.0]);
    assert_row_close(&floats(&embs[1]), &[0.0, 0.6, 0.8]);
}

#[test]
fn flat_concrete_scenario() {
    let batch = batch_rank2("text_embeds", 2, 3, &[1.0, 0.0, 0.0, 0.0, 3.0, 4.0]);
    let t = transformer_flat(default_precedence(), None);
    let (buf, rows, cols) = t.run(&vec![batch]).expect("aggregation succeeds");
    assert_eq!(rows, 2);
    assert_eq!(cols, 3);
    assert_eq!(buf.len(), 6);
    assert_row_close(&floats(&buf), &[1.0, 0.0, 0.0, 0.0, 0.6, 0.8]);
}

#[test]
fn flat_counts_over_many_batches() {
    // Consistent width across batches: row count is the sum of per-batch
    // item counts and the buffer holds exactly rows * cols scalars.
    let b1 = batch_rank2("text_embeds", 2, 2, &[1.0, 0.0, 0.0, 2.0]);
    let b2 = batch_rank2("text_embeds", 3, 2, &[3.0, 0.0, 0.0, 4.0, 5.0, 0.0]);
    let b3 = batch_rank2("text_embeds", 1, 2, &[0.0, 6.0]);
    let t = transformer_flat(default_precedence(), None);
    let (buf, rows, cols) = t.run(&vec![b1, b2, b3]).expect("aggregation succeeds");
    assert_eq!(rows, 2 + 3 + 1);
    assert_eq!(cols, 2);
    assert_eq!(buf.len(), rows * cols);
    let f = floats(&buf);
    assert_row_close(&f[0..2], &[1.0, 0.0]);
    assert_row_close(&f[10..12], &[0.0, 1.0]);
}

#[test]
fn flat_width_mismatch_is_fatal() {
    // Two batches with differing widths must not be silently truncated or
    // padded: the fatal mismatch is signalled instead.
    let b1 = batch_rank2("text_embeds", 1, 3, &[1.0, 0.0, 0.0]);
    let b2 = batch_rank2("text_embeds", 1, 2, &[0.0, 1.0]);
    let t = transformer_flat(default_precedence(), None);
    let err = t.run(&vec![b1, b2]).expect_err("widths disagree");
    assert_eq!(err, EmbedError::DimensionMismatch);
    assert!(err.is_fatal());
}

#[test]
fn aggregation_is_fail_fast() {
    let good = batch_rank2("text_embeds", 1, 2, &[1.0, 0.0]);
    let bad = SingleBatchOutput {
        outputs: vec![
            ("foo".to_string(), Tensor::new(vec![1, 2], bits(&[1.0, 2.0])).unwrap()),
            ("bar".to_string(), Tensor::new(vec![1, 2], bits(&[3.0, 4.0])).unwrap()),
        ],
    };
    let t = transformer_with_precedence(default_precedence(), None);
    assert_eq!(t.run(&vec![good, bad]).expect_err("no partial result"), EmbedError::SelectionFailure);
}

#[test]
fn empty_batch_list() {
    let ts = transformer_with_precedence(default_precedence(), None);
    assert_eq!(ts.run(&Vec::new()).expect("empty is fine").len(), 0);
    let tf = transformer_flat(default_precedence(), None);
    let (buf, rows, cols) = tf.run(&Vec::new()).expect("empty is fine");
    assert!(buf.is_empty());
    assert_eq!((rows, cols), (0, 0));
}

#[test]
fn only_one_rule_reaches_lone_unknown_output() {
    // A batch exposing exactly one output named "foo" is aggregated via the
    // OnlyOne rule even though no ByName key mentions it.
    let batch = batch_rank2("foo", 1, 2, &[3.0, 4.0]);
    let t = transformer_with_precedence(default_precedence(), None);
    let embs = t.run(&vec![batch]).expect("OnlyOne applies");
    assert_row_close(&floats(&embs[0]), &[0.6, 0.8]);
}

#[test]
fn unpooled_rank3_is_pooling_incompatible() {
    // Without a pooling strategy the selected tensor must already be rank 2.
    let t3 = Tensor::new(vec![1, 2, 2], bits(&[1.0, 0.0, 0.0, 1.0])).unwrap();
    let batch = SingleBatchOutput { outputs: vec![("text_embeds".to_string(), t3)] };
    let t = transformer_with_precedence(default_precedence(), None);
    assert_eq!(t.run(&vec![batch]).expect_err("rank 3 needs pooling"), EmbedError::PoolingIncompatible);
}

#[test]
fn cls_pooling_takes_first_token() {
    // 1 item, 2 tokens, width 2: class-token pooling keeps token 0.
    let t3 = Tensor::new(vec![1, 2, 2], bits(&[3.0, 4.0, 9.0, 9.0])).unwrap();
    let batch = SingleBatchOutput { outputs: vec![("text_embeds".to_string(), t3)] };
    let t = transformer_with_precedence(default_precedence(), Some(Pooling::Cls));
    let embs = t.run(&vec![batch]).expect("pooling applies");
    assert_eq!(embs.len(), 1);
    assert_row_close(&floats(&embs[0]), &[0.6, 0.8]);
}

#[test]
fn cls_pooling_needs_rank3_with_tokens() {
    let t2 = Tensor::new(vec![1, 2], bits(&[1.0, 0.0])).unwrap();
    let batch = SingleBatchOutput { outputs: vec![("text_embeds".to_string(), t2)] };
    let t = transformer_with_precedence(default_precedence(), Some(Pooling::Cls));
    assert_eq!(t.run(&vec![batch]).expect_err("rank 2 cannot be pooled"), EmbedError::PoolingIncompatible);

    let empty_axis = Tensor::new(vec![2, 0, 3], Vec::new()).unwrap();
    let batch = SingleBatchOutput { outputs: vec![("text_embeds".to_string(), empty_axis)] };
    assert_eq!(t.run(&vec![batch]).expect_err("no token to keep"), EmbedError::PoolingIncompatible);
}

#[test]
fn normalize_unit_norm_and_idempotence() {
    let v = bits(&[2.0, -1.0, 0.5, 3.0]);
    let once = normalize(&v);
    let f1 = floats(&once);
    let norm: f32 = f1.iter().map(|x| x * x).sum::<f32>().sqrt();
    assert!(close(norm, 1.0), "norm was {}", norm);
    // Normalizing an already-unit vector changes nothing measurable.
    let twice = normalize(&once);
    assert_row_close(&floats(&twice), &f1);
}

#[test]
fn normalize_keeps_zero_row_and_signs() {
    let zeros = bits(&[0.0, -0.0, 0.0]);
    assert_eq!(normalize(&zeros), zeros);

    let mixed = bits(&[-3.0, 0.0, 4.0]);
    let out = floats(&normalize(&mixed));
    assert_row_close(&out, &[-0.6, 0.0, 0.8]);
    assert!(out[0].is_sign_negative());
    // The embedded zero passes through bit for bit.
    assert_eq!(normalize(&mixed)[1], 0.0f32.to_bits());
}

#[test]
fn normalize_handles_extreme_magnitudes() {
    let tiny = bits(&[1.0e-30, 0.0]);
    assert_row_close(&floats(&normalize(&tiny)), &[1.0, 0.0]);
    let huge = bits(&[0.0, -3.0e30, 4.0e30]);
    assert_row_close(&floats(&normalize(&huge)), &[0.0, -0.6, 0.8]);
}

#[test]
fn tensor_rejects_wrong_element_counts() {
    assert!(Tensor::new(vec![2, 3], bits(&[1.0; 6])).is_some());
    assert!(Tensor::new(vec![2, 3], bits(&[1.0; 5])).is_none());
    assert!(Tensor::new(Vec::new(), Vec::new()).is_none());
    assert!(Tensor::new(vec![2, 0, 3], Vec::new()).is_some());
    assert!(Tensor::new(vec![2, 0, 3], bits(&[1.0])).is_none());
}

#[test]
fn array_layout_violation_is_reported() {
    // A view that does not start at offset zero must be refused, not
    // silently compacted.
    let data = bits(&[9.0, 1.0, 2.0]);
    let arr = PooledArray::with_offset(1, 2, 1, data).expect("view fits");
    assert_eq!(arr.dim(), (1, 2));
    assert_eq!(arr.into_contiguous().expect_err("offset is not zero"), EmbedError::LayoutViolation);

    let ok = PooledArray::new(1, 2, bits(&[1.0, 2.0])).expect("exact fit");
    assert_eq!(ok.into_contiguous().expect("contiguous"), bits(&[1.0, 2.0]));
    assert!(PooledArray::new(1, 2, bits(&[1.0])).is_none());
}

#[test]
fn array_rows_are_read_in_order() {
    let arr = PooledArray::new(2, 2, bits(&[1.0, 2.0, 3.0, 4.0])).expect("exact fit");
    assert_eq!(floats(&arr.row(0)), vec![1.0, 2.0]);
    assert_eq!(floats(&arr.row(1)), vec![3.0, 4.0]);
}

#[test]
fn duplicate_names_first_occurrence_wins() {
    let t1 = Tensor::new(vec![1, 2], bits(&[3.0, 4.0])).unwrap();
    let t2 = Tensor::new(vec![1, 2], bits(&[9.0, 9.0])).unwrap();
    let batch = SingleBatchOutput {
        outputs: vec![
            ("text_embeds".to_string(), t1),
            ("text_embeds".to_string(), t2),
        ],
    };
    let t = transformer_with_precedence(default_precedence(), None);
    let embs = t.run(&vec![batch]).expect("first entry wins");
    assert_row_close(&floats(&embs[0]), &[0.6, 0.8]);
}

#[test]
fn structured_preserves_batch_then_row_order() {
    let b1 = batch_rank2("text_embeds", 2, 2, &[1.0, 0.0, 0.0, 2.0]);
    let b2 = batch_rank2("text_embeds", 1, 2, &[0.0, -5.0]);
    let t = transformer_with_precedence(default_precedence(), None);
    let embs = t.run(&vec![b1, b2]).expect("aggregation succeeds");
    assert_eq!(embs.len(), 3);
    assert_row_close(&floats(&embs[0]), &[1.0, 0.0]);
    assert_row_close(&floats(&embs[1]), &[0.0, 1.0]);
    assert_row_close(&floats(&embs[2]), &[0.0, -1.0]);
}

#[test]
fn normalize_matches_scalar_arithmetic() {
    let vals: Vec<f32> = vec![0.3, -7.25, 12.5, 0.001, -123.456, 2.5e-3, 9.9e4];
    let out = floats(&normalize(&bits(&vals)));
    let norm = vals.iter().map(|x| (*x as f64) * (*x as f64)).sum::<f64>().sqrt();
    assert_eq!(out.len(), vals.len());
    for (o, v) in out.iter().zip(vals.iter()) {
        let expect = (*v as f64 / norm) as f32;
        assert!(close(*o, expect), "got {}, wanted {}", o, expect);
    }
}

#[test]
fn flat_agrees_with_structured_row_for_row() {
    // The two aggregation modes normalize identically, so the flat buffer
    // is, bit for bit, the concatenation of the structured embeddings.
    let make = || {
        vec![
            batch_rank2("text_embeds", 2, 2, &[1.5, -2.25, 0.0, 7.0]),
            batch_rank2("text_embeds", 1, 2, &[-0.125, 3.75]),
        ]
    };
    let ts = transformer_with_precedence(default_precedence(), None);
    let embs = ts.run(&make()).expect("structured succeeds");
    let tf = transformer_flat(default_precedence(), None);
    let (buf, rows, cols) = tf.run(&make()).expect("flat succeeds");
    assert_eq!(rows, embs.len());
    let concat: Vec<u32> = embs.iter().flat_map(|e| e.iter().copied()).collect();
    assert_eq!(buf, concat);
    assert_eq!(cols, 2);
}
