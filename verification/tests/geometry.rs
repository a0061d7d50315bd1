use grad::backwards::make_conv_positions;
use grad::conv1d_backward;
use grad::depthwise_backward;
use grad::embeddings::Embeddings;

#[test]
fn conv_positions_with_padding() {
    // 3 outputs, kernel 3, stride 1, padding 1
    let p = make_conv_positions(3, 3, 1, 1, false);
    assert_eq!(p, vec![-1, 0, 1, 0, 1, 2, 1, 2, 3]);
}

#[test]
fn causal_conv_positions_look_back() {
    let p = make_conv_positions(2, 2, 2, 0, true);
    assert_eq!(p, vec![-1, 0, 1, 2]);
}

#[test]
fn kernel_spans_clip_to_the_input() {
    let s = conv1d_backward::make_span(0, 4, 3, 1, 1, false);
    assert_eq!((s.origin, s.k_start, s.k_end), (-1, 1, 3));
    let s = conv1d_backward::make_span(3, 4, 3, 1, 1, false);
    assert_eq!((s.origin, s.k_start, s.k_end), (2, 0, 2));
    let spans = conv1d_backward::build_spans(4, 4, 3, 1, 1, false);
    assert_eq!(spans.len(), 4);
    assert_eq!((spans[1].origin, spans[1].k_start, spans[1].k_end), (0, 0, 3));
}

#[test]
fn depthwise_spans_match_kernel_spans() {
    let s = depthwise_backward::make_span(0, 5, 3, 2, 0, true);
    assert_eq!((s.origin, s.k_start, s.k_end), (-2, 2, 3));
    let spans = depthwise_backward::build_spans(5, 3, 3, 2, 0, true);
    assert_eq!(spans.len(), 3);
    assert_eq!((spans[2].origin, spans[2].k_start, spans[2].k_end), (2, 0, 3));
}

#[test]
fn embedding_table_placement() {
    let e = Embeddings::new(10, 50, 8);
    assert_eq!(e.embedding_dim(), 8);
    assert_eq!(e.vocab_size(), 50);
    assert_eq!(e.parameter_count(), 400);
    let r = e.parameter_range();
    assert_eq!((r.start, r.len), (10, 400));
}
