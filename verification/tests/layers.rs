use grad::layer_shapes::{layer_output_shape, layer_params, low_rank_parts, next_shape, LayerShape};

fn conv(in_c: usize, out_c: usize, k: usize, s: usize, p: usize, causal: bool) -> LayerShape {
    LayerShape::Conv1D {
        in_channels: in_c,
        out_channels: out_c,
        kernel_size: k,
        stride: s,
        padding: p,
        causal,
    }
}

#[test]
fn convolution_lengths() {
    // (16 + 2*1 - 3) / 1 + 1 = 16
    assert_eq!(next_shape(&conv(8, 4, 3, 1, 1, false), 16, 8, 100), Some((16, 4)));
    // (16 + 0 - 4) / 2 + 1 = 7
    assert_eq!(next_shape(&conv(8, 4, 4, 2, 0, false), 16, 8, 100), Some((7, 4)));
    // causal: (16 - 1) / 3 + 1 = 6
    assert_eq!(next_shape(&conv(8, 4, 4, 3, 0, true), 16, 8, 100), Some((6, 4)));
    // a kernel wider than the padded input, or a zero stride
    assert_eq!(next_shape(&conv(8, 4, 5, 1, 0, false), 4, 8, 100), None);
    assert_eq!(next_shape(&conv(8, 4, 3, 0, 1, false), 16, 8, 100), None);
}

#[test]
fn a_stack_of_layers() {
    let specs = vec![
        conv(8, 16, 3, 1, 1, false),
        LayerShape::DepthwiseConv1D { in_channels: 16, kernel_size: 3, stride: 2, padding: 1, causal: false },
        LayerShape::Residual { layers: vec![LayerShape::ChannelScale { channels: 16 }] },
        LayerShape::LowRankPointwise { in_channels: 16, rank: 4, out_channels: 32 },
        LayerShape::Dense { output_size: 10 },
        LayerShape::WeightTying,
    ];
    // 32x8 -> 32x16 -> 16x16 -> 16x16 -> 16x32 -> 1x10 -> 1x500
    assert_eq!(layer_output_shape(&specs[..5], 32, 8, 500), Some((1, 10)));
    assert_eq!(layer_output_shape(&specs[..4], 32, 8, 500), Some((16, 32)));
    assert_eq!(layer_output_shape(&specs, 32, 8, 500), Some((1, 500)));
    assert_eq!(layer_output_shape(&[], 32, 8, 500), Some((32, 8)));
}

#[test]
fn parameter_counts() {
    assert_eq!(layer_params(&conv(8, 16, 3, 1, 1, false), 32, 8), Some((384, 16)));
    assert_eq!(layer_params(&LayerShape::Dense { output_size: 10 }, 4, 5), Some((200, 10)));
    assert_eq!(
        layer_params(&LayerShape::LowRankPointwise { in_channels: 16, rank: 4, out_channels: 32 }, 1, 16),
        Some((64 + 128, 4 + 32))
    );
    let grouped = LayerShape::GroupedConv1D {
        in_channels: 16,
        out_channels: 8,
        groups: 4,
        kernel_size: 3,
        stride: 1,
        padding: 0,
        causal: false,
    };
    assert_eq!(layer_params(&grouped, 10, 16), Some((96, 8)));
    assert_eq!(layer_params(&LayerShape::ChannelScale { channels: 7 }, 3, 7), Some((7, 7)));
    assert_eq!(layer_params(&LayerShape::Dense { output_size: 2 }, usize::MAX, 2), None);
}

#[test]
fn low_rank_parameters_part_by_part() {
    assert_eq!(low_rank_parts(16, 4, 32), Some((64, 4, 128, 32, 228)));
    assert_eq!(low_rank_parts(usize::MAX, 2, 1), None);
}
