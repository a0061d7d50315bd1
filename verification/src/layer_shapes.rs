//! The shape arithmetic of a stack of layers: what sequence length and
//! channel count each layer hands on, and how many weights and biases it
//! holds.
use vstd::prelude::*;

verus! {

/// The shape-relevant fields of one layer.
pub enum LayerShape {
    Dense { output_size: usize },
    Conv1D {
        in_channels: usize,
        out_channels: usize,
        kernel_size: usize,
        stride: usize,
        padding: usize,
        causal: bool,
    },
    DepthwiseConv1D {
        in_channels: usize,
        kernel_size: usize,
        stride: usize,
        padding: usize,
        causal: bool,
    },
    GroupedConv1D {
        in_channels: usize,
        out_channels: usize,
        groups: usize,
        kernel_size: usize,
        stride: usize,
        padding: usize,
        causal: bool,
    },
    LowRankPointwise { in_channels: usize, rank: usize, out_channels: usize },
    ChannelScale { channels: usize },
    /// A block whose output is added back to its input, so it keeps the shape.
    Residual { layers: Vec<LayerShape> },
    WeightTying,
}

/// Output length of a convolution over `len` positions: with `causal`, one
/// output per `stride` positions; otherwise over the input padded by
/// `padding` on each side. `None` where the arithmetic leaves `usize` or the
/// kernel is wider than the padded input.
pub open spec fn conv_len(len: usize, kernel: usize, stride: usize, padding: usize, causal: bool) -> Option<
    usize,
> {
    if stride == 0 {
        None
    } else if causal {
        if len == 0 {
            None
        } else {
            Some(((len - 1) / (stride as int) + 1) as usize)
        }
    } else if len + 2 * padding > usize::MAX || len + 2 * padding < kernel || (len + 2 * padding
        - kernel) / (stride as int) + 1 > usize::MAX {
        None
    } else {
        Some(((len + 2 * padding - kernel) / (stride as int) + 1) as usize)
    }
}

/// The (sequence length, channels) that `layer` hands on when it gets `len`
/// positions of `ch` channels; `None` where that arithmetic fails.
pub open spec fn step_shape(layer: LayerShape, len: usize, ch: usize, vocab_size: usize) -> Option<
    (usize, usize),
> {
    match layer {
        LayerShape::Dense { output_size } => Some((1usize, output_size)),
        LayerShape::Conv1D { out_channels, kernel_size, stride, padding, causal, .. } => {
            match conv_len(len, kernel_size, stride, padding, causal) {
                Some(l) => Some((l, out_channels)),
                None => None,
            }
        },
        LayerShape::DepthwiseConv1D { in_channels, kernel_size, stride, padding, causal } => {
            match conv_len(len, kernel_size, stride, padding, causal) {
                Some(l) => Some((l, in_channels)),
                None => None,
            }
        },
        LayerShape::GroupedConv1D { out_channels, kernel_size, stride, padding, causal, .. } => {
            match conv_len(len, kernel_size, stride, padding, causal) {
                Some(l) => Some((l, out_channels)),
                None => None,
            }
        },
        LayerShape::LowRankPointwise { out_channels, .. } => Some((len, out_channels)),
        LayerShape::ChannelScale { channels } => Some((len, channels)),
        LayerShape::Residual { .. } => Some((len, ch)),
        LayerShape::WeightTying => Some((1usize, vocab_size)),
    }
}

/// The shape after every layer of `specs` in turn.
pub open spec fn shape_after(specs: Seq<LayerShape>, len: usize, ch: usize, vocab_size: usize) -> Option<
    (usize, usize),
>
    decreases specs.len(),
{
    if specs.len() == 0 {
        Some((len, ch))
    } else {
        match step_shape(specs[0], len, ch, vocab_size) {
            Some((l, c)) => shape_after(specs.drop_first(), l, c, vocab_size),
            None => None,
        }
    }
}

/// `a * b * c` computed left to right, when each step fits in `usize`.
pub open spec fn product3(a: int, b: int, c: int) -> Option<usize> {
    if a * b <= usize::MAX && a * b * c <= usize::MAX {
        Some((a * b * c) as usize)
    } else {
        None
    }
}

/// The weights and biases of `layer` when it gets `len` positions of `ch`
/// channels (scales count as weights; for a low-rank layer, both projections
/// together); `None` where a count, taken in the order the layer's formula
/// reads, leaves `usize`, or the groups of a grouped convolution are zero.
pub open spec fn layer_params_spec(layer: LayerShape, len: usize, ch: usize) -> Option<(usize, usize)> {
    match layer {
        LayerShape::Dense { output_size } => match product3(len as int, ch as int, output_size as int) {
            Some(w) => Some((w, output_size)),
            None => None,
        },
        LayerShape::Conv1D { in_channels, out_channels, kernel_size, .. } => match product3(
            out_channels as int,
            in_channels as int,
            kernel_size as int,
        ) {
            Some(w) => Some((w, out_channels)),
            None => None,
        },
        LayerShape::DepthwiseConv1D { in_channels, kernel_size, .. } => match product3(
            in_channels as int,
            kernel_size as int,
            1,
        ) {
            Some(w) => Some((w, in_channels)),
            None => None,
        },
        LayerShape::GroupedConv1D { in_channels, out_channels, groups, kernel_size, .. } => {
            if groups == 0 {
                None
            } else {
                match product3(out_channels as int, (in_channels / groups) as int, kernel_size as int) {
                    Some(w) => Some((w, out_channels)),
                    None => None,
                }
            }
        },
        LayerShape::LowRankPointwise { in_channels, rank, out_channels } => {
            let fw = in_channels * rank;
            let sw = rank * out_channels;
            if fw <= usize::MAX && sw <= usize::MAX && fw + rank + sw + out_channels <= usize::MAX {
                Some(((fw + sw) as usize, (rank + out_channels) as usize))
            } else {
                None
            }
        },
        LayerShape::ChannelScale { channels } => Some((channels, channels)),
        LayerShape::Residual { .. } => Some((0usize, 0usize)),
        LayerShape::WeightTying => Some((0usize, 0usize)),
    }
}

/// What a convolution with kernel `k`, stride `st` and padding `p` hands on,
/// stated without its formula: `Some(l)` means `l` positions, the largest
/// count for which every output position's window (`st` positions apart)
/// still starts inside the input (causal, with `k - 1` positions padded on
/// the left) or fits inside the input padded by `p` on both sides.
pub open spec fn conv_length_fits(len: int, k: int, st: int, p: int, causal: bool, l: int) -> bool {
    &&& st > 0
    &&& l >= 1
    &&& if causal {
        (l - 1) * st < len <= l * st
    } else {
        (l - 1) * st + k <= len + 2 * p < l * st + k
    }
}

/// Law: the length a convolution hands on is the one `conv_length_fits`
/// describes, and there is one whenever the stride is positive and the
/// input is long enough (and, uncausally, the padded input and the count fit
/// in `usize`).
pub proof fn lemma_conv_len_windows(len: usize, k: usize, st: usize, p: usize, causal: bool)
    ensures
        conv_len(len, k, st, p, causal) matches Some(l) ==> conv_length_fits(
            len as int,
            k as int,
            st as int,
            p as int,
            causal,
            l as int,
        ),
        st > 0 && (if causal {
            len > 0
        } else {
            k <= len + 2 * p <= usize::MAX && len + 2 * p - k < usize::MAX
        }) ==> conv_len(len, k, st, p, causal) is Some,
{
    if st > 0 {
        if causal {
            if len > 0 {
                let x = len - 1;
                let q = x / (st as int);
                vstd::arithmetic::div_mod::lemma_fundamental_div_mod(x, st as int);
                let l = q + 1;
                assert((l - 1) * st < len <= l * st) by (nonlinear_arith)
                    requires
                        x == st * q + x % (st as int),
                        0 <= x % (st as int) < st,
                        l == q + 1,
                        x == len - 1,
                ;
                assert(0 <= q <= x) by {
                    vstd::arithmetic::div_mod::lemma_div_pos_is_pos(x, st as int);
                    vstd::arithmetic::div_mod::lemma_div_is_ordered_by_denominator(x, 1, st as int);
                }
            }
        } else if k <= len + 2 * p {
            let x = len + 2 * p - k;
            let q = x / (st as int);
            vstd::arithmetic::div_mod::lemma_fundamental_div_mod(x, st as int);
            let l = q + 1;
            assert((l - 1) * st + k <= len + 2 * p < l * st + k) by (nonlinear_arith)
                requires
                    x == st * q + x % (st as int),
                    0 <= x % (st as int) < st,
                    l == q + 1,
                    x == len + 2 * p - k,
            ;
            assert(0 <= q <= x) by {
                vstd::arithmetic::div_mod::lemma_div_pos_is_pos(x, st as int);
                vstd::arithmetic::div_mod::lemma_div_is_ordered_by_denominator(x, 1, st as int);
            }
        }
    }
}

/// Law: the channels each kind of layer hands on. A convolution, full or
/// grouped, and a low-rank layer hand on their output channels; a depthwise
/// convolution keeps its input channels; a dense layer hands on one position
/// of `output_size` values; a residual block keeps the shape it gets; weight
/// tying hands on one position of a score per vocabulary entry. A convolution
/// hands on the length `conv_length_fits` describes.
pub proof fn lemma_layer_hands_on(layer: LayerShape, len: usize, ch: usize, vocab_size: usize)
    ensures
        step_shape(layer, len, ch, vocab_size) matches Some((l, c)) ==> {
            &&& layer matches LayerShape::Conv1D { out_channels, kernel_size, stride, padding, causal, .. }
                ==> c == out_channels && conv_length_fits(len as int, kernel_size as int, stride as int, padding as int, causal, l as int)
            &&& layer matches LayerShape::GroupedConv1D { out_channels, kernel_size, stride, padding, causal, .. }
                ==> c == out_channels && conv_length_fits(len as int, kernel_size as int, stride as int, padding as int, causal, l as int)
            &&& layer matches LayerShape::DepthwiseConv1D { in_channels, kernel_size, stride, padding, causal }
                ==> c == in_channels && conv_length_fits(len as int, kernel_size as int, stride as int, padding as int, causal, l as int)
            &&& layer matches LayerShape::Dense { output_size } ==> l == 1 && c == output_size
            &&& layer matches LayerShape::LowRankPointwise { out_channels, .. } ==> l == len && c == out_channels
            &&& layer matches LayerShape::ChannelScale { channels } ==> l == len && c == channels
            &&& layer is Residual ==> l == len && c == ch
            &&& layer is WeightTying ==> l == 1 && c == vocab_size
        },
        !(layer is Conv1D || layer is GroupedConv1D || layer is DepthwiseConv1D) ==> step_shape(layer, len, ch, vocab_size) is Some,
{
    match layer {
        LayerShape::Conv1D { kernel_size, stride, padding, causal, .. } => {
            lemma_conv_len_windows(len, kernel_size, stride, padding, causal);
        },
        LayerShape::GroupedConv1D { kernel_size, stride, padding, causal, .. } => {
            lemma_conv_len_windows(len, kernel_size, stride, padding, causal);
        },
        LayerShape::DepthwiseConv1D { kernel_size, stride, padding, causal, .. } => {
            lemma_conv_len_windows(len, kernel_size, stride, padding, causal);
        },
        _ => {},
    }
}

/// Law: how many weights and biases each kind of layer holds. A depthwise
/// convolution has one kernel per channel (`in_channels * kernel_size`
/// weights, a bias per channel); a full convolution one kernel per pair of
/// output and input channel; a grouped one sees `in_channels / groups` input
/// channels per output channel; a dense layer connects all `len * ch` inputs
/// to each output; a low-rank layer holds both projections; a channel scale a
/// scale and a bias per channel; residual blocks and weight tying hold none
/// of their own. Each count is there whenever it fits in `usize`.
pub proof fn lemma_layer_weights(layer: LayerShape, len: usize, ch: usize)
    ensures
        layer matches LayerShape::DepthwiseConv1D { in_channels, kernel_size, .. } ==> (
        in_channels * kernel_size <= usize::MAX <==> layer_params_spec(layer, len, ch) is Some) && (
        layer_params_spec(layer, len, ch) matches Some((w, bias)) ==> w == in_channels * kernel_size
            && bias == in_channels),
        layer matches LayerShape::Conv1D { in_channels, out_channels, kernel_size, .. } ==> (
        out_channels * in_channels <= usize::MAX && out_channels * in_channels * kernel_size
            <= usize::MAX ==> layer_params_spec(layer, len, ch) is Some) && (layer_params_spec(
            layer,
            len,
            ch,
        ) matches Some((w, bias)) ==> w == out_channels * in_channels * kernel_size && bias
            == out_channels),
        layer matches LayerShape::GroupedConv1D { in_channels, out_channels, groups, kernel_size, .. }
            ==> (groups > 0 && out_channels * (in_channels / groups) <= usize::MAX && out_channels
            * (in_channels / groups) * kernel_size <= usize::MAX ==> layer_params_spec(layer, len, ch) is Some)
            && (layer_params_spec(layer, len, ch) matches Some((w, bias)) ==> groups > 0 && w
            == out_channels * (in_channels / groups) * kernel_size && bias == out_channels),
        layer matches LayerShape::Dense { output_size } ==> (len * ch <= usize::MAX && len * ch
            * output_size <= usize::MAX ==> layer_params_spec(layer, len, ch) is Some) && (
        layer_params_spec(layer, len, ch) matches Some((w, bias)) ==> w == len * ch * output_size
            && bias == output_size),
        layer matches LayerShape::LowRankPointwise { in_channels, rank, out_channels } ==> (
        layer_params_spec(layer, len, ch) matches Some((w, bias)) ==> w == in_channels * rank + rank
            * out_channels && bias == rank + out_channels),
        layer matches LayerShape::ChannelScale { channels } ==> layer_params_spec(layer, len, ch)
            == Some((channels, channels)),
        (layer is Residual || layer is WeightTying) ==> layer_params_spec(layer, len, ch) == Some(
            (0usize, 0usize),
        ),
{
}

fn conv_output_len(len: usize, kernel: usize, stride: usize, padding: usize, causal: bool) -> (r:
    Option<usize>)
    ensures
        r == conv_len(len, kernel, stride, padding, causal),
{
    if stride == 0 {
        None
    } else if causal {
        if len == 0 {
            None
        } else {
            Some((len - 1) / stride + 1)
        }
    } else {
        match padding.checked_mul(2) {
            None => None,
            Some(p2) => match len.checked_add(p2) {
                None => None,
                Some(padded) => {
                    if padded < kernel {
                        None
                    } else {
                        ((padded - kernel) / stride).checked_add(1)
                    }
                },
            },
        }
    }
}

/// The shape that one layer hands on.
pub fn next_shape(layer: &LayerShape, len: usize, ch: usize, vocab_size: usize) -> (r: Option<
    (usize, usize),
>)
    ensures
        r == step_shape(*layer, len, ch, vocab_size),
{
    match layer {
        LayerShape::Dense { output_size } => Some((1, *output_size)),
        LayerShape::Conv1D { out_channels, kernel_size, stride, padding, causal, .. } => {
            match conv_output_len(len, *kernel_size, *stride, *padding, *causal) {
                Some(l) => Some((l, *out_channels)),
                None => None,
            }
        },
        LayerShape::DepthwiseConv1D { in_channels, kernel_size, stride, padding, causal } => {
            match conv_output_len(len, *kernel_size, *stride, *padding, *causal) {
                Some(l) => Some((l, *in_channels)),
                None => None,
            }
        },
        LayerShape::GroupedConv1D { out_channels, kernel_size, stride, padding, causal, .. } => {
            match conv_output_len(len, *kernel_size, *stride, *padding, *causal) {
                Some(l) => Some((l, *out_channels)),
                None => None,
            }
        },
        LayerShape::LowRankPointwise { out_channels, .. } => Some((len, *out_channels)),
        LayerShape::ChannelScale { channels } => Some((len, *channels)),
        LayerShape::Residual { .. } => Some((len, ch)),
        LayerShape::WeightTying => Some((1, vocab_size)),
    }
}

/// The (sequence length, channels) after every layer of `specs`, starting
/// from `sequence_length` positions of `channels` channels; `None` where a
/// convolution's length arithmetic fails (zero stride, a kernel wider than
/// the padded input, an empty causal input, or `usize` overflow).
pub fn layer_output_shape(specs: &[LayerShape], sequence_length: usize, channels: usize, vocab_size: usize) -> (r:
    Option<(usize, usize)>)
    ensures
        r == shape_after(specs@, sequence_length, channels, vocab_size),
{
    let mut len = sequence_length;
    let mut ch = channels;
    let mut i: usize = 0;
    assert(specs@.subrange(0, specs@.len() as int) =~= specs@);
    while i < specs.len()
        invariant
            0 <= i <= specs@.len(),
            shape_after(specs@, sequence_length, channels, vocab_size) == shape_after(
                specs@.subrange(i as int, specs@.len() as int),
                len,
                ch,
                vocab_size,
            ),
        decreases specs.len() - i,
    {
        let ghost rest = specs@.subrange(i as int, specs@.len() as int);
        proof {
            assert(rest[0] == specs@[i as int]);
            assert(rest.drop_first() =~= specs@.subrange(i + 1, specs@.len() as int));
        }
        match next_shape(&specs[i], len, ch, vocab_size) {
            Some((l, c)) => {
                len = l;
                ch = c;
            },
            None => {
                return None;
            },
        }
        i += 1;
    }
    proof {
        assert(specs@.subrange(i as int, specs@.len() as int) =~= Seq::<LayerShape>::empty());
    }
    Some((len, ch))
}

/// `a * b * c`, left to right, when each step fits.
fn checked_product3(a: usize, b: usize, c: usize) -> (r: Option<usize>)
    ensures
        r == product3(a as int, b as int, c as int),
{
    match a.checked_mul(b) {
        None => None,
        Some(x) => x.checked_mul(c),
    }
}

/// The weights and biases of one layer.
pub fn layer_params(layer: &LayerShape, len: usize, ch: usize) -> (r: Option<(usize, usize)>)
    ensures
        r == layer_params_spec(*layer, len, ch),
{
    match layer {
        LayerShape::Dense { output_size } => match checked_product3(len, ch, *output_size) {
            Some(w) => Some((w, *output_size)),
            None => None,
        },
        LayerShape::Conv1D { in_channels, out_channels, kernel_size, .. } => match checked_product3(
            *out_channels,
            *in_channels,
            *kernel_size,
        ) {
            Some(w) => Some((w, *out_channels)),
            None => None,
        },
        LayerShape::DepthwiseConv1D { in_channels, kernel_size, .. } => match checked_product3(
            *in_channels,
            *kernel_size,
            1,
        ) {
            Some(w) => Some((w, *in_channels)),
            None => None,
        },
        LayerShape::GroupedConv1D { in_channels, out_channels, groups, kernel_size, .. } => {
            if *groups == 0 {
                None
            } else {
                match checked_product3(*out_channels, *in_channels / *groups, *kernel_size) {
                    Some(w) => Some((w, *out_channels)),
                    None => None,
                }
            }
        },
        LayerShape::LowRankPointwise { in_channels, rank, out_channels } => {
            match (in_channels.checked_mul(*rank), rank.checked_mul(*out_channels)) {
                (Some(fw), Some(sw)) => {
                    if fw as u128 + *rank as u128 + sw as u128 + *out_channels as u128
                        <= usize::MAX as u128 {
                        Some((fw + sw, *rank + *out_channels))
                    } else {
                        None
                    }
                },
                _ => None,
            }
        },
        LayerShape::ChannelScale { channels } => Some((*channels, *channels)),
        LayerShape::Residual { .. } => Some((0, 0)),
        LayerShape::WeightTying => Some((0, 0)),
    }
}

/// The parameters of a low-rank pointwise layer, part by part: the first
/// projection's weights and biases, the second's, and their sum; `None`
/// where a part or the running sum leaves `usize`.
pub open spec fn low_rank_parts_spec(in_channels: usize, rank: usize, out_channels: usize) -> Option<
    (usize, usize, usize, usize, usize),
> {
    let fw = in_channels * rank;
    let sw = rank * out_channels;
    if fw <= usize::MAX && sw <= usize::MAX && fw + rank + sw + out_channels <= usize::MAX {
        Some((fw as usize, rank, sw as usize, out_channels, (fw + rank + sw + out_channels) as usize))
    } else {
        None
    }
}

/// Law: the parts of a low-rank pointwise layer. The first projection maps
/// `in_channels` to `rank` (`in_channels * rank` weights, `rank` biases), the
/// second `rank` to `out_channels` (`rank * out_channels` weights,
/// `out_channels` biases), and the total is their sum; the parts are there
/// whenever that sum fits in `usize`.
pub proof fn lemma_low_rank_parts(in_channels: usize, rank: usize, out_channels: usize)
    ensures
        low_rank_parts_spec(in_channels, rank, out_channels) matches Some((fw, fb, sw, sb, total)) ==> {
            &&& fw == in_channels * rank
            &&& fb == rank
            &&& sw == rank * out_channels
            &&& sb == out_channels
            &&& total == fw + fb + sw + sb
        },
        in_channels * rank + rank + rank * out_channels + out_channels <= usize::MAX
            ==> low_rank_parts_spec(in_channels, rank, out_channels) is Some,
{
    assert(0 <= in_channels * rank && 0 <= rank * out_channels) by (nonlinear_arith);
}

/// The parameters of a low-rank pointwise layer, part by part.
pub fn low_rank_parts(in_channels: usize, rank: usize, out_channels: usize) -> (r: Option<
    (usize, usize, usize, usize, usize),
>)
    ensures
        r == low_rank_parts_spec(in_channels, rank, out_channels),
{
    match (in_channels.checked_mul(rank), rank.checked_mul(out_channels)) {
        (Some(fw), Some(sw)) => {
            if fw as u128 + rank as u128 + sw as u128 + out_channels as u128 <= usize::MAX as u128 {
                Some((fw, rank, sw, out_channels, fw + rank + sw + out_channels))
            } else {
                None
            }
        },
        _ => None,
    }
}

} // verus!
