//! For each output position of a 1-D convolution, the range of kernel taps
//! that read inside the input.
use vstd::prelude::*;

verus! {

/// Where the taps of one output position start reading, and the taps
/// `k_start..k_end` that read inside the input.
#[derive(Clone, Copy)]
pub struct KernelSpan {
    pub origin: isize,
    pub k_start: usize,
    pub k_end: usize,
}

/// Left padding: the kernel size less one when causal, else `padding`.
pub open spec fn left_pad(kernel_size: int, padding: int, causal: bool) -> int {
    if causal {
        kernel_size - 1
    } else {
        padding
    }
}

pub open spec fn clamp_spec(x: int, lo: int, hi: int) -> int {
    if x < lo {
        lo
    } else if x > hi {
        hi
    } else {
        x
    }
}

/// Tap `k` of a span starting at `origin` reads inside `0..input_length`.
pub open spec fn reads_inside(origin: int, k: int, input_length: int) -> bool {
    0 <= origin + k < input_length
}

/// Inputs for which the span arithmetic fits in `isize`.
pub open spec fn span_args_ok(
    output_position: int,
    input_length: int,
    kernel_size: int,
    stride: int,
    padding: int,
    causal: bool,
) -> bool {
    &&& causal ==> kernel_size >= 1
    &&& 0 <= output_position <= isize::MAX
    &&& 0 <= stride <= isize::MAX
    &&& output_position * stride <= isize::MAX
    &&& input_length + left_pad(kernel_size, padding, causal) <= isize::MAX
    &&& kernel_size <= isize::MAX
}

/// The span of output position `o`.
pub open spec fn span_spec(
    o: int,
    input_length: int,
    kernel_size: int,
    stride: int,
    padding: int,
    causal: bool,
) -> KernelSpan {
    let origin = o * stride - left_pad(kernel_size, padding, causal);
    KernelSpan {
        origin: origin as isize,
        k_start: clamp_spec(-origin, 0, kernel_size) as usize,
        k_end: clamp_spec(input_length - origin, 0, kernel_size) as usize,
    }
}

/// Law: where the window of each output position starts. Output position 0
/// starts left of the input by the left padding (`kernel_size - 1` when
/// causal, `padding` otherwise), and each next output position starts
/// `stride` input positions later, causal or not; so position `o` starts at
/// `o * stride` less the left padding.
pub proof fn lemma_span_origins(
    o: int,
    input_length: int,
    kernel_size: int,
    stride: int,
    padding: int,
    causal: bool,
)
    requires
        o >= 0,
        input_length >= 0,
        kernel_size >= 0,
        padding >= 0,
        span_args_ok(o + 1, input_length, kernel_size, stride, padding, causal),
    ensures
        span_spec(0, input_length, kernel_size, stride, padding, causal).origin == -(if causal {
            kernel_size - 1
        } else {
            padding
        }),
        span_spec(o + 1, input_length, kernel_size, stride, padding, causal).origin == span_spec(
            o,
            input_length,
            kernel_size,
            stride,
            padding,
            causal,
        ).origin + stride,
        span_spec(o, input_length, kernel_size, stride, padding, causal).origin == stride * o - (
        if causal {
            kernel_size - 1
        } else {
            padding
        }),
{
    assert(0 <= stride * o <= stride * (o + 1)) by (nonlinear_arith)
        requires
            o >= 0,
            stride >= 0,
    ;
    assert(stride * (o + 1) == stride * o + stride) by (nonlinear_arith);
    assert(o * stride == stride * o) by (nonlinear_arith);
    assert((o + 1) * stride == stride * (o + 1)) by (nonlinear_arith);
}

/// The span of one output position: its first input position (`origin`,
/// possibly negative) and the taps that read inside `0..input_length`.
pub fn make_span(
    output_position: usize,
    input_length: usize,
    kernel_size: usize,
    stride: usize,
    padding: usize,
    causal: bool,
) -> (r: KernelSpan)
    requires
        span_args_ok(
            output_position as int,
            input_length as int,
            kernel_size as int,
            stride as int,
            padding as int,
            causal,
        ),
    ensures
        r == span_spec(
            output_position as int,
            input_length as int,
            kernel_size as int,
            stride as int,
            padding as int,
            causal,
        ),
        forall|k: int|
            0 <= k < kernel_size ==> (r.k_start <= k < r.k_end <==> #[trigger] reads_inside(
                r.origin as int,
                k,
                input_length as int,
            )),
        r.origin == stride * output_position - (if causal {
            kernel_size - 1
        } else {
            padding as int
        }),
{
    let left_padding = if causal {
        kernel_size - 1
    } else {
        padding
    };
    let origin = output_position as isize * stride as isize - left_padding as isize;
    let neg = -origin;
    let lo: isize = if neg < 0 {
        0
    } else {
        neg
    };
    let k_start = if lo > kernel_size as isize {
        kernel_size as isize
    } else {
        lo
    } as usize;
    let room = input_length as isize - origin;
    let k_end = if room < 0 {
        0
    } else if room > kernel_size as isize {
        kernel_size as isize
    } else {
        room
    } as usize;
    KernelSpan { origin, k_start, k_end }
}

/// The span of every output position, in order.
pub fn build_spans(
    input_length: usize,
    output_length: usize,
    kernel_size: usize,
    stride: usize,
    padding: usize,
    causal: bool,
) -> (r: Vec<KernelSpan>)
    requires
        output_length <= isize::MAX,
        output_length * stride <= isize::MAX,
        span_args_ok(0, input_length as int, kernel_size as int, stride as int, padding as int, causal),
    ensures
        r@.len() == output_length,
        forall|o: int|
            0 <= o < output_length ==> #[trigger] r@[o] == span_spec(
                o,
                input_length as int,
                kernel_size as int,
                stride as int,
                padding as int,
                causal,
            ),
{
    let mut spans: Vec<KernelSpan> = Vec::with_capacity(output_length);
    let mut o: usize = 0;
    while o < output_length
        invariant
            output_length <= isize::MAX,
            output_length * stride <= isize::MAX,
            span_args_ok(0, input_length as int, kernel_size as int, stride as int, padding as int, causal),
            0 <= o <= output_length,
            spans@.len() == o,
            forall|j: int|
                0 <= j < o ==> #[trigger] spans@[j] == span_spec(
                    j,
                    input_length as int,
                    kernel_size as int,
                    stride as int,
                    padding as int,
                    causal,
                ),
        decreases output_length - o,
    {
        proof {
            assert(o * stride <= output_length * stride) by (nonlinear_arith)
                requires
                    o <= output_length,
            ;
        }
        spans.push(make_span(o, input_length, kernel_size, stride, padding, causal));
        o += 1;
    }
    spans
}

} // verus!
