//! For each output position of a depthwise 1-D convolution, the range of
//! kernel taps that read inside the input.
use vstd::prelude::*;
use crate::conv1d_backward::{self as geom};

verus! {

/// Where the taps of one output position start reading, and the taps
/// `k_start..k_end` that read inside the input.
#[derive(Clone, Copy)]
pub struct OutputSpan {
    pub origin: isize,
    pub k_start: usize,
    pub k_end: usize,
}

/// The span of output position `o`.
pub open spec fn output_span_spec(
    o: int,
    input_length: int,
    kernel_size: int,
    stride: int,
    padding: int,
    causal: bool,
) -> OutputSpan {
    let s = geom::span_spec(o, input_length, kernel_size, stride, padding, causal);
    OutputSpan { origin: s.origin, k_start: s.k_start, k_end: s.k_end }
}

/// The span of one output position; a non-empty span's first and last taps
/// read inside the input.
pub fn make_span(
    output_position: usize,
    input_length: usize,
    kernel_size: usize,
    stride: usize,
    padding: usize,
    causal: bool,
) -> (r: OutputSpan)
    requires
        geom::span_args_ok(
            output_position as int,
            input_length as int,
            kernel_size as int,
            stride as int,
            padding as int,
            causal,
        ),
    ensures
        r == output_span_spec(
            output_position as int,
            input_length as int,
            kernel_size as int,
            stride as int,
            padding as int,
            causal,
        ),
        r.k_start < r.k_end ==> r.origin + r.k_start >= 0 && r.origin + r.k_start < input_length
            && r.origin + r.k_end - 1 < input_length,
        forall|k: int|
            0 <= k < kernel_size ==> (r.k_start <= k < r.k_end <==> #[trigger] geom::reads_inside(
                r.origin as int,
                k,
                input_length as int,
            )),
        r.origin == stride * output_position - (if causal {
            kernel_size - 1
        } else {
            padding as int
        }),
{
    let left_padding = if causal {
        kernel_size - 1
    } else {
        padding
    };
    let origin = output_position as isize * stride as isize - left_padding as isize;
    let neg = -origin;
    let k_start_i: isize = if neg < 0 {
        0
    } else if neg > kernel_size as isize {
        kernel_size as isize
    } else {
        neg
    };
    let room = input_length as isize - origin;
    let k_end_i: isize = if room < 0 {
        0
    } else if room > kernel_size as isize {
        kernel_size as isize
    } else {
        room
    };
    let k_start = k_start_i as usize;
    let k_end = k_end_i as usize;
    OutputSpan { origin, k_start, k_end }
}

/// The span of every output position, in order.
pub fn build_spans(
    input_length: usize,
    output_length: usize,
    kernel_size: usize,
    stride: usize,
    padding: usize,
    causal: bool,
) -> (r: Vec<OutputSpan>)
    requires
        output_length <= isize::MAX,
        output_length * stride <= isize::MAX,
        geom::span_args_ok(
            0,
            input_length as int,
            kernel_size as int,
            stride as int,
            padding as int,
            causal,
        ),
    ensures
        r@.len() == output_length,
        forall|o: int|
            0 <= o < output_length ==> #[trigger] r@[o] == output_span_spec(
                o,
                input_length as int,
                kernel_size as int,
                stride as int,
                padding as int,
                causal,
            ),
{
    let mut spans: Vec<OutputSpan> = Vec::with_capacity(output_length);
    let mut o: usize = 0;
    while o < output_length
        invariant
            output_length <= isize::MAX,
            output_length * stride <= isize::MAX,
            geom::span_args_ok(
                0,
                input_length as int,
                kernel_size as int,
                stride as int,
                padding as int,
                causal,
            ),
            0 <= o <= output_length,
            spans@.len() == o,
            forall|j: int|
                0 <= j < o ==> #[trigger] spans@[j] == output_span_spec(
                    j,
                    input_length as int,
                    kernel_size as int,
                    stride as int,
                    padding as int,
                    causal,
                ),
        decreases output_length - o,
    {
        proof {
            assert(o * stride <= output_length * stride) by (nonlinear_arith)
                requires
                    o <= output_length,
            ;
        }
        spans.push(make_span(o, input_length, kernel_size, stride, padding, causal));
        o += 1;
    }
    spans
}

} // verus!
