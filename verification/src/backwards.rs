//! Input positions read by each tap of a 1-D convolution.
use vstd::prelude::*;

verus! {

/// The input position read by tap `k` of output position `o`: the output
/// stride, shifted left by the kernel size less one when causal, else by the
/// padding. Negative or too large positions stand for padding.
pub open spec fn conv_position(o: int, k: int, kernel_size: int, stride: int, padding: int, causal: bool) -> int {
    o * stride + k - if causal {
        kernel_size - 1
    } else {
        padding
    }
}

proof fn lemma_index_bounds(o: int, k: int, kernel_size: int, output_length: int)
    requires
        0 <= o < output_length,
        0 <= k < kernel_size,
    ensures
        0 <= o * kernel_size + k < output_length * kernel_size,
        o * kernel_size <= o * kernel_size + k,
        (o + 1) * kernel_size == o * kernel_size + kernel_size,
{
    assert(0 <= o * kernel_size) by (nonlinear_arith)
        requires
            0 <= o,
            0 <= kernel_size,
    ;
    assert((o + 1) * kernel_size <= output_length * kernel_size) by (nonlinear_arith)
        requires
            o + 1 <= output_length,
            0 <= kernel_size,
    ;
    assert((o + 1) * kernel_size == o * kernel_size + kernel_size) by (nonlinear_arith);
}

/// For every output position and tap, in that order, the input position it
/// reads (see `conv_position`).
pub fn make_conv_positions(
    output_length: usize,
    kernel_size: usize,
    stride: usize,
    padding: usize,
    causal: bool,
) -> (positions: Vec<i32>)
    requires
        output_length * kernel_size <= usize::MAX,
        output_length * stride + kernel_size <= i32::MAX,
        padding <= i32::MAX,
    ensures
        positions@.len() == output_length * kernel_size,
        forall|o: int, k: int|
            0 <= o < output_length && 0 <= k < kernel_size ==> #[trigger] positions@[o * kernel_size
                + k] as int == conv_position(
                o,
                k,
                kernel_size as int,
                stride as int,
                padding as int,
                causal,
            ),
{
    let total = output_length * kernel_size;
    let mut positions: Vec<i32> = Vec::with_capacity(total);
    let mut out_pos: usize = 0;
    while out_pos < output_length
        invariant
            output_length * kernel_size <= usize::MAX,
            output_length * stride + kernel_size <= i32::MAX,
            padding <= i32::MAX,
            0 <= out_pos <= output_length,
            positions@.len() == out_pos * kernel_size,
            forall|o: int, k: int|
                0 <= o < out_pos && 0 <= k < kernel_size ==> #[trigger] positions@[o * kernel_size
                    + k] as int == conv_position(
                    o,
                    k,
                    kernel_size as int,
                    stride as int,
                    padding as int,
                    causal,
                ),
        decreases output_length - out_pos,
    {
        proof {
            assert(out_pos * stride <= output_length * stride) by (nonlinear_arith)
                requires
                    out_pos <= output_length,
            ;
            lemma_index_bounds(out_pos as int, 0, kernel_size as int + 1, output_length as int);
        }
        let base = out_pos * stride;
        let mut k: usize = 0;
        while k < kernel_size
            invariant
                output_length * kernel_size <= usize::MAX,
                output_length * stride + kernel_size <= i32::MAX,
                padding <= i32::MAX,
                0 <= out_pos < output_length,
                base == out_pos * stride,
                base + kernel_size <= i32::MAX,
                0 <= k <= kernel_size,
                positions@.len() == out_pos * kernel_size + k,
                forall|o: int, kk: int|
                    0 <= o < out_pos && 0 <= kk < kernel_size ==> #[trigger] positions@[o
                        * kernel_size + kk] as int == conv_position(
                        o,
                        kk,
                        kernel_size as int,
                        stride as int,
                        padding as int,
                        causal,
                    ),
                forall|kk: int|
                    0 <= kk < k ==> #[trigger] positions@[out_pos * kernel_size + kk] as int
                        == conv_position(
                        out_pos as int,
                        kk,
                        kernel_size as int,
                        stride as int,
                        padding as int,
                        causal,
                    ),
            decreases kernel_size - k,
        {
            let pos: i32 = if causal {
                base as i32 + k as i32 - (kernel_size - 1) as i32
            } else {
                base as i32 + k as i32 - padding as i32
            };
            let ghost before = positions@;
            positions.push(pos);
            proof {
                assert forall|o: int, kk: int|
                    0 <= o < out_pos && 0 <= kk < kernel_size implies #[trigger] positions@[o
                        * kernel_size + kk] as int == conv_position(
                        o,
                        kk,
                        kernel_size as int,
                        stride as int,
                        padding as int,
                        causal,
                    ) by {
                    lemma_index_bounds(o, kk, kernel_size as int, out_pos as int);
                    assert(positions@[o * kernel_size + kk] == before[o * kernel_size + kk]);
                }
            }
            k += 1;
        }
        proof {
            assert forall|o: int, kk: int|
                0 <= o < out_pos + 1 && 0 <= kk < kernel_size implies #[trigger] positions@[o
                    * kernel_size + kk] as int == conv_position(
                    o,
                    kk,
                    kernel_size as int,
                    stride as int,
                    padding as int,
                    causal,
                ) by {
                if o == out_pos {
                    assert(positions@[out_pos * kernel_size + kk] as int == conv_position(
                        out_pos as int,
                        kk,
                        kernel_size as int,
                        stride as int,
                        padding as int,
                        causal,
                    ));
                }
            }
            assert((out_pos + 1) * kernel_size == out_pos * kernel_size + kernel_size)
                by (nonlinear_arith);
        }
        out_pos += 1;
    }
    positions
}

} // verus!
