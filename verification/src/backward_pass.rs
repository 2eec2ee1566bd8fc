use vstd::prelude::*;

use candle_core::Tensor;

use crate::kv_cache::{tensor_dim, tensor_dims, tensor_offset, tensor_strides};

verus! {

/// The part of `t` of length `len` along axis `dim` from `start`, by `Tensor::narrow`: an
/// error when `t` has no such axis or the part does not fit in it; otherwise a view of the
/// same storage with the shape of `t`, that axis set to `len`, the strides of `t`, and a start
/// moved `start` steps along that axis.
#[verifier::external_body]
fn tensor_narrow(t: &Tensor, dim: usize, start: usize, len: usize) -> (r: Result<Tensor, candle_core::Error>)
    ensures
        r is Ok <==> (dim < tensor_dims(*t).len() && start + len <= tensor_dims(*t)[dim as int]),
        r matches Ok(n) ==> {
            &&& tensor_dims(n) == tensor_dims(*t).update(dim as int, len)
            &&& tensor_strides(n) == tensor_strides(*t)
            &&& tensor_offset(n) == tensor_offset(*t) + tensor_strides(*t)[dim as int] * start
        },
{
    t.narrow(dim, start, len)
}

/// Logits and labels aligned for next-token prediction: the logits of every position but the
/// last, the labels of every position but the first. With `seq` the size of the logits'
/// axis 1: an error unless both tensors have an axis 1, `seq` is at least 1 and the labels
/// have at least `seq` positions; then both results have `seq - 1` positions on axis 1 and
/// the shapes of their inputs otherwise: the logits start at position 0, the labels at
/// position 1, so that the logits of position `t` stand beside the label of `t + 1`.
pub fn shift_for_causal_lm(logits: &Tensor, labels: &Tensor) -> (r: Result<(Tensor, Tensor), candle_core::Error>)
    ensures
        r is Ok <==> {
            &&& tensor_dims(*logits).len() > 1
            &&& tensor_dims(*logits)[1] >= 1
            &&& tensor_dims(*labels).len() > 1
            &&& tensor_dims(*logits)[1] <= tensor_dims(*labels)[1]
        },
        r matches Ok(p) ==> {
            &&& tensor_dims(p.0) == tensor_dims(*logits).update(1, (tensor_dims(*logits)[1] - 1) as usize)
            &&& tensor_dims(p.1) == tensor_dims(*labels).update(1, (tensor_dims(*logits)[1] - 1) as usize)
            &&& tensor_strides(p.0) == tensor_strides(*logits)
            &&& tensor_offset(p.0) == tensor_offset(*logits)
            &&& tensor_strides(p.1) == tensor_strides(*labels)
            &&& tensor_offset(p.1) == tensor_offset(*labels) + tensor_strides(*labels)[1]
        },
{
    let seq = match tensor_dim(logits, 1) {
        Ok(s) => s,
        Err(e) => return Err(e),
    };
    let len = seq.wrapping_sub(1);
    assert(seq >= 1 ==> len == seq - 1);
    assert(seq == 0 ==> len == usize::MAX);
    let shifted_logits = match tensor_narrow(logits, 1, 0, len) {
        Ok(t) => t,
        Err(e) => return Err(e),
    };
    let shifted_labels = match tensor_narrow(labels, 1, 1, len) {
        Ok(t) => t,
        Err(e) => return Err(e),
    };
    Ok((shifted_logits, shifted_labels))
}

} // verus!
