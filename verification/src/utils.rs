use vstd::prelude::*;

use crate::error::{KeplerErr, KeplerResult};

verus! {

/// Decodes the eight bytes `data[start_idx..end_idx]` as a little-endian
/// `u64`.  The range must be exactly eight bytes wide and lie inside the
/// slice; otherwise the slice is reported as corrupted.
pub fn from_le_to_u64(data: &[u8], start_idx: usize, end_idx: usize) -> (r: KeplerResult<u64>)
    ensures
        (end_idx == start_idx + 8 && end_idx <= data@.len()) ==> r == Ok::<u64, KeplerErr>(
            vstd::bytes::spec_u64_from_le_bytes(data@.subrange(start_idx as int, end_idx as int)),
        ),
        !(end_idx == start_idx + 8 && end_idx <= data@.len()) ==> r == Err::<u64, KeplerErr>(
            KeplerErr::CorruptedSst(start_idx),
        ),
{
    if end_idx <= data.len() && start_idx <= end_idx && end_idx - start_idx == 8 {
        let window = vstd::slice::slice_subrange(data, start_idx, end_idx);
        Ok(vstd::bytes::u64_from_le_bytes(window))
    } else {
        Err(KeplerErr::CorruptedSst(start_idx))
    }
}

/// Decodes the four bytes `data[start_idx..end_idx]` as a little-endian
/// `u32`, under the same bounds discipline as [`from_le_to_u64`].
pub fn from_le_to_u32(data: &[u8], start_idx: usize, end_idx: usize) -> (r: KeplerResult<u32>)
    ensures
        (end_idx == start_idx + 4 && end_idx <= data@.len()) ==> r == Ok::<u32, KeplerErr>(
            vstd::bytes::spec_u32_from_le_bytes(data@.subrange(start_idx as int, end_idx as int)),
        ),
        !(end_idx == start_idx + 4 && end_idx <= data@.len()) ==> r == Err::<u32, KeplerErr>(
            KeplerErr::CorruptedSst(start_idx),
        ),
{
    if end_idx <= data.len() && start_idx <= end_idx && end_idx - start_idx == 4 {
        let window = vstd::slice::slice_subrange(data, start_idx, end_idx);
        Ok(vstd::bytes::u32_from_le_bytes(window))
    } else {
        Err(KeplerErr::CorruptedSst(start_idx))
    }
}

/// Reads a little-endian `u64` at offset `i` of a byte vector whose bounds
/// the caller has already established.
pub fn read_u64_at(data: &Vec<u8>, i: usize) -> (r: u64)
    requires
        i + 8 <= data@.len(),
    ensures
        r == vstd::bytes::spec_u64_from_le_bytes(data@.subrange(i as int, i + 8)),
{
    let n: usize = data.len();
    proof {
        assert(i + 8 <= n);
    }
    let window = vstd::slice::slice_subrange(data.as_slice(), i, i + 8);
    vstd::bytes::u64_from_le_bytes(window)
}

/// Reads a little-endian `u32` at offset `i` of a byte vector whose bounds
/// the caller has already established.
pub fn read_u32_at(data: &Vec<u8>, i: usize) -> (r: u32)
    requires
        i + 4 <= data@.len(),
    ensures
        r == vstd::bytes::spec_u32_from_le_bytes(data@.subrange(i as int, i + 4)),
{
    let n: usize = data.len();
    proof {
        assert(i + 4 <= n);
    }
    let window = vstd::slice::slice_subrange(data.as_slice(), i, i + 4);
    vstd::bytes::u32_from_le_bytes(window)
}

/// Appends the bytes of `s` to `out`.
pub fn push_bytes(out: &mut Vec<u8>, s: &[u8])
    ensures
        final(out)@ == old(out)@ + s@,
{
    let ghost prefix = out@;
    out.extend_from_slice(s);
    proof {
        assert forall|i: int| 0 <= i < out@.len() implies out@[i] == (prefix + s@)[i] by {
            if i >= prefix.len() {
                assert(vstd::pervasive::cloned::<u8>(s@[i - prefix.len()], out@[i]));
            }
        }
        assert(out@ =~= prefix + s@);
    }
}

/// Appends the four little-endian bytes of `x` to `out`.
pub fn push_u32_le(out: &mut Vec<u8>, x: u32)
    ensures
        final(out)@ == old(out)@ + vstd::bytes::spec_u32_to_le_bytes(x),
{
    let bytes = vstd::bytes::u32_to_le_bytes(x);
    push_bytes(out, bytes.as_slice());
}

/// Appends the eight little-endian bytes of `x` to `out`.
pub fn push_u64_le(out: &mut Vec<u8>, x: u64)
    ensures
        final(out)@ == old(out)@ + vstd::bytes::spec_u64_to_le_bytes(x),
{
    let bytes = vstd::bytes::u64_to_le_bytes(x);
    push_bytes(out, bytes.as_slice());
}

} // verus!
