//! Bounds-checked reads of fixed-width fields from a byte buffer.

use vstd::prelude::*;

verus! {

/// Why a byte buffer could not be decoded.
#[derive(Debug, Clone, Copy, PartialEq, Eq, Structural)]
pub enum UnpackError {
    /// A field needs more bytes than the buffer has left.
    TruncatedData,
    /// The leading byte of a value belongs to no known format.
    UnknownFormatByte,
    /// Containers nest deeper than [`crate::value::MAX_DEPTH`].
    NestingTooDeep,
}

/// The `width` bytes of `data` from `start`, where the buffer holds them.
pub open spec fn field(data: Seq<u8>, start: int, width: int) -> Option<Seq<u8>> {
    if 0 <= start && 0 <= width && start + width <= data.len() {
        Some(data.subrange(start, start + width))
    } else {
        None
    }
}

/// The number that `bytes` spell in base 256, most significant byte first.
pub open spec fn be_uint(bytes: Seq<u8>) -> nat
    decreases bytes.len(),
{
    if bytes.len() == 0 {
        0
    } else {
        be_uint(bytes.drop_last()) * 256 + bytes.last() as nat
    }
}

/// The `width` bytes that spell `n` in base 256, most significant byte first.
pub open spec fn be_bytes(n: nat, width: nat) -> Seq<u8>
    decreases width,
{
    if width == 0 {
        Seq::empty()
    } else {
        be_bytes(n / 256, (width - 1) as nat).push((n % 256) as u8)
    }
}

/// Appends the `width` low bytes of `n` to `out`, most significant first.
pub fn push_be(out: &mut Vec<u8>, n: u64, width: usize)
    ensures
        final(out)@ == old(out)@ + be_bytes(n as nat, width as nat),
    decreases width,
{
    if width > 0 {
        push_be(out, n / 256, width - 1);
        out.push((n % 256) as u8);
    }
    assert(out@ =~= old(out)@ + be_bytes(n as nat, width as nat));
}

/// Copies `N` bytes from `start` into an array, or reports that the buffer
/// ends before `start + N`.
pub fn safe_array<const N: usize>(data: &[u8], start: usize) -> (r: Result<[u8; N], UnpackError>)
    ensures
        match field(data@, start as int, N as int) {
            Some(bytes) => r matches Ok(a) && a@ == bytes,
            None => r == Err::<[u8; N], UnpackError>(UnpackError::TruncatedData),
        },
{
    if start > data.len() || N > data.len() - start {
        return Err(UnpackError::TruncatedData);
    }
    let mut out: [u8; N] = [0u8; N];
    let mut i: usize = 0;
    while i < N
        invariant
            i <= N,
            start + N <= data.len(),
            forall|j: int| 0 <= j < i ==> out@[j] == data@[start + j],
        decreases N - i,
    {
        out[i] = data[start + i];
        i += 1;
    }
    assert(out@ =~= data@.subrange(start as int, start + N));
    Ok(out)
}

/// The byte at `pos`, or the report that the buffer ends before it.
pub fn safe_byte(data: &[u8], pos: usize) -> (r: Result<u8, UnpackError>)
    ensures
        r == if pos < data.len() {
            Ok::<u8, UnpackError>(data@[pos as int])
        } else {
            Err::<u8, UnpackError>(UnpackError::TruncatedData)
        },
{
    if pos < data.len() {
        Ok(data[pos])
    } else {
        Err(UnpackError::TruncatedData)
    }
}

} // verus!
