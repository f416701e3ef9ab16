//! Small helpers.

use vstd::prelude::*;
use vstd::string::StringSliceAdditionalSpecFns;
use crate::bitwise::u64_le;

verus! {

/// The size in bytes of a value's type.
pub fn get_size_of<T>(_value: T) -> (r: usize)
    ensures
        r == vstd::layout::size_of::<T>(),
{
    std::mem::size_of::<T>()
}

/// The first eight bytes of `bytes`, padded with zeros.
pub open spec fn padded8(bytes: Seq<u8>) -> Seq<u8> {
    Seq::new(8, |i: int| if i < bytes.len() { bytes[i] } else { 0u8 })
}

/// The UTF-8 bytes of `s`, at most eight of them and zero-padded, read as a
/// little-endian integer.
pub fn str_to_u64(s: &str) -> (r: u64)
    ensures
        r == u64_le(padded8(s.spec_bytes())),
{
    let bytes = s.as_bytes();
    let mut buffer: Vec<u8> = vec![0u8; 8];
    let mut i: usize = 0;
    while i < bytes.len() && i < 8
        invariant
            buffer@.len() == 8,
            i <= 8,
            i <= bytes@.len(),
            bytes@ == s.spec_bytes(),
            forall|j: int| 0 <= j < 8 ==> #[trigger] buffer@[j] == (if j < i {
                bytes@[j]
            } else {
                0u8
            }),
        decreases 8 - i,
    {
        buffer.set(i, bytes[i]);
        i = i + 1;
    }
    assert(buffer@ =~= padded8(s.spec_bytes()));
    proof {
        crate::bitwise::lemma_u64_le(buffer@);
    }
    let b0 = buffer[0] as u64;
    let b1 = buffer[1] as u64;
    let b2 = buffer[2] as u64;
    let b3 = buffer[3] as u64;
    let b4 = buffer[4] as u64;
    let b5 = buffer[5] as u64;
    let b6 = buffer[6] as u64;
    let b7 = buffer[7] as u64;
    b0 + 256 * (b1 + 256 * (b2 + 256 * (b3 + 256 * (b4 + 256 * (b5 + 256 * (b6 + 256 * b7))))))
}

} // verus!
