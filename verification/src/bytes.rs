//! Little-endian integer encodings and byte helpers shared by the file formats.
use vstd::prelude::*;
use vstd::bytes::{spec_u64_to_le_bytes, spec_u64_from_le_bytes, u64_to_le_bytes, u64_from_le_bytes};

verus! {

/// Size in bytes of an encoded `u64`.
pub const U64_SIZE: usize = 8;

/// Size in bytes of an encoded `i64`.
pub const I64_SIZE: usize = 8;

/// The eight little-endian bytes of `x`.
pub open spec fn le64(x: u64) -> Seq<u8> {
    spec_u64_to_le_bytes(x)
}

/// The value of eight little-endian bytes.
pub open spec fn from_le64(s: Seq<u8>) -> u64 {
    spec_u64_from_le_bytes(s)
}

pub proof fn lemma_le64(x: u64)
    ensures
        le64(x).len() == 8,
        from_le64(le64(x)) == x,
{
    vstd::bytes::lemma_auto_spec_u64_to_from_le_bytes();
}

/// Encodes `x` as eight little-endian bytes.
pub fn encode_u64(x: u64) -> (r: Vec<u8>)
    ensures
        r@ == le64(x),
        r@.len() == 8,
{
    u64_to_le_bytes(x)
}

/// Decodes eight little-endian bytes.
pub fn decode_u64(s: &[u8]) -> (r: u64)
    requires
        s@.len() == 8,
    ensures
        r == from_le64(s@),
{
    u64_from_le_bytes(s)
}

} // verus!

verus! {

/// Appends every byte of `s` to `v`.
pub fn push_all(v: &mut Vec<u8>, s: &[u8])
    ensures
        final(v)@ == old(v)@ + s@,
{
    let ghost start = v@;
    let mut i: usize = 0;
    while i < s.len()
        invariant
            i <= s@.len(),
            v@ == start + s@.subrange(0, i as int),
        decreases s@.len() - i,
    {
        v.push(s[i]);
        i = i + 1;
        assert(v@ =~= start + s@.subrange(0, i as int));
    }
    assert(s@.subrange(0, s@.len() as int) =~= s@);
}

/// `n` zero bytes.
pub open spec fn zeros(n: nat) -> Seq<u8> {
    Seq::new(n, |i: int| 0u8)
}

/// Appends `n` zero bytes to `v`.
pub fn push_zeros(v: &mut Vec<u8>, n: usize)
    ensures
        final(v)@ == old(v)@ + zeros(n as nat),
{
    let ghost start = v@;
    let mut i: usize = 0;
    while i < n
        invariant
            i <= n,
            v@ == start + zeros(i as nat),
        decreases n - i,
    {
        v.push(0u8);
        i = i + 1;
        assert(v@ =~= start + zeros(i as nat));
    }
}

/// Copies sixteen bytes into an array.
pub fn to_array16(s: &[u8]) -> (r: [u8; 16])
    requires
        s@.len() == 16,
    ensures
        r@ == s@,
{
    let mut a = [0u8; 16];
    let mut i: usize = 0;
    while i < 16
        invariant
            s@.len() == 16,
            0 <= i <= 16,
            a@.len() == 16,
            forall|j: int| 0 <= j < i ==> a@[j] == s@[j],
        decreases 16 - i,
    {
        a[i] = s[i];
        i = i + 1;
    }
    assert(a@ =~= s@);
    a
}

} // verus!

verus! {

/// A copy of a byte slice.
pub fn slice_to_vec(s: &[u8]) -> (r: Vec<u8>)
    ensures
        r@ == s@,
{
    let mut v: Vec<u8> = Vec::new();
    push_all(&mut v, s);
    assert(v@ =~= s@);
    v
}

} // verus!
