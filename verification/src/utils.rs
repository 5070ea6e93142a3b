//! Byte helpers: hashing, hexadecimal text, concatenation and zero checks.
use vstd::prelude::*;
use sha2::Digest;
use crate::bytes::push_all;
use crate::ids::hex_string;
use crate::kv_shard::flat;
use crate::shard::slices_view;
use crate::text::string_push;

verus! {

/// What `sha2::Sha256` gives for a message: its 32-byte digest.
pub uninterp spec fn sha256_digest(data: Seq<u8>) -> Seq<u8>;

/// The SHA-256 digest of `vec`, computed by the `sha2` crate.
#[verifier::external_body]
pub fn to_sha256(vec: Vec<u8>) -> (r: [u8; 32])
    ensures
        r@ == sha256_digest(vec@),
{
    let digest: [u8; 32] = sha2::Sha256::digest(&vec).into();
    digest
}

/// The lower-case hexadecimal digit of `n < 16`.
fn hex_char(n: u8) -> (c: char)
    requires
        n < 16,
    ensures
        c == crate::ids::hex_digit(n),
{
    if n < 10 {
        ((48u8 + n) as char)
    } else {
        ((97u8 + n - 10) as char)
    }
}

/// The bytes as lower-case hexadecimal text, two digits per byte.
pub fn sha256_to_string(bytes: Vec<u8>) -> (r: String)
    ensures
        r@ == hex_string(bytes@),
{
    let mut out = String::new();
    let mut i: usize = 0;
    while i < bytes.len()
        invariant
            i <= bytes@.len(),
            out@ == hex_string(bytes@.subrange(0, i as int)),
        decreases bytes@.len() - i,
    {
        let b = bytes[i];
        string_push(&mut out, hex_char(b / 16));
        string_push(&mut out, hex_char(b % 16));
        proof {
            let s = bytes@.subrange(0, i + 1);
            assert(s.drop_last() =~= bytes@.subrange(0, i as int));
            assert(s.last() == b);
            assert(out@ =~= hex_string(s));
        }
        i = i + 1;
    }
    assert(bytes@.subrange(0, bytes@.len() as int) =~= bytes@);
    out
}

/// The views of a sequence of byte vectors.
pub open spec fn vecs_view(s: Seq<Vec<u8>>) -> Seq<Seq<u8>> {
    Seq::new(s.len(), |i: int| s[i]@)
}

/// Concatenates the slices, each passed through `process_cb` where there is one.
pub fn flatten_with_callback<'a, F: Fn(&'a [u8]) -> Vec<u8>>(input: &'a [&'a [u8]], process_cb: Option<F>) -> (r: Vec<u8>)
    requires
        process_cb matches Some(cb) ==> forall|i: int| 0 <= i < input@.len() ==> cb.requires((#[trigger] input@[i],)),
    ensures
        process_cb is None ==> r@ == flat(slices_view(input@)),
        process_cb matches Some(cb) ==> exists|outs: Seq<Vec<u8>>|
            {
                &&& outs.len() == input@.len()
                &&& forall|i: int| 0 <= i < input@.len() ==> cb.ensures((input@[i],), #[trigger] outs[i])
                &&& r@ == flat(vecs_view(outs))
            },
{
    let mut buffer: Vec<u8> = Vec::new();
    let ghost mut outs: Seq<Vec<u8>> = Seq::empty();
    let mut j: usize = 0;
    while j < input.len()
        invariant
            j <= input@.len(),
            process_cb is Some ==> outs.len() == j,
            process_cb matches Some(cb) ==> forall|i: int| 0 <= i < input@.len() ==> cb.requires((#[trigger] input@[i],)),
            process_cb is None ==> buffer@ == flat(slices_view(input@).subrange(0, j as int)),
            process_cb matches Some(cb) ==> {
                &&& forall|i: int| 0 <= i < j ==> cb.ensures((input@[i],), #[trigger] outs[i])
                &&& buffer@ == flat(vecs_view(outs))
            },
        decreases input@.len() - j,
    {
        let slice = input[j];
        match &process_cb {
            Some(cb) => {
                let processed = cb(slice);
                push_all(&mut buffer, processed.as_slice());
                proof {
                    let o2 = outs.push(processed);
                    assert(vecs_view(o2).drop_last() =~= vecs_view(outs));
                    assert(vecs_view(o2).last() == processed@);
                    outs = o2;
                }
            },
            None => {
                push_all(&mut buffer, slice);
                proof {
                    assert(slices_view(input@).subrange(0, j + 1).drop_last() =~= slices_view(input@).subrange(
                        0,
                        j as int,
                    ));
                }
            },
        }
        j = j + 1;
    }
    assert(slices_view(input@).subrange(0, input@.len() as int) =~= slices_view(input@));
    buffer
}

/// Whether every byte is zero.
pub fn is_zero_aligned(buf: &[u8]) -> (r: bool)
    ensures
        r == forall|i: int| 0 <= i < buf@.len() ==> buf@[i] == 0,
{
    let mut i: usize = 0;
    while i < buf.len()
        invariant
            i <= buf@.len(),
            forall|k: int| 0 <= k < i ==> buf@[k] == 0,
        decreases buf@.len() - i,
    {
        if buf[i] != 0 {
            return false;
        }
        i = i + 1;
    }
    true
}

} // verus!
