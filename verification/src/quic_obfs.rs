//! Datagrams that look like noise: each is masked by a stream that a password and a salt determine.

use vstd::prelude::*;
use vstd::utf8::encode_utf8;

use crate::chance::random_bytes;
use crate::wire::{copy_range, push_bytes};

verus! {

/// The length of a salt.
pub const SALT_LEN: usize = 8;

/// The largest datagram before it is masked.
pub const OBFS_MAX_UDP_PAYLOAD: u16 = 1444;

/// The BLAKE3 digest of bytes, as `blake3` computes it.
pub uninterp spec fn blake3_digest(b: Seq<u8>) -> Seq<u8>;

/// The first `n` bytes that the keyed BLAKE3 function gives out for a salt, as `blake3` computes them.
pub uninterp spec fn blake3_stream(key: Seq<u8>, salt: Seq<u8>, n: nat) -> Seq<u8>;

/// Calls `blake3::hash`. A digest has thirty-two bytes.
#[verifier::external_body]
fn digest(b: &[u8]) -> (r: [u8; 32])
    ensures
        r@ == blake3_digest(b@),
{
    *blake3::hash(b).as_bytes()
}

/// Calls `Hasher::new_keyed`, `update` and `finalize_xof` of `blake3`, and fills a buffer of `n` bytes
/// from what that gives out.
#[verifier::external_body]
fn stream(key: &[u8; 32], salt: &[u8], n: usize) -> (r: Vec<u8>)
    ensures
        r@ == blake3_stream(key@, salt@, n as nat),
        r@.len() == n,
{
    let mut hasher: blake3::Hasher = blake3::Hasher::new_keyed(key);
    hasher.update(salt);
    let mut out: Vec<u8> = vec![0u8; n];
    hasher.finalize_xof().fill(&mut out);
    out
}

/// The key that a password stands for.
pub fn obfs_key(password: &str) -> (r: [u8; 32])
    ensures
        r@ == blake3_digest(encode_utf8(password@)),
{
    digest(password.as_bytes())
}

/// Bytes masked by others.
pub open spec fn masked(data: Seq<u8>, mask: Seq<u8>) -> Seq<u8> {
    Seq::new(data.len(), |i: int| data[i] ^ mask[i])
}

/// Masks bytes by others.
pub fn apply_mask(data: &[u8], mask: &[u8]) -> (r: Vec<u8>)
    requires
        data@.len() == mask@.len(),
    ensures
        r@ == masked(data@, mask@),
{
    let mut out: Vec<u8> = Vec::new();
    let mut i: usize = 0;
    while i < data.len()
        invariant
            i <= data@.len(),
            data@.len() == mask@.len(),
            out@.len() == i,
            forall|k: int| 0 <= k < i ==> #[trigger] out@[k] == data@[k] ^ mask@[k],
        decreases data@.len() - i,
    {
        out.push(data[i] ^ mask[i]);
        i = i + 1;
    }
    assert(out@ =~= masked(data@, mask@));
    out
}

/// Bytes masked by the stream of a key and a salt.
pub open spec fn scrambled(key: Seq<u8>, salt: Seq<u8>, data: Seq<u8>) -> Seq<u8> {
    masked(data, blake3_stream(key, salt, data.len()))
}

/// Masks bytes by the stream of a key and a salt.
pub fn xor_keystream(key: &[u8; 32], salt: &[u8], data: &[u8]) -> (r: Vec<u8>)
    ensures
        r@ == scrambled(key@, salt@, data@),
{
    let mask: Vec<u8> = stream(key, salt, data.len());
    apply_mask(data, mask.as_slice())
}

/// Masking twice by the same bytes gives back what there was.
pub proof fn law_mask_twice(data: Seq<u8>, mask: Seq<u8>)
    ensures
        masked(masked(data, mask), mask) == data,
{
    assert forall|i: int| 0 <= i < data.len() implies masked(masked(data, mask), mask)[i] == data[i] by {
        let d = data[i];
        let m = mask[i];
        assert((d ^ m) ^ m == d) by (bit_vector);
    }
    assert(masked(masked(data, mask), mask) =~= data);
}

/// A datagram as it is sent: the salt, and the masked contents.
pub open spec fn sealed(key: Seq<u8>, salt: Seq<u8>, contents: Seq<u8>) -> Seq<u8> {
    salt + scrambled(key, salt, contents)
}

/// Seals a datagram with a salt.
pub fn seal(key: &[u8; 32], salt: &[u8; 8], contents: &[u8]) -> (r: Vec<u8>)
    ensures
        r@ == sealed(key@, salt@, contents@),
{
    let mut out: Vec<u8> = Vec::new();
    push_bytes(&mut out, salt.as_slice());
    let body: Vec<u8> = xor_keystream(key, salt.as_slice(), contents);
    push_bytes(&mut out, body.as_slice());
    assert(out@ =~= sealed(key@, salt@, contents@));
    out
}

/// Seals a datagram with a salt that is drawn for it. Whatever the salt is, the same key opens it.
pub fn obfuscate(key: &[u8; 32], contents: &[u8]) -> (r: Vec<u8>)
    ensures
        exists|salt: Seq<u8>| salt.len() == SALT_LEN && r@ == #[trigger] sealed(key@, salt, contents@),
        opened(key@, r@) == contents@,
{
    let b: Vec<u8> = random_bytes(SALT_LEN);
    let salt: [u8; 8] = [b[0], b[1], b[2], b[3], b[4], b[5], b[6], b[7]];
    let r: Vec<u8> = seal(key, &salt, contents);
    proof {
        law_seal_open(key@, salt@, contents@);
    }
    r
}

/// The contents of a datagram; one that is shorter than a salt has none.
pub open spec fn opened(key: Seq<u8>, packet: Seq<u8>) -> Seq<u8> {
    if packet.len() < SALT_LEN {
        seq![]
    } else {
        scrambled(key, packet.take(SALT_LEN as int), packet.skip(SALT_LEN as int))
    }
}

/// The contents of datagrams that arrived together, each `stride` bytes long but for the last.
pub open spec fn opened_all(key: Seq<u8>, data: Seq<u8>, stride: int) -> Seq<u8>
    decreases data.len(),
{
    if data.len() == 0 || stride <= 0 {
        seq![]
    } else if data.len() <= stride {
        opened(key, data)
    } else {
        opened(key, data.take(stride)) + opened_all(key, data.skip(stride), stride)
    }
}

/// What arrived, opened: the contents one behind another, and how long each is.
pub struct Received {
    pub contents: Vec<u8>,
    pub stride: usize,
}

/// Opens datagrams that arrived together. A stride of zero means that there is one.
pub fn receive(key: &[u8; 32], data: &[u8], stride: usize) -> (r: Received)
    requires
        data@.len() > 0,
    ensures
        ({
            let s = if stride == 0 {
                data@.len() as int
            } else {
                stride as int
            };
            &&& r.contents@ == opened_all(key@, data@, s)
            &&& r.stride == (if s >= SALT_LEN {
                s - SALT_LEN
            } else {
                0
            })
        }),
{
    let s: usize = if stride == 0 {
        data.len()
    } else {
        stride
    };
    let mut out: Vec<u8> = Vec::new();
    let mut pos: usize = 0;
    let ghost all = opened_all(key@, data@, s as int);
    assert(data@.skip(0) =~= data@);
    assert(out@ + all =~= all);
    while pos < data.len()
        invariant
            pos <= data@.len(),
            s > 0,
            all == opened_all(key@, data@, s as int),
            all == out@ + opened_all(key@, data@.skip(pos as int), s as int),
        decreases data@.len() - pos,
    {
        let left: usize = data.len() - pos;
        let n: usize = if s < left {
            s
        } else {
            left
        };
        let ghost rest = data@.skip(pos as int);
        let ghost seg = rest.take(n as int);
        proof {
            assert(rest.skip(n as int) =~= data@.skip(pos + n));
            if left <= s {
                assert(seg =~= rest);
                assert(data@.skip(pos + n) =~= seq![]);
                assert(opened_all(key@, rest, s as int) =~= opened(key@, seg) + opened_all(
                    key@,
                    data@.skip(pos + n),
                    s as int,
                ));
            }
        }
        let ghost before = out@;
        if n >= SALT_LEN {
            let salt: Vec<u8> = copy_range(data, pos, pos + SALT_LEN);
            let body: Vec<u8> = copy_range(data, pos + SALT_LEN, pos + n);
            assert(salt@ =~= seg.take(SALT_LEN as int));
            assert(body@ =~= seg.skip(SALT_LEN as int));
            let plain: Vec<u8> = xor_keystream(key, salt.as_slice(), body.as_slice());
            push_bytes(&mut out, plain.as_slice());
        }
        assert(out@ =~= before + opened(key@, seg));
        assert(all =~= out@ + opened_all(key@, data@.skip(pos + n), s as int));
        pos = pos + n;
    }
    assert(data@.skip(pos as int) =~= seq![]);
    assert(out@ + seq![] =~= out@);
    Received {
        contents: out,
        stride: if s >= SALT_LEN {
            s - SALT_LEN
        } else {
            0
        },
    }
}

/// A datagram that was sealed is opened by the same key: what was sent is what arrives.
pub proof fn law_seal_open(key: Seq<u8>, salt: Seq<u8>, contents: Seq<u8>)
    requires
        salt.len() == SALT_LEN,
    ensures
        opened(key, sealed(key, salt, contents)) == contents,
{
    let p = sealed(key, salt, contents);
    assert(p.take(SALT_LEN as int) =~= salt);
    assert(p.skip(SALT_LEN as int) =~= scrambled(key, salt, contents));
    law_mask_twice(contents, blake3_stream(key, salt, contents.len()));
}

/// Datagrams that arrive together are opened one by one: each gives what was sealed in it, in order.
pub proof fn law_received_in_order(key: Seq<u8>, salt: Seq<u8>, contents: Seq<u8>, rest: Seq<u8>)
    requires
        salt.len() == 8,
    ensures
        rest.len() > 0 ==> opened_all(key, sealed(key, salt, contents) + rest, 8 + contents.len() as int) == contents
            + opened_all(key, rest, 8 + contents.len() as int),
        opened_all(key, sealed(key, salt, contents), 8 + contents.len() as int) == contents,
{
    law_seal_open(key, salt, contents);
    let p = sealed(key, salt, contents);
    let n = 8 + contents.len() as int;
    assert(p.len() == n);
    assert((p + rest).take(n) =~= p);
    assert((p + rest).skip(n) =~= rest);
}

/// A datagram is eight bytes longer than its contents, and begins with its salt; one that is shorter than a
/// salt has no contents.
pub proof fn law_sealed_length(key: Seq<u8>, salt: Seq<u8>, contents: Seq<u8>, packet: Seq<u8>)
    requires
        salt.len() == 8,
    ensures
        sealed(key, salt, contents).len() == 8 + contents.len(),
        sealed(key, salt, contents).take(8) == salt,
        packet.len() < 8 ==> opened(key, packet).len() == 0,
        packet.len() >= 8 ==> opened(key, packet).len() == packet.len() - 8,
{
    assert(sealed(key, salt, contents).take(8) =~= salt);
}

} // verus!
