//! The byte-wise XOR cipher applied to block payloads before they are stored.
use vstd::prelude::*;

use crate::raster::PixelBuffer;

verus! {

/// The key used for block payloads.
pub const BLOCK_KEY: u8 = 0xAA;

/// Every byte XOR-ed with `key`.
pub open spec fn xor_all(data: Seq<u8>, key: u8) -> Seq<u8> {
    Seq::new(data.len(), |i: int| data[i] ^ key)
}

/// XORs every byte with `key`; applying it twice gives the bytes back.
pub fn xor_cipher(data: &mut Vec<u8>, key: u8)
    ensures
        final(data)@ == xor_all(old(data)@, key),
{
    let ghost start = data@;
    let n = data.len();
    for i in 0..n
        invariant
            n == start.len(),
            data@.len() == n,
            forall|k: int| 0 <= k < i ==> #[trigger] data@[k] == start[k] ^ key,
            forall|k: int| i <= k < n ==> #[trigger] data@[k] == start[k],
    {
        let b = data[i] ^ key;
        data.set(i, b);
    }
    assert(data@ =~= xor_all(start, key));
}

/// The payload of a block: its raw RGBA bytes XOR-ed with `key`.
pub fn encrypt_block(block: &PixelBuffer, key: u8) -> (r: Vec<u8>)
    ensures
        r@ == xor_all(block.raw(), key),
{
    let raw = block.as_raw();
    let mut block_data: Vec<u8> = Vec::new();
    for i in 0..raw.len()
        invariant
            block_data@ == raw@.subrange(0, i as int),
    {
        block_data.push(raw[i]);
        assert(block_data@ =~= raw@.subrange(0, i + 1));
    }
    assert(raw@.subrange(0, raw@.len() as int) == raw@);
    xor_cipher(&mut block_data, key);
    block_data
}

/// The raw bytes of a decrypted `bs × bs` block: each complete four-byte
/// pixel of the payload XOR-ed with the block key, the rest blank.
pub open spec fn decrypted_raw(data: Seq<u8>, bs: int) -> Seq<u8> {
    Seq::new(
        (4 * bs * bs) as nat,
        |k: int|
            if k < 4 * (data.len() / 4) {
                data[k] ^ BLOCK_KEY
            } else {
                0u8
            },
    )
}

/// Decrypts a payload into a `block_size × block_size` block, filling pixels
/// row by row; a trailing partial pixel is dropped.
pub fn decrypt_block(data: &[u8], block_size: u32) -> (r: PixelBuffer)
    requires
        4 * block_size * block_size <= usize::MAX,
        data@.len() / 4 <= block_size * block_size,
    ensures
        r.wf(),
        r.w() == block_size,
        r.h() == block_size,
        r.raw() == decrypted_raw(data@, block_size as int),
{
    let mut bytes: Vec<u8> = Vec::new();
    for i in 0..data.len()
        invariant
            bytes@ == data@.subrange(0, i as int),
    {
        bytes.push(data[i]);
        assert(bytes@ =~= data@.subrange(0, i + 1));
    }
    assert(data@.subrange(0, data@.len() as int) == data@);
    xor_cipher(&mut bytes, BLOCK_KEY);
    let full: usize = 4 * (bytes.len() / 4);
    assert(block_size * block_size <= 4 * block_size * block_size
        && 4 * block_size * block_size == 4 * (block_size * block_size)) by (nonlinear_arith);
    let size: usize = 4 * ((block_size as usize) * (block_size as usize));
    assert(size == 4 * block_size * block_size) by (nonlinear_arith)
        requires
            size == 4 * ((block_size as int) * (block_size as int)),
    ;
    let mut out: Vec<u8> = Vec::new();
    for k in 0..size
        invariant
            full == 4 * (data@.len() / 4),
            full <= size,
            bytes@ == xor_all(data@, BLOCK_KEY),
            out@ == decrypted_raw(data@, block_size as int).subrange(0, k as int),
            size == 4 * block_size * block_size,
    {
        if k < full {
            out.push(bytes[k]);
        } else {
            out.push(0);
        }
        assert(out@ =~= decrypted_raw(data@, block_size as int).subrange(0, k + 1));
    }
    assert(out@ =~= decrypted_raw(data@, block_size as int));
    let r = PixelBuffer::from_raw(block_size, block_size, out);
    r.unwrap()
}

} // verus!
