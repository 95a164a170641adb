//! The binary glTF container that exported models are written in: a
//! 12-byte header, a JSON chunk padded with spaces and a binary chunk whose
//! views are padded with zeros, each to a multiple of four bytes.

use crate::bytes::le32;
use vstd::prelude::*;

verus! {

/// The bytes that pad `n` bytes to a multiple of four.
pub open spec fn pad4(n: int) -> int {
    (4 - n % 4) % 4
}

/// `n` copies of byte `b`.
pub open spec fn repeat_byte(b: u8, n: int) -> Seq<u8> {
    Seq::new(n as nat, |i: int| b)
}

/// The four little-endian bytes of `v`.
pub open spec fn le_bytes(v: u32) -> Seq<u8> {
    seq![(v % 256) as u8, ((v / 256) % 256) as u8, ((v / 65536) % 256) as u8, (v / 16777216) as u8]
}

/// Appends the little-endian bytes of `v` to `out`.
fn push_u32_le(out: &mut Vec<u8>, v: u32)
    ensures
        final(out)@ == old(out)@ + le_bytes(v),
{
    out.push((v % 256) as u8);
    out.push(((v / 256) % 256) as u8);
    out.push(((v / 65536) % 256) as u8);
    out.push((v / 16777216) as u8);
    assert(out@ =~= old(out)@ + le_bytes(v));
}

/// Appends `bytes` to `out`.
fn push_all(out: &mut Vec<u8>, bytes: &[u8])
    ensures
        final(out)@ == old(out)@ + bytes@,
{
    let n: usize = bytes.len();
    let mut i: usize = 0;
    while i < n
        invariant
            n == bytes@.len(),
            i <= n,
            out@ == old(out)@ + bytes@.take(i as int),
        decreases n - i,
    {
        out.push(bytes[i]);
        assert(bytes@.take(i + 1) == bytes@.take(i as int).push(bytes@[i as int]));
        assert(out@ =~= old(out)@ + bytes@.take(i + 1));
        i = i + 1;
    }
    assert(bytes@.take(n as int) =~= bytes@);
}

/// Appends `byte` to `out` until its length is a multiple of four.
fn pad_with(out: &mut Vec<u8>, byte: u8)
    ensures
        final(out)@ == old(out)@ + repeat_byte(byte, pad4(old(out)@.len() as int)),
{
    let ghost start = out@;
    while out.len() % 4 != 0
        invariant
            out@.len() >= start.len(),
            out@.len() - start.len() <= 3,
            out@.len() - start.len() + pad4(out@.len() as int) == pad4(start.len() as int),
            out@ == start + repeat_byte(byte, out@.len() - start.len()),
        decreases pad4(out@.len() as int),
    {
        let ghost before = out@;
        out.push(byte);
        assert(out@ =~= start + repeat_byte(byte, out@.len() - start.len()));
    }
}

/// Appends `bytes` to a binary buffer as a view, padded with zeros to a
/// multiple of four bytes, and gives the view's offset and length (as 32-bit
/// numbers, cut to their low 32 bits).
pub fn push_buffer_bytes(buffer: &mut Vec<u8>, bytes: &[u8]) -> (r: (u32, u32))
    ensures
        final(buffer)@ == old(buffer)@ + bytes@ + repeat_byte(0, pad4((old(buffer)@.len() + bytes@.len()) as int)),
        r.0 == old(buffer)@.len() as u32,
        r.1 == bytes@.len() as u32,
{
    let byte_offset: u32 = buffer.len() as u32;
    let byte_length: u32 = bytes.len() as u32;
    push_all(buffer, bytes);
    pad_with(buffer, 0);
    (byte_offset, byte_length)
}

/// The JSON text padded with spaces to a multiple of four bytes.
pub open spec fn padded_json(json: Seq<u8>) -> Seq<u8> {
    json + repeat_byte(0x20, pad4(json.len() as int))
}

/// The binary glTF file of JSON text `json` and binary buffer `bin`: the
/// magic "glTF", version 2 and the total length; the JSON chunk (its length,
/// "JSON", the padded text); the binary chunk (its length, "BIN\0", the
/// buffer). Lengths are written as their low 32 bits.
pub open spec fn glb_file(json: Seq<u8>, bin: Seq<u8>) -> Seq<u8> {
    let j = padded_json(json);
    let jl = j.len() as u32;
    let bl = bin.len() as u32;
    seq![0x67u8, 0x6cu8, 0x54u8, 0x46u8] + le_bytes(2) + le_bytes((28 + jl + bl) as u32) + le_bytes(jl) + seq![
        0x4au8,
        0x53u8,
        0x4fu8,
        0x4eu8,
    ] + j + le_bytes(bl) + seq![0x42u8, 0x49u8, 0x4eu8, 0x00u8] + bin
}

/// Whether the header's total length of a file of `json` and `bin` fits in
/// 32 bits.
pub open spec fn glb_fits(json: Seq<u8>, bin: Seq<u8>) -> bool {
    28 + (padded_json(json).len() as u32) + (bin.len() as u32) <= u32::MAX
}

/// Frames JSON text and a binary buffer as a binary glTF file.
pub fn glb_container(json: &[u8], bin: &[u8]) -> (r: Vec<u8>)
    requires
        glb_fits(json@, bin@),
    ensures
        r@ == glb_file(json@, bin@),
{
    let mut text: Vec<u8> = vstd::slice::slice_to_vec(json);
    pad_with(&mut text, 0x20);
    let json_chunk_len: u32 = text.len() as u32;
    let bin_chunk_len: u32 = bin.len() as u32;
    let total_length: u32 = 12 + 8 + json_chunk_len + 8 + bin_chunk_len;
    let mut out: Vec<u8> = Vec::new();
    out.push(0x67);
    out.push(0x6c);
    out.push(0x54);
    out.push(0x46);
    push_u32_le(&mut out, 2);
    push_u32_le(&mut out, total_length);
    push_u32_le(&mut out, json_chunk_len);
    out.push(0x4a);
    out.push(0x53);
    out.push(0x4f);
    out.push(0x4e);
    push_all(&mut out, text.as_slice());
    push_u32_le(&mut out, bin_chunk_len);
    out.push(0x42);
    out.push(0x49);
    out.push(0x4e);
    out.push(0x00);
    push_all(&mut out, bin);
    assert(out@ =~= glb_file(json@, bin@));
    out
}

/// Every view that `push_buffer_bytes` appends leaves the buffer a multiple
/// of four bytes long, so the next view starts aligned.
pub proof fn lemma_views_stay_aligned(len: nat, n: nat)
    ensures
        (len + n + pad4((len + n) as int)) % 4 == 0,
        0 <= pad4((len + n) as int) < 4,
{
}

/// The JSON chunk is a multiple of four bytes long, and the total length in
/// the header of a binary glTF file is the file's length, where the JSON
/// text and the buffer are short enough for the header's 32-bit fields.
pub proof fn lemma_glb_length_field(json: Seq<u8>, bin: Seq<u8>)
    requires
        28 + padded_json(json).len() + bin.len() <= u32::MAX,
    ensures
        padded_json(json).len() % 4 == 0,
        glb_file(json, bin).len() == 28 + padded_json(json).len() + bin.len(),
        glb_file(json, bin).subrange(8, 12) == le_bytes(glb_file(json, bin).len() as u32),
{
    let j = padded_json(json);
    let jl = j.len() as u32;
    let bl = bin.len() as u32;
    let total = (28 + jl + bl) as u32;
    let head = seq![0x67u8, 0x6cu8, 0x54u8, 0x46u8] + le_bytes(2) + le_bytes(total);
    let tail = le_bytes(jl) + seq![0x4au8, 0x53u8, 0x4fu8, 0x4eu8] + j + le_bytes(bl) + seq![
        0x42u8,
        0x49u8,
        0x4eu8,
        0x00u8,
    ] + bin;
    assert(j.len() == json.len() + pad4(json.len() as int));
    lemma_views_stay_aligned(json.len(), 0);
    assert(head.len() == 12);
    assert(tail.len() == 16 + j.len() + bin.len());
    assert(glb_file(json, bin) == head + tail);
    assert(total == 28 + j.len() + bin.len());
    assert((head + tail).subrange(8, 12) =~= le_bytes(total));
}

proof fn lemma_le_bytes_word(v: u32)
    ensures
        le_bytes(v).len() == 4,
        le32(le_bytes(v), 0) == v,
{
    let b = le_bytes(v);
    let x = v as int;
    assert(x == x % 256 + 256 * ((x / 256) % 256) + 65536 * ((x / 65536) % 256) + 16777216 * (x / 16777216))
        by (nonlinear_arith)
        requires
            0 <= x < 0x1_0000_0000,
    ;
}

/// A binary glTF file is laid out as its header says: the magic "glTF",
/// the version 2 and the total length as little-endian words; then the JSON
/// chunk's length, "JSON", the JSON text followed by spaces up to a
/// multiple of four bytes (fewer than four); then the binary chunk's length,
/// "BIN" and a zero byte, and the binary buffer to the end. The lengths are
/// those of what follows them, where they fit in 32 bits.
pub proof fn lemma_glb_sections(json: Seq<u8>, bin: Seq<u8>)
    requires
        28 + padded_json(json).len() + bin.len() <= u32::MAX,
    ensures
        ({
            let f = glb_file(json, bin);
            let jl = padded_json(json).len() as int;
            &&& f.subrange(0, 4) == seq![0x67u8, 0x6cu8, 0x54u8, 0x46u8]
            &&& le32(f, 4) == 2
            &&& le32(f, 8) == f.len()
            &&& le32(f, 12) == jl
            &&& f.subrange(16, 20) == seq![0x4au8, 0x53u8, 0x4fu8, 0x4eu8]
            &&& f.subrange(20, 20 + json.len() as int) == json
            &&& json.len() <= jl < json.len() + 4
            &&& jl % 4 == 0
            &&& forall|i: int| 20 + json.len() <= i < 20 + jl ==> #[trigger] f[i] == 0x20u8
            &&& le32(f, 20 + jl) == bin.len()
            &&& f.subrange(24 + jl, 28 + jl) == seq![0x42u8, 0x49u8, 0x4eu8, 0x00u8]
            &&& f.subrange(28 + jl, f.len() as int) == bin
        }),
{
    let j = padded_json(json);
    let jl = j.len() as u32;
    let bl = bin.len() as u32;
    let total = (28 + jl + bl) as u32;
    let magic = seq![0x67u8, 0x6cu8, 0x54u8, 0x46u8];
    let jtag = seq![0x4au8, 0x53u8, 0x4fu8, 0x4eu8];
    let btag = seq![0x42u8, 0x49u8, 0x4eu8, 0x00u8];
    lemma_glb_length_field(json, bin);
    lemma_views_stay_aligned(json.len(), 0);
    lemma_le_bytes_word(2);
    lemma_le_bytes_word(total);
    lemma_le_bytes_word(jl);
    lemma_le_bytes_word(bl);
    let f = glb_file(json, bin);
    let a = magic + le_bytes(2) + le_bytes(total) + le_bytes(jl) + jtag;
    let c = le_bytes(bl) + btag + bin;
    assert(f =~= a + j + c);
    assert(a.len() == 20);
    assert(f.subrange(0, 4) =~= magic);
    assert(f.subrange(4, 8) =~= le_bytes(2));
    assert(f.subrange(8, 12) =~= le_bytes(total));
    assert(f.subrange(12, 16) =~= le_bytes(jl));
    assert(le32(f, 4) == le32(le_bytes(2), 0));
    assert(le32(f, 8) == le32(le_bytes(total), 0));
    assert(le32(f, 12) == le32(le_bytes(jl), 0));
    assert(f.subrange(16, 20) =~= jtag);
    assert(f.subrange(20, 20 + json.len() as int) =~= json);
    assert forall|i: int| 20 + json.len() <= i < 20 + jl implies #[trigger] f[i] == 0x20u8 by {
        assert(f[i] == j[i - 20]);
    }
    let o = 20 + jl;
    assert(f[o] == le_bytes(bl)[0] && f[o + 1] == le_bytes(bl)[1]);
    assert(f[o + 2] == le_bytes(bl)[2] && f[o + 3] == le_bytes(bl)[3]);
    assert(le32(f, o) == le32(le_bytes(bl), 0));
    assert(f.subrange(24 + jl, 28 + jl) =~= btag);
    assert(f.subrange(28 + jl, f.len() as int) =~= bin);
}


} // verus!
