//! The "meltw" decompressor that the game's archives are packed with.
//!
//! The stream is a sequence of little-endian 16-bit words. A control word
//! holds sixteen flags, read from the highest bit down; a clear flag copies
//! the next word to the output, a set flag starts a reference: either a run
//! of zero words or a copy of earlier output words.

use crate::bytes::{le16, u16_at};
use vstd::prelude::*;

verus! {

/// Why a stream could not be decompressed.
#[derive(Debug, Clone, Copy, PartialEq, Eq, Structural)]
pub enum MeltError {
    /// The stream ends inside a word that the decoder has to read.
    UnexpectedEnd,
    /// A reference points further back than the output reaches.
    InvalidBackreference,
}

/// `n` words copied one after the other from `dist` bytes back in `out`.
pub open spec fn copy_back(out: Seq<u8>, dist: int, n: nat) -> Seq<u8>
    decreases n,
{
    if n == 0 {
        out
    } else {
        let src = out.len() - dist;
        copy_back(out.push(out[src]).push(out[src + 1]), dist, (n - 1) as nat)
    }
}

/// `n` zero bytes.
pub open spec fn zero_bytes(n: nat) -> Seq<u8> {
    Seq::new(n, |i: int| 0u8)
}

/// The decoder run from byte `pos` of `input`, with `flag` the bit of the
/// control word `val` that comes next (0 when a new control word is due) and
/// `out` the output so far.
pub open spec fn melt_run(input: Seq<u8>, pos: nat, flag: u16, val: u16, out: Seq<u8>) -> Result<
    Seq<u8>,
    MeltError,
>
    decreases input.len() - pos,
{
    if flag == 0 && pos + 2 > input.len() {
        Err(MeltError::UnexpectedEnd)
    } else {
        let p: nat = if flag == 0 {
            pos + 2
        } else {
            pos
        };
        let v: u16 = if flag == 0 {
            le16(input, pos as int)
        } else {
            val
        };
        let f: u16 = if flag == 0 {
            0x8000u16
        } else {
            flag
        };
        if p + 2 > input.len() {
            Err(MeltError::UnexpectedEnd)
        } else if v & f == 0 {
            melt_run(input, p + 2, f >> 1u16, v, out + input.subrange(p as int, p + 2int))
        } else {
            let first: u16 = le16(input, p as int);
            let short: bool = (first >> 11u16) == 0;
            if short && p + 4 > input.len() {
                Err(MeltError::UnexpectedEnd)
            } else {
                let upper: nat = if short {
                    le16(input, p + 2int) as nat
                } else {
                    (first >> 11u16) as nat
                };
                let lower: nat = if short {
                    first as nat
                } else {
                    (first & 0x7ffu16) as nat
                };
                let q: nat = if short {
                    p + 4
                } else {
                    p + 2
                };
                if lower == 0 {
                    if upper == 0 {
                        Ok(out)
                    } else {
                        melt_run(input, q, f >> 1u16, v, out + zero_bytes(2 * upper))
                    }
                } else if 2 * lower > out.len() {
                    Err(MeltError::InvalidBackreference)
                } else {
                    melt_run(input, q, f >> 1u16, v, copy_back(out, (2 * lower) as int, upper))
                }
            }
        }
    }
}

/// What decompressing the whole of `input` gives.
pub open spec fn melt(input: Seq<u8>) -> Result<Seq<u8>, MeltError> {
    melt_run(input, 0, 0, 0, Seq::empty())
}

/// `n` copies of the two bytes `a`, `b`.
pub open spec fn pairs(a: u8, b: u8, n: nat) -> Seq<u8> {
    Seq::new(2 * n, |i: int| if i % 2 == 0 {
        a
    } else {
        b
    })
}

proof fn lemma_copy_pairs(a: u8, b: u8, m: nat, k: nat)
    requires
        m >= 1,
    ensures
        copy_back(pairs(a, b, m), 2, k) == pairs(a, b, m + k),
    decreases k,
{
    if k > 0 {
        let o = pairs(a, b, m);
        let src = o.len() - 2;
        assert(o[src] == a && o[src + 1] == b);
        assert(o.push(o[src]).push(o[src + 1]) =~= pairs(a, b, m + 1));
        lemma_copy_pairs(a, b, m + 1, (k - 1) as nat);
    }
}

/// A run of zero words: a reference whose five top bits hold a count `n`
/// (1 to 31) and whose distance bits are zero writes `2 n` zero bytes.
pub proof fn lemma_melt_zero_run(n: u8)
    requires
        1 <= n < 32,
    ensures
        melt(seq![0x00u8, 0xc0u8, 0x00u8, (8 * n) as u8, 0x00u8, 0x00u8, 0x00u8, 0x00u8]) == Ok::<
            Seq<u8>,
            MeltError,
        >(Seq::new(2 * n as nat, |i: int| 0u8)),
{
    let input = seq![0x00u8, 0xc0u8, 0x00u8, (8 * n) as u8, 0x00u8, 0x00u8, 0x00u8, 0x00u8];
    let w: u16 = le16(input, 2);
    assert(w == 2048 * n);
    assert(le16(input, 0) == 0xc000u16);
    assert(le16(input, 4) == 0u16 && le16(input, 6) == 0u16);
    assert(0xc000u16 & 0x8000u16 != 0 && 0xc000u16 & 0x4000u16 != 0) by (bit_vector);
    assert(0x8000u16 >> 1u16 == 0x4000u16) by (bit_vector);
    assert(w >> 11u16 == n as u16 && w & 0x7ffu16 == 0) by (bit_vector)
        requires
            w == 2048 * n,
            n < 32,
    ;
    assert(0u16 >> 11u16 == 0) by (bit_vector);
    reveal_with_fuel(melt_run, 3);
    assert(Seq::<u8>::empty() + zero_bytes(2 * n as nat) =~= Seq::new(2 * n as nat, |i: int| 0u8));
}

/// A back-reference copies earlier output word by word: after a word `a b`,
/// a reference with count `n` (1 to 31) and a distance of one word repeats
/// it `n` more times.
pub proof fn lemma_melt_back_reference(a: u8, b: u8, n: u8)
    requires
        1 <= n < 32,
    ensures
        melt(seq![0x00u8, 0x60u8, a, b, 0x01u8, (8 * n) as u8, 0x00u8, 0x00u8, 0x00u8, 0x00u8]) == Ok::<
            Seq<u8>,
            MeltError,
        >(pairs(a, b, n as nat + 1)),
{
    let input = seq![0x00u8, 0x60u8, a, b, 0x01u8, (8 * n) as u8, 0x00u8, 0x00u8, 0x00u8, 0x00u8];
    let w: u16 = le16(input, 4);
    assert(w == 1 + 2048 * n);
    assert(le16(input, 0) == 0x6000u16);
    assert(le16(input, 6) == 0u16 && le16(input, 8) == 0u16);
    assert(0x6000u16 & 0x8000u16 == 0 && 0x6000u16 & 0x4000u16 != 0 && 0x6000u16 & 0x2000u16 != 0)
        by (bit_vector);
    assert(0x8000u16 >> 1u16 == 0x4000u16 && 0x4000u16 >> 1u16 == 0x2000u16) by (bit_vector);
    assert(w >> 11u16 == n as u16 && w & 0x7ffu16 == 1) by (bit_vector)
        requires
            w == 1 + 2048 * n,
            n < 32,
    ;
    assert(0u16 >> 11u16 == 0) by (bit_vector);
    reveal_with_fuel(melt_run, 4);
    let lit = Seq::<u8>::empty() + input.subrange(2, 4);
    assert(lit =~= pairs(a, b, 1));
    lemma_copy_pairs(a, b, 1, n as nat);
}

/// A reference whose five top bits are zero takes its count from the next
/// word, and its distance is the whole first word: after a word `a b`, a
/// distance of one word and a count `c` from the next word repeat it `c`
/// more times.
pub proof fn lemma_melt_long_count(a: u8, b: u8, lo: u8, hi: u8)
    ensures
        melt(seq![0x00u8, 0x60u8, a, b, 0x01u8, 0x00u8, lo, hi, 0x00u8, 0x00u8, 0x00u8, 0x00u8]) == Ok::<
            Seq<u8>,
            MeltError,
        >(pairs(a, b, (1 + lo + 256 * hi) as nat)),
{
    let input = seq![0x00u8, 0x60u8, a, b, 0x01u8, 0x00u8, lo, hi, 0x00u8, 0x00u8, 0x00u8, 0x00u8];
    assert(le16(input, 0) == 0x6000u16);
    assert(le16(input, 4) == 1u16);
    assert(le16(input, 6) == lo + 256 * hi);
    assert(le16(input, 8) == 0u16 && le16(input, 10) == 0u16);
    assert(0x6000u16 & 0x8000u16 == 0 && 0x6000u16 & 0x4000u16 != 0 && 0x6000u16 & 0x2000u16 != 0)
        by (bit_vector);
    assert(0x8000u16 >> 1u16 == 0x4000u16 && 0x4000u16 >> 1u16 == 0x2000u16) by (bit_vector);
    assert(1u16 >> 11u16 == 0 && 0u16 >> 11u16 == 0) by (bit_vector);
    reveal_with_fuel(melt_run, 4);
    let lit = Seq::<u8>::empty() + input.subrange(2, 4);
    assert(lit =~= pairs(a, b, 1));
    lemma_copy_pairs(a, b, 1, (lo + 256 * hi) as nat);
}

/// A reference that reaches further back than the output is refused: as
/// the first entry of a stream, any reference with a count in its top bits
/// and a non-zero distance.
pub proof fn lemma_melt_reference_before_start(lo: u8, hi: u8)
    requires
        hi >= 8,
        lo > 0 || hi % 8 > 0,
    ensures
        melt(seq![0x00u8, 0x80u8, lo, hi]) == Err::<Seq<u8>, MeltError>(MeltError::InvalidBackreference),
{
    let input = seq![0x00u8, 0x80u8, lo, hi];
    let w: u16 = le16(input, 2);
    assert(w == lo + 256 * hi);
    assert(le16(input, 0) == 0x8000u16);
    assert(0x8000u16 & 0x8000u16 != 0) by (bit_vector);
    assert(w >> 11u16 != 0 && w & 0x7ffu16 != 0) by (bit_vector)
        requires
            w == lo + 256 * hi,
            hi >= 8,
            lo > 0 || hi % 8 > 0,
    ;
    reveal_with_fuel(melt_run, 2);
}

/// A word copied as it is: a control word whose first flag is clear and
/// whose second is set, then a word, then the end marker (a reference with
/// a zero distance and a zero count in the following word), gives that word,
/// its two bytes in stored order.
pub proof fn lemma_melt_literal(a: u8, b: u8)
    ensures
        melt(seq![0x00u8, 0x40u8, a, b, 0x00u8, 0x00u8, 0x00u8, 0x00u8]) == Ok::<Seq<u8>, MeltError>(seq![a, b]),
{
    let input = seq![0x00u8, 0x40u8, a, b, 0x00u8, 0x00u8, 0x00u8, 0x00u8];
    assert(le16(input, 0) == 0x4000u16);
    assert(le16(input, 4) == 0u16);
    assert(le16(input, 6) == 0u16);
    assert(0x4000u16 & 0x8000u16 == 0) by (bit_vector);
    assert(0x8000u16 >> 1u16 == 0x4000u16) by (bit_vector);
    assert(0x4000u16 & 0x4000u16 != 0) by (bit_vector);
    assert(0u16 >> 11u16 == 0) by (bit_vector);
    reveal_with_fuel(melt_run, 3);
    assert(Seq::<u8>::empty() + input.subrange(2, 4) =~= seq![a, b]);
}


/// Decompresses a meltw stream.
pub fn meltw(compressed: &[u8]) -> (res: Result<Vec<u8>, MeltError>)
    ensures
        match (res, melt(compressed@)) {
            (Ok(o), Ok(s)) => o@ == s,
            (Err(e), Err(s)) => e == s,
            _ => false,
        },
{
    let mut out: Vec<u8> = Vec::with_capacity(1024 * 1024);
    let mut pos: usize = 0;
    let mut flag: u16 = 0;
    let mut val: u16 = 0;
    let len: usize = compressed.len();
    loop
        invariant
            len == compressed@.len(),
            pos <= len,
            melt_run(compressed@, pos as nat, flag, val, out@) == melt(compressed@),
        decreases len - pos,
    {
        if flag == 0 {
            if len - pos < 2 {
                return Err(MeltError::UnexpectedEnd);
            }
            val = u16_at(compressed, pos);
            pos = pos + 2;
            flag = 0x8000;
        }
        if len - pos < 2 {
            return Err(MeltError::UnexpectedEnd);
        }
        if (val & flag) == 0 {
            let ghost before = out@;
            out.push(compressed[pos]);
            out.push(compressed[pos + 1]);
            assert(out@ == before + compressed@.subrange(pos as int, pos + 2));
            pos = pos + 2;
        } else {
            let first: u16 = u16_at(compressed, pos);
            let short: bool = (first >> 11u16) == 0;
            let mut upper: u32;
            let lower: u16;
            if short {
                if len - pos < 4 {
                    return Err(MeltError::UnexpectedEnd);
                }
                upper = u16_at(compressed, pos + 2) as u32;
                lower = first;
                pos = pos + 4;
            } else {
                upper = (first >> 11u16) as u32;
                lower = first & 0x7ff;
                pos = pos + 2;
            }
            if lower == 0 {
                if upper == 0 {
                    return Ok(out);
                }
                let ghost before = out@;
                let count: usize = upper as usize * 2;
                let mut k: usize = 0;
                while k < count
                    invariant
                        k <= count,
                        out@ == before + zero_bytes(k as nat),
                    decreases count - k,
                {
                    out.push(0u8);
                    k = k + 1;
                    assert(out@ =~= before + zero_bytes(k as nat));
                }
            } else {
                let distance: usize = lower as usize * 2;
                if distance > out.len() {
                    return Err(MeltError::InvalidBackreference);
                }
                let ghost total = copy_back(out@, distance as int, upper as nat);
                while upper > 0
                    invariant
                        2 <= distance <= out@.len(),
                        copy_back(out@, distance as int, upper as nat) == total,
                    decreases upper,
                {
                    let src: usize = out.len() - distance;
                    let b1: u8 = out[src];
                    let b2: u8 = out[src + 1];
                    out.push(b1);
                    out.push(b2);
                    upper = upper - 1;
                }
            }
        }
        flag = flag >> 1u16;
    }
}


proof fn lemma_copy_back_len(out: Seq<u8>, dist: int, n: nat)
    requires
        2 <= dist <= out.len(),
    ensures
        copy_back(out, dist, n).len() == out.len() + 2 * n,
    decreases n,
{
    if n > 0 {
        let src = out.len() - dist;
        lemma_copy_back_len(out.push(out[src]).push(out[src + 1]), dist, (n - 1) as nat);
    }
}

proof fn lemma_run_even(input: Seq<u8>, pos: nat, flag: u16, val: u16, out: Seq<u8>)
    requires
        out.len() % 2 == 0,
    ensures
        melt_run(input, pos, flag, val, out) matches Ok(o) ==> o.len() % 2 == 0,
    decreases input.len() - pos,
{
    if !(flag == 0 && pos + 2 > input.len()) {
        let p: nat = if flag == 0 { pos + 2 } else { pos };
        let v: u16 = if flag == 0 { le16(input, pos as int) } else { val };
        let f: u16 = if flag == 0 { 0x8000u16 } else { flag };
        if p + 2 <= input.len() {
            if v & f == 0 {
                lemma_run_even(input, p + 2, f >> 1u16, v, out + input.subrange(p as int, p + 2int));
            } else {
                let first: u16 = le16(input, p as int);
                let short: bool = (first >> 11u16) == 0;
                if !(short && p + 4 > input.len()) {
                    let upper: nat = if short { le16(input, p + 2int) as nat } else { (first >> 11u16) as nat };
                    let lower: nat = if short { first as nat } else { (first & 0x7ffu16) as nat };
                    let q: nat = if short { p + 4 } else { p + 2 };
                    if lower == 0 {
                        if upper != 0 {
                            lemma_run_even(input, q, f >> 1u16, v, out + zero_bytes(2 * upper));
                        }
                    } else if 2 * lower <= out.len() {
                        lemma_copy_back_len(out, (2 * lower) as int, upper);
                        lemma_run_even(input, q, f >> 1u16, v, copy_back(out, (2 * lower) as int, upper));
                    }
                }
            }
        }
    }
}

/// Every successfully decompressed output is made of whole 16-bit words:
/// its length is even.
pub proof fn lemma_meltw_output_even(input: Seq<u8>)
    ensures
        melt(input) matches Ok(o) ==> o.len() % 2 == 0,
{
    lemma_run_even(input, 0, 0, 0, Seq::empty());
}

proof fn lemma_run_extend(input: Seq<u8>, extra: Seq<u8>, pos: nat, flag: u16, val: u16, out: Seq<u8>)
    ensures
        melt_run(input, pos, flag, val, out) is Ok ==> melt_run(input + extra, pos, flag, val, out)
            == melt_run(input, pos, flag, val, out),
    decreases input.len() - pos,
{
    let big = input + extra;
    if !(flag == 0 && pos + 2 > input.len()) {
        let p: nat = if flag == 0 { pos + 2 } else { pos };
        let v: u16 = if flag == 0 { le16(input, pos as int) } else { val };
        let f: u16 = if flag == 0 { 0x8000u16 } else { flag };
        if flag == 0 {
            assert(le16(big, pos as int) == le16(input, pos as int));
        }
        if p + 2 <= input.len() {
            if v & f == 0 {
                assert(big.subrange(p as int, p + 2int) == input.subrange(p as int, p + 2int));
                lemma_run_extend(input, extra, p + 2, f >> 1u16, v, out + input.subrange(p as int, p + 2int));
            } else {
                let first: u16 = le16(input, p as int);
                assert(le16(big, p as int) == first);
                let short: bool = (first >> 11u16) == 0;
                if !(short && p + 4 > input.len()) {
                    if short {
                        assert(le16(big, p + 2int) == le16(input, p + 2int));
                    }
                    let upper: nat = if short { le16(input, p + 2int) as nat } else { (first >> 11u16) as nat };
                    let lower: nat = if short { first as nat } else { (first & 0x7ffu16) as nat };
                    let q: nat = if short { p + 4 } else { p + 2 };
                    if lower == 0 {
                        if upper != 0 {
                            lemma_run_extend(input, extra, q, f >> 1u16, v, out + zero_bytes(2 * upper));
                        }
                    } else if 2 * lower <= out.len() {
                        lemma_run_extend(input, extra, q, f >> 1u16, v, copy_back(out, (2 * lower) as int, upper));
                    }
                }
            }
        }
    }
}

/// Decompression stops at the end marker: bytes appended after a stream that
/// decompresses do not change its output.
pub proof fn lemma_meltw_ignores_trailing_bytes(input: Seq<u8>, extra: Seq<u8>)
    ensures
        melt(input) is Ok ==> melt(input + extra) == melt(input),
{
    lemma_run_extend(input, extra, 0, 0, 0, Seq::empty());
}

} // verus!
