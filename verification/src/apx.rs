//! APX textures: a 32-byte header, the mip levels one after the other, then
//! for indexed formats a colour palette per level.

use crate::bytes::{i16_at, le16, le32, sign16, u16_at, u32_at};
use crate::text::{decimal, decimal_string};
use vstd::arithmetic::div_mod::lemma_div_denominator;
use vstd::arithmetic::power2::{
    lemma2_to64, lemma_pow2_pos, lemma_pow2_strictly_increases, lemma_pow2_unfold, pow2,
};
use vstd::bits::lemma_usize_shr_is_div;
use vstd::prelude::*;

verus! {

/// The 32-byte header of an APX texture.
#[derive(Debug, Clone, Copy)]
pub struct ApxHeader {
    pub unk0: u32,
    pub palette_offset: u32,
    pub unk1: u32,
    pub bit_depth: i16,
    pub width: u16,
    pub height: u16,
    pub mip_count: u16,
    pub palette_type: u16,
    pub palette_num: u16,
    pub pad: [u8; 8],
}

/// The header fields stored in the first 32 bytes of `buf`.
pub open spec fn header_fields(h: ApxHeader, buf: Seq<u8>) -> bool {
    &&& h.unk0 == le32(buf, 0)
    &&& h.palette_offset == le32(buf, 4)
    &&& h.unk1 == le32(buf, 8)
    &&& h.bit_depth == sign16(le16(buf, 0xc))
    &&& h.width == le16(buf, 0xe)
    &&& h.height == le16(buf, 0x10)
    &&& h.mip_count == le16(buf, 0x12)
    &&& h.palette_type == le16(buf, 0x14)
    &&& h.palette_num == le16(buf, 0x16)
    &&& h.pad@ == buf.subrange(0x18, 0x20)
}

/// The bytes that one mip level of `w` by `h` pixels takes in a file.
pub open spec fn level_bytes(bit_depth: i16, w: int, h: int) -> int {
    if bit_depth == 0x20 {
        w * h * 4
    } else if bit_depth == 0x18 {
        w * h * 3
    } else if bit_depth == 0x10 {
        w * h * 2
    } else if bit_depth == 8 {
        w * h
    } else if bit_depth == 4 {
        (w * h + 1) / 2
    } else {
        0
    }
}

/// The bytes of the first `n` mip levels, the first of `w` by `h` pixels and
/// each next one half as wide and half as high, rounding down.
pub open spec fn mips_bytes(bit_depth: i16, w: nat, h: nat, n: nat) -> int
    decreases n,
{
    if n == 0 {
        0
    } else {
        level_bytes(bit_depth, w as int, h as int) + mips_bytes(bit_depth, w / 2, h / 2, (n - 1) as nat)
    }
}

/// Where mip level `level` starts: after the header and the levels before it.
pub open spec fn mip_offset_of(hdr: ApxHeader, level: nat) -> int {
    0x20 + mips_bytes(hdr.bit_depth, hdr.width as nat, hdr.height as nat, level)
}

/// The bytes of one palette of `palette_type` with `len` colours.
pub open spec fn palette_bytes(palette_type: u16, len: int) -> int {
    if palette_type == 0x20 {
        len * 4
    } else if palette_type == 0x18 {
        len * 3
    } else if palette_type == 0x10 {
        len * 2
    } else {
        0
    }
}

/// The colours of a palette: 256 for 8-bit textures, else 16.
pub open spec fn palette_len(bit_depth: i16) -> int {
    if bit_depth == 8 {
        0x100
    } else {
        0x10
    }
}

/// Where the palette of mip level `level` starts.
pub open spec fn mip_palette_offset_of(hdr: ApxHeader, level: nat) -> int {
    mip_offset_of(hdr, level) + hdr.palette_offset + level * palette_bytes(
        hdr.palette_type,
        palette_len(hdr.bit_depth),
    )
}

/// What `level_size` gives: the bytes of a decoded level (the 24-bit format
/// widened to four bytes a pixel, the 4-bit format halved rounding down).
pub open spec fn level_size_of(bit_depth: i16, w: int, h: int) -> int {
    if bit_depth == 0x20 || bit_depth == 0x18 {
        w * h * 4
    } else if bit_depth == 0x10 {
        w * h * 2
    } else if bit_depth == 8 {
        w * h
    } else if bit_depth == 4 {
        (w * h) / 2
    } else {
        0
    }
}

proof fn lemma_level_bytes_bound(bit_depth: i16, w: nat, h: nat)
    ensures
        0 <= level_bytes(bit_depth, w as int, h as int) <= 4 * (w * h),
{
    assert(0 <= w * h) by (nonlinear_arith);
    assert(w * h * 4 == 4 * (w * h)) by (nonlinear_arith);
    assert(w * h * 3 == 3 * (w * h)) by (nonlinear_arith);
    assert(w * h * 2 == 2 * (w * h)) by (nonlinear_arith);
}

proof fn lemma_mips_bytes_bound(bit_depth: i16, w: nat, h: nat, n: nat)
    ensures
        0 <= mips_bytes(bit_depth, w, h, n) <= 6 * (w * h),
    decreases n,
{
    if n > 0 {
        lemma_level_bytes_bound(bit_depth, w, h);
        lemma_mips_bytes_bound(bit_depth, w / 2, h / 2, (n - 1) as nat);
        let a = w / 2;
        let b = h / 2;
        assert(2 * a <= w && 2 * b <= h);
        assert(4 * (a * b) <= w * h) by (nonlinear_arith)
            requires
                2 * a <= w,
                2 * b <= h,
                a >= 0,
                b >= 0,
        ;
    }
}

proof fn lemma_mips_bytes_monotone(bit_depth: i16, w: nat, h: nat, n: nat)
    ensures
        mips_bytes(bit_depth, w, h, n) <= mips_bytes(bit_depth, w, h, n + 1),
    decreases n,
{
    lemma_level_bytes_bound(bit_depth, w, h);
    reveal_with_fuel(mips_bytes, 2);
    if n > 0 {
        lemma_mips_bytes_monotone(bit_depth, w / 2, h / 2, (n - 1) as nat);
    }
}

/// The mip levels together take at most six times the bytes of a
/// 32-bit-per-pixel first level.
proof fn lemma_mip_offset_bound(hdr: ApxHeader, level: nat)
    ensures
        0x20 <= mip_offset_of(hdr, level) <= 0x20 + 6 * (0xffff * 0xffff),
{
    lemma_mips_bytes_bound(hdr.bit_depth, hdr.width as nat, hdr.height as nat, level);
    let w = hdr.width as nat;
    let h = hdr.height as nat;
    assert(w * h <= 0xffff * 0xffff) by (nonlinear_arith)
        requires
            w <= 0xffff,
            h <= 0xffff,
    ;
}

/// `w` halved `n` times, rounding down each time.
pub open spec fn halved(w: nat, n: nat) -> nat
    decreases n,
{
    if n == 0 {
        w
    } else {
        halved(w / 2, (n - 1) as nat)
    }
}

proof fn lemma_halved_div(w: nat, n: nat)
    ensures
        halved(w, n) == w / pow2(n),
    decreases n,
{
    lemma_pow2_pos(n);
    if n == 0 {
        lemma2_to64();
    } else {
        lemma_halved_div(w / 2, (n - 1) as nat);
        lemma_pow2_unfold(n);
        lemma_pow2_pos((n - 1) as nat);
        lemma_div_denominator(w as int, 2, pow2((n - 1) as nat) as int);
    }
}

/// The dimension of level `level` as the reader takes it is the first
/// level's dimension halved `level` times.
proof fn lemma_mip_dim_halved(d: u16, level: nat)
    ensures
        mip_dim(d, level) == halved(d as nat, level),
{
    lemma_halved_div(d as nat, level);
    lemma2_to64();
    if level < 16 {
        lemma_usize_shr_is_div(d as usize, level as usize);
    } else {
        if level > 16 {
            lemma_pow2_strictly_increases(16, level);
        }
        assert((d as nat) / pow2(level) == 0) by {
            lemma_pow2_pos(level);
            vstd::arithmetic::div_mod::lemma_basic_div(d as int, pow2(level) as int);
        }
    }
}

proof fn lemma_mips_step(bit_depth: i16, w: nat, h: nat, n: nat)
    ensures
        mips_bytes(bit_depth, w, h, n + 1) == mips_bytes(bit_depth, w, h, n) + level_bytes(
            bit_depth,
            halved(w, n) as int,
            halved(h, n) as int,
        ),
    decreases n,
{
    reveal_with_fuel(mips_bytes, 2);
    if n > 0 {
        lemma_mips_step(bit_depth, w / 2, h / 2, (n - 1) as nat);
    }
}

/// The first mip level starts right after the 32-byte header, and each next
/// level starts where the one before ends: level `l` has `a` pixels, its
/// width times its height, each the first level's divided by `2^l`
/// rounding down (the first level's shifted right `l` times), and takes 4,
/// 3 or 2 bytes a pixel for 32-, 24- and 16-bit textures, one for 8-bit ones
/// and half a byte, rounding up, for 4-bit ones (nothing for other depths).
/// So the offsets never decrease from one level to the next.
pub proof fn lemma_mip_offset_step(hdr: ApxHeader, level: nat)
    ensures
        mip_offset_of(hdr, 0) == 0x20,
        ({
            let a = (hdr.width as nat / pow2(level)) * (hdr.height as nat / pow2(level));
            let d = hdr.bit_depth;
            mip_offset_of(hdr, level + 1) == mip_offset_of(hdr, level) + if d == 0x20 {
                4 * a
            } else if d == 0x18 {
                3 * a
            } else if d == 0x10 {
                2 * a
            } else if d == 8 {
                a
            } else if d == 4 {
                (a + 1) / 2
            } else {
                0
            }
        }),
        mip_offset_of(hdr, level) <= mip_offset_of(hdr, level + 1),
        level < 16 ==> mip_dim(hdr.width, level) == hdr.width as nat / pow2(level) && mip_dim(hdr.height, level)
            == hdr.height as nat / pow2(level),
{
    lemma_mips_step(hdr.bit_depth, hdr.width as nat, hdr.height as nat, level);
    lemma_mip_dim_halved(hdr.width, level);
    lemma_mip_dim_halved(hdr.height, level);
    lemma_halved_div(hdr.width as nat, level);
    lemma_halved_div(hdr.height as nat, level);
    let w = halved(hdr.width as nat, level);
    let h = halved(hdr.height as nat, level);
    lemma_level_bytes_bound(hdr.bit_depth, w, h);
    let a = w * h;
    assert(w * h * 4 == 4 * a && w * h * 3 == 3 * a && w * h * 2 == 2 * a) by (nonlinear_arith)
        requires
            a == w * h,
    ;
}

impl ApxHeader {
    /// Reads the header from the first 32 bytes of `buf`.
    pub fn read(buf: &[u8]) -> (h: ApxHeader)
        requires
            buf@.len() >= 0x20,
        ensures
            header_fields(h, buf@),
    {
        let pad: [u8; 8] = [buf[0x18], buf[0x19], buf[0x1a], buf[0x1b], buf[0x1c], buf[0x1d], buf[0x1e], buf[0x1f]];
        let h = ApxHeader {
            unk0: u32_at(buf, 0),
            palette_offset: u32_at(buf, 4),
            unk1: u32_at(buf, 8),
            bit_depth: i16_at(buf, 0xc),
            width: u16_at(buf, 0xe),
            height: u16_at(buf, 0x10),
            mip_count: u16_at(buf, 0x12),
            palette_type: u16_at(buf, 0x14),
            palette_num: u16_at(buf, 0x16),
            pad,
        };
        assert(h.pad@ =~= buf@.subrange(0x18, 0x20));
        h
    }

    /// The bytes of a decoded mip level of `w` by `h` pixels.
    pub fn level_size(bit_depth: i16, w: usize, h: usize) -> (r: usize)
        requires
            level_size_of(bit_depth, w as int, h as int) <= usize::MAX,
            (bit_depth == 0x20 || bit_depth == 0x18 || bit_depth == 0x10 || bit_depth == 8
                || bit_depth == 4) ==> w * h <= usize::MAX,
        ensures
            r == level_size_of(bit_depth, w as int, h as int),
    {
        if bit_depth == 0x20 || bit_depth == 0x18 {
            w * h * 4
        } else if bit_depth == 0x10 {
            w * h * 2
        } else if bit_depth == 8 {
            w * h
        } else if bit_depth == 4 {
            let n: usize = w * h;
            assert(n >> 1usize == n / 2) by (bit_vector);
            n >> 1
        } else {
            0
        }
    }

    /// Where mip level `level` starts in the file.
    pub fn mip_offset(&self, level: usize) -> (r: usize)
        requires
            mip_offset_of(*self, level as nat) <= usize::MAX,
        ensures
            r == mip_offset_of(*self, level as nat),
    {
        let mut offset: usize = 0x20;
        let mut w: usize = self.width as usize;
        let mut h: usize = self.height as usize;
        let mut k: usize = 0;
        let ghost total = mip_offset_of(*self, level as nat);
        proof {
            lemma_mip_offset_bound(*self, level as nat);
        }
        while k < level
            invariant
                k <= level,
                w <= 0xffff,
                h <= 0xffff,
                offset + mips_bytes(self.bit_depth, w as nat, h as nat, (level - k) as nat) == total,
                total <= usize::MAX,
                0 <= mips_bytes(self.bit_depth, w as nat, h as nat, (level - k) as nat),
            decreases level - k,
        {
            proof {
                lemma_level_bytes_bound(self.bit_depth, w as nat, h as nat);
                lemma_mips_bytes_bound(self.bit_depth, w as nat / 2, h as nat / 2, (level - k - 1) as nat);
                assert(w * h <= 0xffff * 0xffff) by (nonlinear_arith)
                    requires
                        w <= 0xffff,
                        h <= 0xffff,
                ;
            }
            let size: usize = if self.bit_depth == 0x20 {
                w * h * 4
            } else if self.bit_depth == 0x18 {
                w * h * 3
            } else if self.bit_depth == 0x10 {
                w * h * 2
            } else if self.bit_depth == 8 {
                w * h
            } else if self.bit_depth == 4 {
                let n: usize = w * h + 1;
                assert(n >> 1usize == n / 2) by (bit_vector);
                n >> 1
            } else {
                0
            };
            offset = offset + size;
            assert(w >> 1usize == w / 2) by (bit_vector);
            assert(h >> 1usize == h / 2) by (bit_vector);
            w = w >> 1;
            h = h >> 1;
            k = k + 1;
        }
        offset
    }

    /// `mip_offset` computed in 64 bits, where no header makes it overflow.
    fn mip_offset_wide(&self, level: usize) -> (r: u64)
        ensures
            r == mip_offset_of(*self, level as nat),
    {
        let mut offset: u64 = 0x20;
        let mut w: u64 = self.width as u64;
        let mut h: u64 = self.height as u64;
        let mut k: usize = 0;
        let ghost total = mip_offset_of(*self, level as nat);
        proof {
            lemma_mip_offset_bound(*self, level as nat);
        }
        while k < level
            invariant
                k <= level,
                w <= 0xffff,
                h <= 0xffff,
                offset + mips_bytes(self.bit_depth, w as nat, h as nat, (level - k) as nat) == total,
                total <= 0x20 + 6 * (0xffff * 0xffff),
                0 <= mips_bytes(self.bit_depth, w as nat, h as nat, (level - k) as nat),
            decreases level - k,
        {
            proof {
                lemma_level_bytes_bound(self.bit_depth, w as nat, h as nat);
                lemma_mips_bytes_bound(self.bit_depth, w as nat / 2, h as nat / 2, (level - k - 1) as nat);
                assert(w * h <= 0xffff * 0xffff) by (nonlinear_arith)
                    requires
                        w <= 0xffff,
                        h <= 0xffff,
                ;
            }
            let size: u64 = if self.bit_depth == 0x20 {
                w * h * 4
            } else if self.bit_depth == 0x18 {
                w * h * 3
            } else if self.bit_depth == 0x10 {
                w * h * 2
            } else if self.bit_depth == 8 {
                w * h
            } else if self.bit_depth == 4 {
                (w * h + 1) / 2
            } else {
                0
            };
            offset = offset + size;
            w = w / 2;
            h = h / 2;
            k = k + 1;
        }
        offset
    }

    /// Where the palette of mip level `level` starts in the file.
    pub fn mip_palette_offset(&self, level: usize) -> (r: usize)
        requires
            mip_palette_offset_of(*self, level as nat) <= usize::MAX,
        ensures
            r == mip_palette_offset_of(*self, level as nat),
    {
        let mut offset: usize = self.mip_offset(level) + self.palette_offset as usize;
        let plen: usize = if self.bit_depth == 8 {
            0x100
        } else {
            0x10
        };
        let size: usize = if self.palette_type == 0x20 {
            plen * 4
        } else if self.palette_type == 0x18 {
            plen * 3
        } else if self.palette_type == 0x10 {
            plen * 2
        } else {
            0
        };
        let mut k: usize = 0;
        while k < level
            invariant
                k <= level,
                size == palette_bytes(self.palette_type, palette_len(self.bit_depth)),
                0 <= size <= 0x400,
                offset == mip_offset_of(*self, level as nat) + self.palette_offset + k * size,
                mip_offset_of(*self, level as nat) + self.palette_offset + level * size <= usize::MAX,
            decreases level - k,
        {
            assert(k * size + size <= level * size && (k + 1) * size == k * size + size) by (nonlinear_arith)
                requires
                    k < level,
                    size >= 0,
            ;
            offset = offset + size;
            k = k + 1;
        }
        offset
    }

    /// The width and height of mip level `level`: the first level's halved
    /// `level` times, rounding down.
    pub fn mip_dims(&self, level: usize) -> (r: (usize, usize))
        requires
            level < usize::BITS,
        ensures
            r.0 == (self.width as usize) >> level,
            r.1 == (self.height as usize) >> level,
    {
        ((self.width as usize) >> level, (self.height as usize) >> level)
    }
}


/// Why a texture could not be read or decoded.
#[derive(Debug, Clone, Copy, PartialEq, Eq, Structural)]
pub enum ApxError {
    /// The buffer is shorter than the 32-byte header.
    HeaderTooSmall,
    /// The header names a bit depth that no pixel format has.
    UnknownBitDepth(i16),
    /// The raw palette type names no palette format.
    UnknownPaletteType(u16),
    /// An indexed texture with palettes whose palette type names no format.
    InvalidPaletteType(u16),
    /// The buffer ends inside a mip level of this format.
    LevelTooSmall(PixelFormat),
    /// An indexed texture without a palette.
    MissingPalette,
}

/// How the pixels of a mip level are stored.
#[derive(Debug, Clone, Copy, PartialEq, Eq, Structural)]
pub enum PixelFormat {
    Rgba32,
    Rgb24,
    Rgba5A1,
    Indexed8,
    Indexed4,
}

/// How the colours of a palette are stored.
#[derive(Debug, Clone, Copy, PartialEq, Eq, Structural)]
pub enum PaletteFormat {
    Rgba8,
    Rgb8,
    Rgba5A1,
}

/// The pixel format of a bit depth, if it has one.
pub open spec fn format_of(depth: i16) -> Option<PixelFormat> {
    if depth == 0x20 {
        Some(PixelFormat::Rgba32)
    } else if depth == 0x18 {
        Some(PixelFormat::Rgb24)
    } else if depth == 0x10 {
        Some(PixelFormat::Rgba5A1)
    } else if depth == 8 {
        Some(PixelFormat::Indexed8)
    } else if depth == 4 {
        Some(PixelFormat::Indexed4)
    } else {
        None
    }
}

/// The palette format of a raw palette type, if it has one.
pub open spec fn palette_format_of(raw: u16) -> Option<PaletteFormat> {
    if raw == 0x20 {
        Some(PaletteFormat::Rgba8)
    } else if raw == 0x18 {
        Some(PaletteFormat::Rgb8)
    } else if raw == 0x10 {
        Some(PaletteFormat::Rgba5A1)
    } else {
        None
    }
}

/// Whether pixels of `fmt` are indices into a palette.
pub open spec fn indexed(fmt: PixelFormat) -> bool {
    fmt == PixelFormat::Indexed8 || fmt == PixelFormat::Indexed4
}

/// The bytes that the pixels of a `w` by `h` level of `fmt` are kept in.
pub open spec fn buf_size_of(fmt: PixelFormat, w: int, h: int) -> int {
    match fmt {
        PixelFormat::Rgba32 | PixelFormat::Rgb24 => w * h * 4,
        PixelFormat::Rgba5A1 => w * h * 2,
        PixelFormat::Indexed8 => w * h,
        PixelFormat::Indexed4 => (w * h) / 2,
    }
}

impl ApxHeader {
    /// The pixel format of the texture.
    pub fn pixel_format(&self) -> (r: Result<PixelFormat, ApxError>)
        ensures
            match format_of(self.bit_depth) {
                Some(f) => r == Ok::<PixelFormat, ApxError>(f),
                None => r == Err::<PixelFormat, ApxError>(ApxError::UnknownBitDepth(self.bit_depth)),
            },
    {
        PixelFormat::from_bit_depth(self.bit_depth)
    }
}

impl PixelFormat {
    /// The pixel format of a bit depth.
    pub fn from_bit_depth(depth: i16) -> (r: Result<PixelFormat, ApxError>)
        ensures
            match format_of(depth) {
                Some(f) => r == Ok::<PixelFormat, ApxError>(f),
                None => r == Err::<PixelFormat, ApxError>(ApxError::UnknownBitDepth(depth)),
            },
    {
        if depth == 0x20 {
            Ok(PixelFormat::Rgba32)
        } else if depth == 0x18 {
            Ok(PixelFormat::Rgb24)
        } else if depth == 0x10 {
            Ok(PixelFormat::Rgba5A1)
        } else if depth == 8 {
            Ok(PixelFormat::Indexed8)
        } else if depth == 4 {
            Ok(PixelFormat::Indexed4)
        } else {
            Err(ApxError::UnknownBitDepth(depth))
        }
    }

    /// Whether the pixels are indices into a palette.
    pub fn is_indexed(&self) -> (r: bool)
        ensures
            r == indexed(*self),
    {
        match self {
            PixelFormat::Indexed8 | PixelFormat::Indexed4 => true,
            _ => false,
        }
    }

    /// The bytes that the pixels of a `w` by `h` level are kept in.
    pub fn get_buf_size(&self, w: usize, h: usize) -> (r: usize)
        requires
            w * h <= usize::MAX,
            buf_size_of(*self, w as int, h as int) <= usize::MAX,
        ensures
            r == buf_size_of(*self, w as int, h as int),
    {
        match self {
            PixelFormat::Rgba32 | PixelFormat::Rgb24 => w * h * 4,
            PixelFormat::Rgba5A1 => w * h * 2,
            PixelFormat::Indexed8 => w * h,
            PixelFormat::Indexed4 => {
                let n: usize = w * h;
                assert(n >> 1usize == n / 2) by (bit_vector);
                n >> 1
            },
        }
    }
}

impl PaletteFormat {
    /// The palette format of a raw palette type.
    pub fn from_raw(raw: u16) -> (r: Result<PaletteFormat, ApxError>)
        ensures
            match palette_format_of(raw) {
                Some(f) => r == Ok::<PaletteFormat, ApxError>(f),
                None => r == Err::<PaletteFormat, ApxError>(ApxError::UnknownPaletteType(raw)),
            },
    {
        if raw == 0x20 {
            Ok(PaletteFormat::Rgba8)
        } else if raw == 0x18 {
            Ok(PaletteFormat::Rgb8)
        } else if raw == 0x10 {
            Ok(PaletteFormat::Rgba5A1)
        } else {
            Err(ApxError::UnknownPaletteType(raw))
        }
    }
}

/// Where output position `p` of an unswizzled run of `total` entries takes
/// its entry from: in every whole block of 32, the third group of eight
/// trades places with the second.
pub open spec fn swizzle_source(p: int, total: int) -> int {
    if p < 32 * (total / 32) && 8 <= p % 32 < 16 {
        p + 8
    } else if p < 32 * (total / 32) && 16 <= p % 32 < 24 {
        p - 8
    } else {
        p
    }
}

/// `s` with its first `total` entries unswizzled in blocks of 32.
pub open spec fn unswizzled(s: Seq<u8>, total: int) -> Seq<u8> {
    Seq::new(s.len(), |p: int| s[swizzle_source(p, total)])
}

/// Whether the blocks of 32 among the first `total` entries lie in a buffer
/// of `len` bytes, as far as they are reached.
pub open spec fn blocks_fit(total: int, len: int) -> bool {
    32 * (total / 32) <= len + 8
}

#[verifier::spinoff_prover]
proof fn lemma_block_pos(i: int, b: int, r: int)
    requires
        i == 32 * b,
        0 <= r < 32,
        b >= 0,
    ensures
        (i + r) % 32 == r,
        (i + r) / 32 == b,
{
}

/// Unswizzles the first `total` bytes of `indices` in blocks of 32.
fn unswizzle_blocks(indices: &[u8], total: usize) -> (out: Vec<u8>)
    requires
        blocks_fit(total as int, indices@.len() as int),
    ensures
        out@ == unswizzled(indices@, total as int),
{
    let len: usize = indices.len();
    let mut out: Vec<u8> = vstd::slice::slice_to_vec(indices);
    let mut i: usize = 0;
    let ghost mut b: int = 0;
    while i <= total && total - i >= 32
        invariant
            len == indices@.len(),
            out@.len() == len,
            i == 32 * b,
            b >= 0,
            i <= 32 * (total as int / 32),
            blocks_fit(total as int, len as int),
            forall|p: int|
                0 <= p < len ==> #[trigger] out@[p] == if p < i {
                    indices@[swizzle_source(p, total as int)]
                } else {
                    indices@[p]
                },
        decreases total - i,
    {
        assert(i + 32 <= 32 * (total as int / 32));
        let mut j: usize = 0;
        while j < 8
            invariant
                len == indices@.len(),
                out@.len() == len,
                i == 32 * b,
                b >= 0,
                i + 32 <= 32 * (total as int / 32),
                i + 24 <= len,
                j <= 8,
                forall|p: int|
                    0 <= p < len ==> #[trigger] out@[p] == if p < i {
                        indices@[swizzle_source(p, total as int)]
                    } else if i + 8 <= p < i + 8 + j {
                        indices@[p + 8]
                    } else if i + 16 <= p < i + 16 + j {
                        indices@[p - 8]
                    } else {
                        indices@[p]
                    },
            decreases 8 - j,
        {
            out.set(i + 8 + j, indices[i + 16 + j]);
            out.set(i + 16 + j, indices[i + 8 + j]);
            j = j + 1;
        }
        assert forall|p: int| 0 <= p < len implies #[trigger] out@[p] == if p < i + 32 {
            indices@[swizzle_source(p, total as int)]
        } else {
            indices@[p]
        } by {
            if i <= p < i + 32 {
                lemma_block_pos(i as int, b, p - i);
            }
        }
        i = i + 32;
        proof {
            b = b + 1;
        }
    }
    assert(out@ =~= unswizzled(indices@, total as int)) by {
        assert forall|p: int| 0 <= p < len implies out@[p] == unswizzled(indices@, total as int)[p] by {
            if i <= p {
                assert(p >= 32 * (total as int / 32));
            }
        }
    }
    out
}

/// Unswizzles the indices of an 8-bit indexed level of `width` by `height`
/// pixels: in every whole block of 32 pixels, the second and third groups of
/// eight trade places.
pub fn unswizzle_indices8(indices: &[u8], width: usize, height: usize) -> (out: Vec<u8>)
    requires
        width * height <= usize::MAX,
        blocks_fit(width * height, indices@.len() as int),
    ensures
        out@ == unswizzled(indices@, width * height),
{
    let total: usize = width * height;
    unswizzle_blocks(indices, total)
}

/// Unswizzles the bytes of a 4-bit indexed level of `width` by `height`
/// pixels (two pixels a byte), in blocks of 32 bytes as for 8-bit levels.
pub fn unswizzle_indices4(indices: &[u8], width: usize, height: usize) -> (out: Vec<u8>)
    requires
        width * height <= usize::MAX,
        blocks_fit((width * height) / 2, indices@.len() as int),
    ensures
        out@ == unswizzled(indices@, (width * height) / 2),
{
    let total_bytes: usize = (width * height) / 2;
    unswizzle_blocks(indices, total_bytes)
}


#[verifier::spinoff_prover]
proof fn lemma_swizzle_source_involution(p: int, total: int, len: int)
    requires
        blocks_fit(total, len),
        0 <= p < len,
    ensures
        0 <= swizzle_source(p, total) < len,
        swizzle_source(swizzle_source(p, total), total) == p,
{
    let b = p / 32;
    let r = p % 32;
    assert(p == 32 * b + r);
    if p < 32 * (total / 32) && 8 <= r < 16 {
        lemma_block_pos(32 * b, b, r + 8);
        assert(p + 8 < 32 * (total / 32));
    } else if p < 32 * (total / 32) && 16 <= r < 24 {
        lemma_block_pos(32 * b, b, r - 8);
    }
}

/// Unswizzling `total` indices works block by block: in every whole block
/// of 32 the bytes 8 to 15 and 16 to 23 trade places and the others stay;
/// the bytes after the last whole block stay as they are.
pub proof fn lemma_unswizzle_swaps_middle_groups(s: Seq<u8>, total: int)
    requires
        0 <= total,
        blocks_fit(total, s.len() as int),
    ensures
        unswizzled(s, total).len() == s.len(),
        forall|b: int, j: int|
            0 <= b < total / 32 && 0 <= j < 8 ==> {
                &&& #[trigger] unswizzled(s, total)[32 * b + 8 + j] == s[32 * b + 16 + j]
                &&& unswizzled(s, total)[32 * b + 16 + j] == s[32 * b + 8 + j]
                &&& unswizzled(s, total)[32 * b + j] == s[32 * b + j]
                &&& 32 * b + 24 + j < s.len() ==> unswizzled(s, total)[32 * b + 24 + j] == s[32 * b + 24 + j]
            },
        forall|p: int| 32 * (total / 32) <= p < s.len() ==> #[trigger] unswizzled(s, total)[p] == s[p],
{
    let o = unswizzled(s, total);
    assert forall|b: int, j: int| 0 <= b < total / 32 && 0 <= j < 8 implies {
        &&& #[trigger] o[32 * b + 8 + j] == s[32 * b + 16 + j]
        &&& o[32 * b + 16 + j] == s[32 * b + 8 + j]
        &&& o[32 * b + j] == s[32 * b + j]
        &&& 32 * b + 24 + j < s.len() ==> o[32 * b + 24 + j] == s[32 * b + 24 + j]
    } by {
        lemma_block_pos(32 * b, b, 8 + j);
        lemma_block_pos(32 * b, b, 16 + j);
        lemma_block_pos(32 * b, b, j);
        lemma_block_pos(32 * b, b, 24 + j);
        assert(32 * b + 32 <= 32 * (total / 32));
    }
}

/// Unswizzling a colour table of 256 four-byte colours moves whole colours:
/// colour `k` of the result is colour `clut_colour(k)` of the table, so in
/// every block of 32 colours the groups 8 to 15 and 16 to 23 trade places.
/// A table of any other length is left as it is.
pub proof fn lemma_clut_moves_colours(pal: Seq<u8>)
    ensures
        pal.len() != 1024 ==> clut_unswizzled(pal) == pal,
        pal.len() == 1024 ==> clut_unswizzled(pal).len() == 1024 && forall|k: int, c: int|
            0 <= k < 256 && 0 <= c < 4 ==> #[trigger] clut_unswizzled(pal)[4 * k + c] == pal[4 * clut_colour(k) + c],
{
    if pal.len() == 1024 {
        assert forall|k: int, c: int| 0 <= k < 256 && 0 <= c < 4 implies #[trigger] clut_unswizzled(pal)[4 * k
            + c] == pal[4 * clut_colour(k) + c] by {
            assert((4 * k + c) / 4 == k && (4 * k + c) % 4 == c);
            assert(swizzle_source(k, 256) == clut_colour(k));
        }
    }
}

/// Unswizzling is its own inverse: unswizzling twice with the same count
/// gives back the bytes it started from.
pub proof fn lemma_unswizzle_involution(s: Seq<u8>, total: int)
    requires
        blocks_fit(total, s.len() as int),
    ensures
        unswizzled(unswizzled(s, total), total) == s,
{
    let once = unswizzled(s, total);
    assert forall|p: int| 0 <= p < s.len() implies unswizzled(once, total)[p] == s[p] by {
        lemma_swizzle_source_involution(p, total, s.len() as int);
    }
    assert(unswizzled(once, total) =~= s);
}

/// A 1024-byte palette (256 four-byte colours) unswizzled as the PS2 stores
/// it: in each block of 32 colours the second and third groups of eight
/// trade places. Palettes of other sizes are left as they are.
pub open spec fn clut_unswizzled(pal: Seq<u8>) -> Seq<u8> {
    if pal.len() != 1024 {
        pal
    } else {
        Seq::new(1024, |p: int| pal[4 * swizzle_source(p / 4, 256) + p % 4])
    }
}

/// Unswizzles a PS2 colour lookup table of 256 four-byte colours; a palette
/// of another size comes back unchanged.
pub fn unswizzle_ps2_clut(palette: &[u8]) -> (out: Vec<u8>)
    ensures
        out@ == clut_unswizzled(palette@),
{
    let mut out: Vec<u8> = vstd::slice::slice_to_vec(palette);
    if palette.len() != 1024 {
        return out;
    }
    let mut block: usize = 0;
    while block < 8
        invariant
            palette@.len() == 1024,
            out@.len() == 1024,
            block <= 8,
            forall|q: int, c: int|
                0 <= q < 256 && 0 <= c < 4 ==> #[trigger] out@[4 * q + c] == if q < 32 * block {
                    palette@[4 * swizzle_source(q, 256) + c]
                } else {
                    palette@[4 * q + c]
                },
        decreases 8 - block,
    {
        let base: usize = block * 32;
        let mut j: usize = 0;
        while j < 8
            invariant
                palette@.len() == 1024,
                out@.len() == 1024,
                block < 8,
                base == block * 32,
                j <= 8,
                forall|q: int, c: int|
                    0 <= q < 256 && 0 <= c < 4 ==> #[trigger] out@[4 * q + c] == if q < base {
                        palette@[4 * swizzle_source(q, 256) + c]
                    } else if base + 8 <= q < base + 8 + j {
                        palette@[4 * (q + 8) + c]
                    } else if base + 16 <= q < base + 16 + j {
                        palette@[4 * (q - 8) + c]
                    } else {
                        palette@[4 * q + c]
                    },
            decreases 8 - j,
        {
            let idx1: usize = (base + 8 + j) * 4;
            let idx2: usize = (base + 16 + j) * 4;
            let ghost before = out@;
            out.set(idx1, palette[idx2]);
            out.set(idx1 + 1, palette[idx2 + 1]);
            out.set(idx1 + 2, palette[idx2 + 2]);
            out.set(idx1 + 3, palette[idx2 + 3]);
            out.set(idx2, palette[idx1]);
            out.set(idx2 + 1, palette[idx1 + 1]);
            out.set(idx2 + 2, palette[idx1 + 2]);
            out.set(idx2 + 3, palette[idx1 + 3]);
            assert forall|q: int, c: int| 0 <= q < 256 && 0 <= c < 4 implies #[trigger] out@[4 * q
                + c] == if q < base {
                palette@[4 * swizzle_source(q, 256) + c]
            } else if base + 8 <= q < base + 8 + j + 1 {
                palette@[4 * (q + 8) + c]
            } else if base + 16 <= q < base + 16 + j + 1 {
                palette@[4 * (q - 8) + c]
            } else {
                palette@[4 * q + c]
            } by {
                if q == base + 8 + j || q == base + 16 + j {
                } else {
                    assert(out@[4 * q + c] == before[4 * q + c]);
                }
            }
            j = j + 1;
        }
        assert forall|q: int, c: int| 0 <= q < 256 && 0 <= c < 4 implies #[trigger] out@[4 * q + c]
            == if q < 32 * (block + 1) {
            palette@[4 * swizzle_source(q, 256) + c]
        } else {
            palette@[4 * q + c]
        } by {
            if base <= q < base + 32 {
                lemma_block_pos(base as int, block as int, q - base);
            }
        }
        block = block + 1;
    }
    assert forall|p: int| 0 <= p < 1024 implies out@[p] == clut_unswizzled(palette@)[p] by {
        let q = p / 4;
        let c = p % 4;
        assert(p == 4 * q + c);
        assert(out@[4 * q + c] == palette@[4 * swizzle_source(q, 256) + c]);
    }
    assert(out@ =~= clut_unswizzled(palette@));
    out
}

/// Unswizzling a colour table is its own inverse.
pub proof fn lemma_clut_involution(pal: Seq<u8>)
    ensures
        clut_unswizzled(clut_unswizzled(pal)) == pal,
{
    if pal.len() == 1024 {
        let once = clut_unswizzled(pal);
        assert forall|p: int| 0 <= p < 1024 implies clut_unswizzled(once)[p] == pal[p] by {
            let q = p / 4;
            let c = p % 4;
            lemma_swizzle_source_involution(q, 256, 256);
            let q2 = swizzle_source(q, 256);
            let p2 = 4 * q2 + c;
            assert(p2 / 4 == q2 && p2 % 4 == c);
            assert(once[p2] == pal[4 * swizzle_source(q2, 256) + c]);
            assert(p == 4 * q + c);
        }
        assert(clut_unswizzled(once) =~= pal);
    }
}


/// The pixels of a mip level as `get_mipmap_pixels` takes them from `buf`:
/// the level's bytes from `off`, unswizzled for indexed formats when asked.
pub open spec fn mip_pixels(buf: Seq<u8>, off: int, w: int, h: int, fmt: PixelFormat, swizzle: bool) -> Result<
    Seq<u8>,
    ApxError,
> {
    let need = buf_size_of(fmt, w, h);
    if buf.len() < off + need {
        Err(ApxError::LevelTooSmall(fmt))
    } else {
        let raw = buf.subrange(off, off + need);
        if swizzle && fmt == PixelFormat::Indexed8 {
            Ok(unswizzled(raw, w * h))
        } else if swizzle && fmt == PixelFormat::Indexed4 {
            Ok(unswizzled(raw, (w * h) / 2))
        } else {
            Ok(raw)
        }
    }
}

/// Takes the pixels of a `w` by `h` mip level of format `fmt` that starts
/// at byte `off` of `buf`.
pub fn get_mipmap_pixels(
    buf: &[u8],
    off: usize,
    w: usize,
    h: usize,
    fmt: PixelFormat,
    apply_index_swizzle: bool,
) -> (r: Result<Vec<u8>, ApxError>)
    requires
        w * h <= usize::MAX,
        off + buf_size_of(fmt, w as int, h as int) <= usize::MAX,
    ensures
        match (r, mip_pixels(buf@, off as int, w as int, h as int, fmt, apply_index_swizzle)) {
            (Ok(o), Ok(s)) => o@ == s,
            (Err(e), Err(s)) => e == s,
            _ => false,
        },
{
    proof {
        assert(0 <= w * h) by (nonlinear_arith);
    }
    let need: usize = fmt.get_buf_size(w, h);
    if buf.len() < off + need {
        return Err(ApxError::LevelTooSmall(fmt));
    }
    let raw: &[u8] = &buf[off..off + need];
    match fmt {
        PixelFormat::Rgba32 => {
            let mut out: Vec<u8> = vstd::slice::slice_to_vec(raw);
            let n: usize = w * h;
            let mut i: usize = 0;
            while i < n
                invariant
                    n == w * h,
                    need == n * 4,
                    raw@.len() == need,
                    out@ == raw@,
                    i <= n,
                decreases n - i,
            {
                out.set(i * 4, raw[i * 4]);
                out.set(i * 4 + 1, raw[i * 4 + 1]);
                out.set(i * 4 + 2, raw[i * 4 + 2]);
                out.set(i * 4 + 3, raw[i * 4 + 3]);
                i = i + 1;
            }
            Ok(out)
        },
        PixelFormat::Rgb24 | PixelFormat::Rgba5A1 => Ok(vstd::slice::slice_to_vec(raw)),
        PixelFormat::Indexed8 => {
            if apply_index_swizzle {
                Ok(unswizzle_indices8(raw, w, h))
            } else {
                Ok(vstd::slice::slice_to_vec(raw))
            }
        },
        PixelFormat::Indexed4 => {
            if apply_index_swizzle {
                Ok(unswizzle_indices4(raw, w, h))
            } else {
                Ok(vstd::slice::slice_to_vec(raw))
            }
        },
    }
}

/// A 5-bit channel widened to 8 bits, its top bits repeated below.
pub open spec fn expand5(v: int) -> int {
    v * 8 + v / 4
}

/// Channel `c` (red, green, blue, alpha) of the 16-bit little-endian
/// A1B5G5R5 colour stored in `lo`, `hi`, widened to 8 bits.
pub open spec fn rgba5551_channel(lo: u8, hi: u8, c: int) -> u8 {
    let px = lo as int + 256 * (hi as int);
    if c == 0 {
        expand5(px % 32) as u8
    } else if c == 1 {
        expand5((px / 32) % 32) as u8
    } else if c == 2 {
        expand5((px / 1024) % 32) as u8
    } else if px / 32768 == 1 {
        255u8
    } else {
        0u8
    }
}

/// Widens a 16-bit A1B5G5R5 colour to four 8-bit channels.
fn rgba5551(lo: u8, hi: u8) -> (r: (u8, u8, u8, u8))
    ensures
        r.0 == rgba5551_channel(lo, hi, 0),
        r.1 == rgba5551_channel(lo, hi, 1),
        r.2 == rgba5551_channel(lo, hi, 2),
        r.3 == rgba5551_channel(lo, hi, 3),
{
    let px: u16 = lo as u16 + (hi as u16) * 256;
    let r5: u8 = (px & 0x1f) as u8;
    let g5: u8 = ((px >> 5u16) & 0x1f) as u8;
    let b5: u8 = ((px >> 10u16) & 0x1f) as u8;
    let a1: u16 = (px >> 15u16) & 1;
    assert(px & 0x1f == px % 32) by (bit_vector);
    assert((px >> 5u16) & 0x1f == (px / 32) % 32) by (bit_vector);
    assert((px >> 10u16) & 0x1f == (px / 1024) % 32) by (bit_vector);
    assert((px >> 15u16) & 1 == px / 32768) by (bit_vector);
    assert(forall|v: u8| v < 32 ==> #[trigger] ((v << 3u8) | (v >> 2u8)) == v * 8 + v / 4) by (bit_vector);
    let r: u8 = (r5 << 3u8) | (r5 >> 2u8);
    let g: u8 = (g5 << 3u8) | (g5 >> 2u8);
    let b: u8 = (b5 << 3u8) | (b5 >> 2u8);
    let a: u8 = if a1 == 1 {
        255
    } else {
        0
    };
    (r, g, b, a)
}

/// The colours of a palette of `palette_format` as four-byte RGBA colours.
pub open spec fn palette_rgba(palette_format: PaletteFormat, buf: Seq<u8>) -> Seq<u8> {
    match palette_format {
        PaletteFormat::Rgba8 => buf,
        PaletteFormat::Rgb8 => Seq::new(
            (4 * (buf.len() / 3)) as nat,
            |p: int|
                if p % 4 == 3 {
                    0xffu8
                } else {
                    buf[p]
                },
        ),
        PaletteFormat::Rgba5A1 => Seq::new(
            (4 * (buf.len() / 2)) as nat,
            |p: int| rgba5551_channel(buf[2 * (p / 4)], buf[2 * (p / 4) + 1], p % 4),
        ),
    }
}

/// Whether decoding a palette stays inside it and its output fits in
/// memory: for 24-bit palettes colour `i` is read from bytes `4 i` to
/// `4 i + 2`, past the end of all but the shortest palettes.
pub open spec fn palette_decodes(palette_format: PaletteFormat, len: int) -> bool {
    &&& palette_format == PaletteFormat::Rgb8 ==> (len / 3 == 0 || 4 * (len / 3) <= len + 1)
    &&& palette_format == PaletteFormat::Rgba5A1 ==> 4 * (len / 2) <= usize::MAX
}

/// Decodes a palette into four-byte RGBA colours.
pub fn decode_palette_rgba(palette_format: PaletteFormat, buf: &[u8]) -> (r: Result<Vec<u8>, ApxError>)
    requires
        palette_decodes(palette_format, buf@.len() as int),
    ensures
        r matches Ok(o) && o@ == palette_rgba(palette_format, buf@),
{
    match palette_format {
        PaletteFormat::Rgba8 => Ok(vstd::slice::slice_to_vec(buf)),
        PaletteFormat::Rgb8 => {
            let len: usize = buf.len() / 3;
            let mut out: Vec<u8> = vec![0u8; len * 4];
            let mut i: usize = 0;
            while i < len
                invariant
                    len == buf@.len() / 3,
                    len == 0 || 4 * len <= buf@.len() + 1,
                    out@.len() == len * 4,
                    i <= len,
                    forall|p: int|
                        0 <= p < 4 * i ==> #[trigger] out@[p] == palette_rgba(palette_format, buf@)[p],
                    palette_format == PaletteFormat::Rgb8,
                decreases len - i,
            {
                out.set(i * 4, buf[i * 4]);
                out.set(i * 4 + 1, buf[i * 4 + 1]);
                out.set(i * 4 + 2, buf[i * 4 + 2]);
                out.set(i * 4 + 3, 0xff);
                assert forall|p: int| 0 <= p < 4 * (i + 1) implies #[trigger] out@[p] == palette_rgba(
                    palette_format,
                    buf@,
                )[p] by {
                    if p >= 4 * i {
                        assert(p % 4 == p - 4 * i);
                    }
                }
                i = i + 1;
            }
            assert(out@ =~= palette_rgba(palette_format, buf@));
            Ok(out)
        },
        PaletteFormat::Rgba5A1 => {
            let len: usize = buf.len() / 2;
            let mut out: Vec<u8> = vec![0u8; len * 4];
            let mut i: usize = 0;
            while i < len
                invariant
                    len == buf@.len() / 2,
                    4 * len <= usize::MAX,
                    out@.len() == len * 4,
                    i <= len,
                    forall|p: int|
                        0 <= p < 4 * i ==> #[trigger] out@[p] == palette_rgba(palette_format, buf@)[p],
                    palette_format == PaletteFormat::Rgba5A1,
                decreases len - i,
            {
                let (r, g, b, a) = rgba5551(buf[i * 2], buf[i * 2 + 1]);
                out.set(i * 4, r);
                out.set(i * 4 + 1, g);
                out.set(i * 4 + 2, b);
                out.set(i * 4 + 3, a);
                assert forall|p: int| 0 <= p < 4 * (i + 1) implies #[trigger] out@[p] == palette_rgba(
                    palette_format,
                    buf@,
                )[p] by {
                    if p >= 4 * i {
                        assert(p % 4 == p - 4 * i);
                        assert(p / 4 == i);
                    }
                }
                i = i + 1;
            }
            assert(out@ =~= palette_rgba(palette_format, buf@));
            Ok(out)
        },
    }
}


/// One mip level of a texture.
#[derive(Debug, Clone)]
pub struct Mipmap {
    pub width: u32,
    pub height: u32,
    pub pixels: Vec<u8>,
}

/// A mip level as values.
pub struct MipmapView {
    pub width: u32,
    pub height: u32,
    pub pixels: Seq<u8>,
}

impl View for Mipmap {
    type V = MipmapView;

    open spec fn view(&self) -> MipmapView {
        MipmapView { width: self.width, height: self.height, pixels: self.pixels@ }
    }
}

/// A texture read from an APX file.
#[derive(Debug, Clone)]
pub struct Texture {
    pub bit_depth: i16,
    pub width: u32,
    pub height: u32,
    pub format: PixelFormat,
    pub mipmaps: Vec<Mipmap>,
    pub palette_type: Option<PaletteFormat>,
    pub palette: Option<Vec<u8>>,
}

/// A texture as values.
pub struct TextureView {
    pub bit_depth: i16,
    pub width: u32,
    pub height: u32,
    pub format: PixelFormat,
    pub mipmaps: Seq<MipmapView>,
    pub palette_type: Option<PaletteFormat>,
    pub palette: Option<Seq<u8>>,
}

impl View for Texture {
    type V = TextureView;

    open spec fn view(&self) -> TextureView {
        TextureView {
            bit_depth: self.bit_depth,
            width: self.width,
            height: self.height,
            format: self.format,
            mipmaps: self.mipmaps@.map_values(|m: Mipmap| m@),
            palette_type: self.palette_type,
            palette: match self.palette {
                Some(p) => Some(p@),
                None => None,
            },
        }
    }
}

/// The palette of `t` as four-byte RGBA colours, where it has one: an indexed
/// texture's 24-bit palette is also unswizzled as a PS2 colour table.
pub open spec fn decoded_palette(t: TextureView) -> Option<Seq<u8>> {
    match (t.palette_type, t.palette) {
        (Some(pt), Some(p)) => {
            let d = palette_rgba(pt, p);
            Some(
                if indexed(t.format) && pt == PaletteFormat::Rgb8 {
                    clut_unswizzled(d)
                } else {
                    d
                },
            )
        },
        _ => None,
    }
}

/// The low (`k` = 0) or high (`k` = 1) four bits of `b`.
pub open spec fn nibble(b: u8, k: int) -> int {
    if k == 0 {
        b as int % 16
    } else {
        b as int / 16
    }
}

/// The pixels of level `level` of `t` as four-byte RGBA colours.
pub open spec fn rgba_of(t: TextureView, level: int) -> Result<Seq<u8>, ApxError> {
    let m = t.mipmaps[level];
    let n = m.width * m.height;
    let src = m.pixels;
    match t.format {
        PixelFormat::Rgba32 => Ok(src),
        PixelFormat::Rgb24 => Ok(
            Seq::new(
                (4 * n) as nat,
                |p: int|
                    if p % 4 == 3 {
                        0xffu8
                    } else {
                        src[p]
                    },
            ),
        ),
        PixelFormat::Rgba5A1 => Ok(
            Seq::new(
                (4 * n) as nat,
                |p: int| rgba5551_channel(src[2 * (p / 4)], src[2 * (p / 4) + 1], p % 4),
            ),
        ),
        PixelFormat::Indexed8 => match decoded_palette(t) {
            None => Err(ApxError::MissingPalette),
            Some(pal) => Ok(Seq::new((4 * n) as nat, |p: int| pal[4 * src[p / 4] + p % 4])),
        },
        PixelFormat::Indexed4 => match decoded_palette(t) {
            None => Err(ApxError::MissingPalette),
            Some(pal) => Ok(
                Seq::new(
                    (4 * n) as nat,
                    |p: int|
                        if p < 8 * (n / 2) {
                            pal[4 * nibble(src[p / 8], (p / 4) % 2) + p % 4]
                        } else {
                            0u8
                        },
                ),
            ),
        },
    }
}

/// Whether decoding level `level` of `t` stays inside its buffers: the level
/// exists, the palette decodes, the level holds the pixels that its size
/// calls for, every index names a colour of the palette, and the output fits
/// in memory.
pub open spec fn decodes(t: TextureView, level: int) -> bool {
    &&& 0 <= level < t.mipmaps.len()
    &&& ((t.palette_type, t.palette) matches (Some(pt), Some(p)) ==> palette_decodes(
        pt,
        p.len() as int,
    ))
    &&& {
        let m = t.mipmaps[level];
        let n = m.width * m.height;
        let src = m.pixels;
        match t.format {
            PixelFormat::Rgba32 => true,
            PixelFormat::Rgb24 => 4 * n <= usize::MAX && (n == 0 || 4 * n - 1 <= src.len()),
            PixelFormat::Rgba5A1 => 4 * n <= usize::MAX && 2 * n <= src.len(),
            PixelFormat::Indexed8 => decoded_palette(t) matches Some(pal) ==> {
                &&& 4 * n <= usize::MAX
                &&& n <= src.len()
                &&& forall|i: int| 0 <= i < n ==> 4 * (#[trigger] src[i]) + 4 <= pal.len()
            },
            PixelFormat::Indexed4 => decoded_palette(t) matches Some(pal) ==> {
                &&& 4 * n <= usize::MAX
                &&& n / 2 <= src.len()
                &&& forall|i: int|
                    0 <= i < n / 2 ==> 4 * nibble(#[trigger] src[i], 0) + 4 <= pal.len() && 4
                        * nibble(src[i], 1) + 4 <= pal.len()
            },
        }
    }
}

/// Channel `c` (red, green, blue, alpha) of the 16-bit colour `px` (red in
/// the low five bits, then green, blue, and alpha in the top bit), each
/// five-bit channel widened to eight bits by repeating its top bits.
pub open spec fn channel_5551(px: int, c: int) -> int {
    let v = if c == 0 {
        px % 32
    } else if c == 1 {
        (px / 32) % 32
    } else {
        (px / 1024) % 32
    };
    if c == 3 {
        if px >= 32768 {
            255
        } else {
            0
        }
    } else {
        v * 8 + v / 4
    }
}

/// Decoding a palette: a 32-bit palette is its bytes; a 24-bit palette of
/// `len` bytes gives `len / 3` colours, colour `k` taking red, green and
/// blue from the bytes `4 k` to `4 k + 2` and an opaque alpha; a 16-bit
/// palette gives `len / 2` colours, colour `k` widened from the
/// little-endian bytes `2 k`, `2 k + 1`.
pub proof fn lemma_palette_formats(buf: Seq<u8>)
    ensures
        palette_rgba(PaletteFormat::Rgba8, buf) == buf,
        palette_rgba(PaletteFormat::Rgb8, buf).len() == 4 * (buf.len() / 3),
        forall|k: int, c: int|
            0 <= k < buf.len() / 3 && 0 <= c < 4 ==> #[trigger] palette_rgba(PaletteFormat::Rgb8, buf)[4 * k + c]
                == if c == 3 {
                0xffu8
            } else {
                buf[4 * k + c]
            },
        palette_rgba(PaletteFormat::Rgba5A1, buf).len() == 4 * (buf.len() / 2),
        forall|k: int, c: int|
            0 <= k < buf.len() / 2 && 0 <= c < 4 ==> #[trigger] palette_rgba(PaletteFormat::Rgba5A1, buf)[4 * k
                + c] == channel_5551(buf[2 * k] + 256 * buf[2 * k + 1], c),
{
    assert forall|k: int, c: int| 0 <= k < buf.len() / 2 && 0 <= c < 4 implies #[trigger] palette_rgba(
        PaletteFormat::Rgba5A1,
        buf,
    )[4 * k + c] == channel_5551(buf[2 * k] + 256 * buf[2 * k + 1], c) by {
        assert((4 * k + c) / 4 == k && (4 * k + c) % 4 == c);
    }
    assert forall|k: int, c: int| 0 <= k < buf.len() / 3 && 0 <= c < 4 implies #[trigger] palette_rgba(
        PaletteFormat::Rgb8,
        buf,
    )[4 * k + c] == if c == 3 {
        0xffu8
    } else {
        buf[4 * k + c]
    } by {
        assert((4 * k + c) % 4 == c);
    }
}

/// Decoding a level of a direct-colour format: 32-bit pixels are handed out
/// as they are stored; a 24-bit level keeps the first three of the four
/// bytes kept per pixel and makes alpha opaque; a 16-bit level widens each
/// little-endian pixel to four channels.
pub proof fn lemma_direct_formats(t: TextureView, level: int)
    requires
        0 <= level < t.mipmaps.len(),
    ensures
        ({
            let m = t.mipmaps[level];
            let n = m.width * m.height;
            let src = m.pixels;
            let o = rgba_of(t, level)->Ok_0;
            &&& t.format == PixelFormat::Rgba32 ==> rgba_of(t, level) == Ok::<Seq<u8>, ApxError>(src)
            &&& t.format == PixelFormat::Rgb24 ==> {
                &&& rgba_of(t, level) is Ok
                &&& o.len() == 4 * n
                &&& forall|i: int, c: int|
                    0 <= i < n && 0 <= c < 4 ==> #[trigger] o[4 * i + c] == if c == 3 {
                        0xffu8
                    } else {
                        src[4 * i + c]
                    }
            }
            &&& t.format == PixelFormat::Rgba5A1 ==> {
                &&& rgba_of(t, level) is Ok
                &&& o.len() == 4 * n
                &&& forall|i: int, c: int|
                    0 <= i < n && 0 <= c < 4 ==> #[trigger] o[4 * i + c] == channel_5551(
                        src[2 * i] + 256 * src[2 * i + 1],
                        c,
                    )
            }
        }),
{
    let m = t.mipmaps[level];
    let n = m.width * m.height;
    let src = m.pixels;
    let o = rgba_of(t, level)->Ok_0;
    assert(0 <= n) by (nonlinear_arith)
        requires
            n == m.width * m.height,
    ;
    if t.format == PixelFormat::Rgb24 {
        assert forall|i: int, c: int| 0 <= i < n && 0 <= c < 4 implies #[trigger] o[4 * i + c] == if c == 3 {
            0xffu8
        } else {
            src[4 * i + c]
        } by {
            assert((4 * i + c) % 4 == c);
        }
    }
    if t.format == PixelFormat::Rgba5A1 {
        assert forall|i: int, c: int| 0 <= i < n && 0 <= c < 4 implies #[trigger] o[4 * i + c] == channel_5551(
            src[2 * i] + 256 * src[2 * i + 1],
            c,
        ) by {
            assert((4 * i + c) / 4 == i && (4 * i + c) % 4 == c);
        }
    }
}

/// Channel `c` of colour `k` of a palette stored as `p` in format `pt`
/// (32-bit or 16-bit): read straight from the colour's bytes.
pub open spec fn stored_colour(pt: PaletteFormat, p: Seq<u8>, k: int, c: int) -> int {
    if pt == PaletteFormat::Rgba8 {
        p[4 * k + c] as int
    } else {
        channel_5551(p[2 * k] + 256 * p[2 * k + 1], c)
    }
}

/// Whether colour `k` lies in a palette stored as `p` in format `pt`.
pub open spec fn colour_in(pt: PaletteFormat, p: Seq<u8>, k: int) -> bool {
    if pt == PaletteFormat::Rgba8 {
        0 <= k && 4 * k + 4 <= p.len()
    } else {
        0 <= k && 2 * k + 2 <= p.len()
    }
}

/// Decoding an indexed level with a 32-bit or 16-bit palette looks every
/// index up in the palette as stored, with no reordering of its colours:
/// the four bytes of pixel `i` of an 8-bit level are the channels of colour
/// `src[i]`; byte `i` of a 4-bit level gives two pixels, the colour of its
/// low four bits then that of its high four bits.
pub proof fn lemma_palette_colours_as_stored(t: TextureView, level: int)
    requires
        0 <= level < t.mipmaps.len(),
        indexed(t.format),
        t.palette_type == Some(PaletteFormat::Rgba8) || t.palette_type == Some(PaletteFormat::Rgba5A1),
        t.palette is Some,
    ensures
        ({
            let m = t.mipmaps[level];
            let n = m.width * m.height;
            let src = m.pixels;
            let p = t.palette->Some_0;
            let pt = t.palette_type->Some_0;
            let o = rgba_of(t, level)->Ok_0;
            &&& rgba_of(t, level) is Ok
            &&& o.len() == 4 * n
            &&& t.format == PixelFormat::Indexed8 ==> forall|i: int, c: int|
                0 <= i < n && 0 <= c < 4 && colour_in(pt, p, src[i] as int) ==> #[trigger] o[4 * i + c]
                    == stored_colour(pt, p, src[i] as int, c)
            &&& t.format == PixelFormat::Indexed4 ==> forall|i: int, c: int|
                0 <= i < n / 2 && 0 <= c < 4 ==> (colour_in(pt, p, src[i] as int % 16) ==> #[trigger] o[8
                    * i + c] == stored_colour(pt, p, src[i] as int % 16, c)) && (colour_in(
                    pt,
                    p,
                    src[i] as int / 16,
                ) ==> o[8 * i + 4 + c] == stored_colour(pt, p, src[i] as int / 16, c))
        }),
{
    let m = t.mipmaps[level];
    let n = m.width * m.height;
    let src = m.pixels;
    let p = t.palette->Some_0;
    let pt = t.palette_type->Some_0;
    let pal = palette_rgba(pt, p);
    assert(decoded_palette(t) == Some(pal));
    let o = rgba_of(t, level)->Ok_0;
    assert(0 <= n) by (nonlinear_arith)
        requires
            n == m.width * m.height,
    ;
    if t.format == PixelFormat::Indexed8 {
        assert forall|i: int, c: int|
            0 <= i < n && 0 <= c < 4 && colour_in(pt, p, src[i] as int) implies #[trigger] o[4 * i + c]
            == stored_colour(pt, p, src[i] as int, c) by {
            let q = 4 * i + c;
            assert(q / 4 == i && q % 4 == c);
            let k = src[i] as int;
            assert((4 * k + c) / 4 == k && (4 * k + c) % 4 == c);
        }
    } else {
        assert forall|i: int, c: int| 0 <= i < n / 2 && 0 <= c < 4 implies (colour_in(pt, p, src[i] as int % 16)
            ==> #[trigger] o[8 * i + c] == stored_colour(pt, p, src[i] as int % 16, c)) && (colour_in(
            pt,
            p,
            src[i] as int / 16,
        ) ==> o[8 * i + 4 + c] == stored_colour(pt, p, src[i] as int / 16, c)) by {
            let q1 = 8 * i + c;
            let q2 = 8 * i + 4 + c;
            assert(q1 / 8 == i && (q1 / 4) % 2 == 0 && q1 % 4 == c);
            assert(q2 / 8 == i && (q2 / 4) % 2 == 1 && q2 % 4 == c);
            assert(q2 < 8 * (n / 2));
            let k1 = src[i] as int % 16;
            let k2 = src[i] as int / 16;
            assert((4 * k1 + c) / 4 == k1 && (4 * k1 + c) % 4 == c);
            assert((4 * k2 + c) / 4 == k2 && (4 * k2 + c) % 4 == c);
        }
    }
}

/// The colour of a PS2 colour table that index `k` shows: in every block of
/// 32 colours, the second and third groups of eight trade places.
pub open spec fn clut_colour(k: int) -> int {
    if 8 <= k % 32 < 16 {
        k + 8
    } else if 16 <= k % 32 < 24 {
        k - 8
    } else {
        k
    }
}

/// Decoding an 8-bit indexed level with a full 24-bit palette (256 colours)
/// takes the palette as a PS2 colour table: index `k` shows colour
/// `clut_colour(k)`, whose red, green and blue come from the stored bytes
/// `4 clut_colour(k)` to `4 clut_colour(k) + 2` and whose alpha is opaque.
pub proof fn lemma_rgb_palette_unswizzled(t: TextureView, level: int)
    requires
        0 <= level < t.mipmaps.len(),
        t.format == PixelFormat::Indexed8,
        t.palette_type == Some(PaletteFormat::Rgb8),
        t.palette matches Some(p) && p.len() == 768,
    ensures
        ({
            let m = t.mipmaps[level];
            let n = m.width * m.height;
            let src = m.pixels;
            let p = t.palette->Some_0;
            let o = rgba_of(t, level)->Ok_0;
            &&& rgba_of(t, level) is Ok
            &&& forall|i: int, c: int|
                0 <= i < n && 0 <= c < 4 && 4 * clut_colour(src[i] as int) + 3 <= 768 ==> #[trigger] o[4 * i
                    + c] == if c == 3 {
                    0xffu8
                } else {
                    p[4 * clut_colour(src[i] as int) + c]
                }
        }),
{
    let m = t.mipmaps[level];
    let n = m.width * m.height;
    let src = m.pixels;
    let p = t.palette->Some_0;
    let d = palette_rgba(PaletteFormat::Rgb8, p);
    assert(d.len() == 1024);
    assert(decoded_palette(t) == Some(clut_unswizzled(d)));
    let o = rgba_of(t, level)->Ok_0;
    assert forall|i: int, c: int|
        0 <= i < n && 0 <= c < 4 && 4 * clut_colour(src[i] as int) + 3 <= 768 implies #[trigger] o[4 * i + c]
        == if c == 3 {
            0xffu8
        } else {
            p[4 * clut_colour(src[i] as int) + c]
        } by {
        let q = 4 * i + c;
        assert(q / 4 == i && q % 4 == c);
        let k = src[i] as int;
        assert((4 * k + c) / 4 == k && (4 * k + c) % 4 == c);
        assert(swizzle_source(k, 256) == clut_colour(k));
        let j = clut_colour(k);
        assert((4 * j + c) / 4 == j && (4 * j + c) % 4 == c);
    }
}

/// Whether every index among the first `n` bytes of `src` names one of the
/// `colours` colours of a palette; for 4-bit levels both halves of each byte
/// are indices.
fn indices_in_palette(src: &[u8], n: usize, colours: usize, four_bit: bool) -> (b: bool)
    requires
        n <= src@.len(),
    ensures
        b == if four_bit {
            forall|i: int|
                0 <= i < n ==> 4 * nibble(#[trigger] src@[i], 0) + 4 <= 4 * colours && 4 * nibble(
                    src@[i],
                    1,
                ) + 4 <= 4 * colours
        } else {
            forall|i: int| 0 <= i < n ==> 4 * (#[trigger] src@[i]) + 4 <= 4 * colours
        },
{
    let mut i: usize = 0;
    while i < n
        invariant
            n <= src@.len(),
            i <= n,
            four_bit ==> forall|k: int|
                0 <= k < i ==> 4 * nibble(#[trigger] src@[k], 0) + 4 <= 4 * colours && 4 * nibble(
                    src@[k],
                    1,
                ) + 4 <= 4 * colours,
            !four_bit ==> forall|k: int| 0 <= k < i ==> 4 * (#[trigger] src@[k]) + 4 <= 4 * colours,
        decreases n - i,
    {
        let byte: u8 = src[i];
        if four_bit {
            let lo: usize = (byte & 0xf) as usize;
            let hi: usize = (byte >> 4u8) as usize;
            assert(byte & 0xf == byte % 16) by (bit_vector);
            assert(byte >> 4u8 == byte / 16) by (bit_vector);
            if lo >= colours || hi >= colours {
                return false;
            }
        } else if byte as usize >= colours {
            return false;
        }
        i = i + 1;
    }
    true
}

impl Texture {
    /// Whether `decode_rgba` can decode level `level` without reading past
    /// a buffer or overflowing a machine word.
    pub fn can_decode(&self, level: usize) -> (b: bool)
        ensures
            b == decodes(self@, level as int),
    {
        if level >= self.mipmaps.len() {
            return false;
        }
        let ghost t = self@;
        let mut colours: Option<usize> = None;
        match (self.palette_type, &self.palette) {
            (Some(pt), Some(p)) => {
                let len: usize = p.len();
                match pt {
                    PaletteFormat::Rgba8 => {
                        colours = Some(len / 4);
                    },
                    PaletteFormat::Rgb8 => {
                        if !(len / 3 == 0 || (len / 3) as u128 * 4 <= len as u128 + 1) {
                            return false;
                        }
                        colours = Some(len / 3);
                    },
                    PaletteFormat::Rgba5A1 => {
                        if (len / 2) as u128 * 4 > usize::MAX as u128 {
                            return false;
                        }
                        colours = Some(len / 2);
                    },
                }
            },
            _ => {},
        }
        assert(match colours {
            Some(c) => decoded_palette(t) matches Some(pal) && pal.len() / 4 == c,
            None => decoded_palette(t) is None,
        });
        let mip: &Mipmap = &self.mipmaps[level];
        assert(mip@ == t.mipmaps[level as int]);
        let w128: u128 = mip.width as u128;
        let h128: u128 = mip.height as u128;
        assert(w128 * h128 <= 0xffff_ffff * 0xffff_ffff) by (nonlinear_arith)
            requires
                w128 <= 0xffff_ffff,
                h128 <= 0xffff_ffff,
        ;
        let n: u128 = w128 * h128;
        let src_len: usize = mip.pixels.len();
        match self.format {
            PixelFormat::Rgba32 => true,
            PixelFormat::Rgb24 => 4 * n <= usize::MAX as u128 && (n == 0 || 4 * n - 1 <= src_len as u128),
            PixelFormat::Rgba5A1 => 4 * n <= usize::MAX as u128 && 2 * n <= src_len as u128,
            PixelFormat::Indexed8 => match colours {
                None => true,
                Some(c) => {
                    if 4 * n > usize::MAX as u128 || n > src_len as u128 {
                        false
                    } else {
                        indices_in_palette(mip.pixels.as_slice(), n as usize, c, false)
                    }
                },
            },
            PixelFormat::Indexed4 => match colours {
                None => true,
                Some(c) => {
                    if 4 * n > usize::MAX as u128 || n / 2 > src_len as u128 {
                        false
                    } else {
                        indices_in_palette(mip.pixels.as_slice(), (n / 2) as usize, c, true)
                    }
                },
            },
        }
    }

    /// Decodes mip level `level` into four-byte RGBA pixels, with the level's
    /// width and height.
    pub fn decode_rgba(&self, level: usize) -> (r: Result<(u32, u32, Vec<u8>), ApxError>)
        requires
            decodes(self@, level as int),
        ensures
            match (r, rgba_of(self@, level as int)) {
                (Ok((w, h, px)), Ok(s)) => w == self@.mipmaps[level as int].width && h
                    == self@.mipmaps[level as int].height && px@ == s,
                (Err(e), Err(s)) => e == s,
                _ => false,
            },
    {
        let mip: &Mipmap = &self.mipmaps[level];
        assert(mip@ == self@.mipmaps[level as int]);
        let w: usize = mip.width as usize;
        let h: usize = mip.height as usize;
        let palette: Option<Vec<u8>> = match (self.palette_type, &self.palette) {
            (Some(palette_type), Some(pal)) => {
                let mut decoded: Vec<u8> = match decode_palette_rgba(palette_type, pal.as_slice()) {
                    Ok(d) => d,
                    Err(_) => {
                        assert(false);
                        Vec::new()
                    },
                };
                if self.format.is_indexed() && palette_type == PaletteFormat::Rgb8 {
                    decoded = unswizzle_ps2_clut(decoded.as_slice());
                }
                Some(decoded)
            },
            _ => None,
        };
        assert(match palette {
            Some(p) => decoded_palette(self@) == Some(p@),
            None => decoded_palette(self@) is None,
        });
        let src: &Vec<u8> = &mip.pixels;
        let ghost expected = rgba_of(self@, level as int);
        let rgba: Vec<u8> = match self.format {
            PixelFormat::Rgba32 => vstd::slice::slice_to_vec(src.as_slice()),
            PixelFormat::Rgb24 => {
                let n: usize = w * h;
                let mut buf: Vec<u8> = vec![0u8; n * 4];
                let mut i: usize = 0;
                while i < n
                    invariant
                        n == w * h,
                        4 * n <= usize::MAX,
                        n == 0 || 4 * n - 1 <= src@.len(),
                        buf@.len() == 4 * n,
                        i <= n,
                        expected matches Ok(e) && forall|p: int| 0 <= p < 4 * i ==> #[trigger] buf@[p] == e[p],
                        expected == Ok::<Seq<u8>, ApxError>(
                            Seq::new((4 * n) as nat, |p: int| if p % 4 == 3 { 0xffu8 } else { src@[p] }),
                        ),
                    decreases n - i,
                {
                    buf.set(i * 4, src[i * 4]);
                    buf.set(i * 4 + 1, src[i * 4 + 1]);
                    buf.set(i * 4 + 2, src[i * 4 + 2]);
                    buf.set(i * 4 + 3, 0xff);
                    proof {
                        let e = expected->Ok_0;
                        assert forall|p: int| 0 <= p < 4 * (i + 1) implies #[trigger] buf@[p] == e[p] by {
                            if p >= 4 * i {
                                assert(p % 4 == p - 4 * i);
                            }
                        }
                    }
                    i = i + 1;
                }
                proof {
                    assert(buf@ =~= expected->Ok_0);
                }
                buf
            },
            PixelFormat::Rgba5A1 => {
                let n: usize = w * h;
                let mut buf: Vec<u8> = vec![0u8; n * 4];
                let mut i: usize = 0;
                while i < n
                    invariant
                        n == w * h,
                        4 * n <= usize::MAX,
                        2 * n <= src@.len(),
                        buf@.len() == 4 * n,
                        i <= n,
                        expected matches Ok(e) && forall|p: int| 0 <= p < 4 * i ==> #[trigger] buf@[p] == e[p],
                        expected == Ok::<Seq<u8>, ApxError>(
                            Seq::new(
                                (4 * n) as nat,
                                |p: int| rgba5551_channel(src@[2 * (p / 4)], src@[2 * (p / 4) + 1], p % 4),
                            ),
                        ),
                    decreases n - i,
                {
                    let (r, g, b, a) = rgba5551(src[i * 2], src[i * 2 + 1]);
                    buf.set(i * 4, r);
                    buf.set(i * 4 + 1, g);
                    buf.set(i * 4 + 2, b);
                    buf.set(i * 4 + 3, a);
                    proof {
                        let e = expected->Ok_0;
                        assert forall|p: int| 0 <= p < 4 * (i + 1) implies #[trigger] buf@[p] == e[p] by {
                            if p >= 4 * i {
                                assert(p % 4 == p - 4 * i);
                                assert(p / 4 == i);
                            }
                        }
                    }
                    i = i + 1;
                }
                proof {
                    assert(buf@ =~= expected->Ok_0);
                }
                buf
            },
            PixelFormat::Indexed8 => {
                let pal: &Vec<u8> = match &palette {
                    Some(p) => p,
                    None => {
                        return Err(ApxError::MissingPalette);
                    },
                };
                let n: usize = w * h;
                let mut buf: Vec<u8> = vec![0u8; n * 4];
                let mut i: usize = 0;
                while i < n
                    invariant
                        n == w * h,
                        4 * n <= usize::MAX,
                        n <= src@.len(),
                        forall|k: int| 0 <= k < n ==> 4 * (#[trigger] src@[k]) + 4 <= pal@.len(),
                        buf@.len() == 4 * n,
                        i <= n,
                        expected matches Ok(e) && forall|p: int| 0 <= p < 4 * i ==> #[trigger] buf@[p] == e[p],
                        expected == Ok::<Seq<u8>, ApxError>(
                            Seq::new((4 * n) as nat, |p: int| pal@[4 * src@[p / 4] + p % 4]),
                        ),
                    decreases n - i,
                {
                    let index: usize = src[i] as usize;
                    assert(4 * index + 4 <= pal@.len());
                    buf.set(i * 4, pal[index * 4]);
                    buf.set(i * 4 + 1, pal[index * 4 + 1]);
                    buf.set(i * 4 + 2, pal[index * 4 + 2]);
                    buf.set(i * 4 + 3, pal[index * 4 + 3]);
                    proof {
                        let e = expected->Ok_0;
                        assert forall|p: int| 0 <= p < 4 * (i + 1) implies #[trigger] buf@[p] == e[p] by {
                            if p >= 4 * i {
                                assert(p % 4 == p - 4 * i);
                                assert(p / 4 == i);
                            }
                        }
                    }
                    i = i + 1;
                }
                proof {
                    assert(buf@ =~= expected->Ok_0);
                }
                buf
            },
            PixelFormat::Indexed4 => {
                let pal: &Vec<u8> = match &palette {
                    Some(p) => p,
                    None => {
                        return Err(ApxError::MissingPalette);
                    },
                };
                let n: usize = w * h;
                let half: usize = n / 2;
                let mut buf: Vec<u8> = vec![0u8; n * 4];
                let mut i: usize = 0;
                while i < half
                    invariant
                        n == w * h,
                        half == n / 2,
                        4 * n <= usize::MAX,
                        half <= src@.len(),
                        forall|k: int|
                            0 <= k < half ==> 4 * nibble(#[trigger] src@[k], 0) + 4 <= pal@.len() && 4
                                * nibble(src@[k], 1) + 4 <= pal@.len(),
                        buf@.len() == 4 * n,
                        i <= half,
                        expected matches Ok(e) && forall|p: int|
                            (0 <= p < 8 * i || 8 * half <= p < 4 * n) ==> #[trigger] buf@[p] == e[p],
                        expected == Ok::<Seq<u8>, ApxError>(
                            Seq::new(
                                (4 * n) as nat,
                                |p: int|
                                    if p < 8 * (n / 2) {
                                        pal@[4 * nibble(src@[p / 8], (p / 4) % 2) + p % 4]
                                    } else {
                                        0u8
                                    },
                            ),
                        ),
                    decreases half - i,
                {
                    let byte: u8 = src[i];
                    let lo: usize = (byte & 0xf) as usize;
                    let hi: usize = (byte >> 4u8) as usize;
                    assert(byte & 0xf == byte % 16) by (bit_vector);
                    assert(byte >> 4u8 == byte / 16) by (bit_vector);
                    let px1: usize = i * 2;
                    let px2: usize = i * 2 + 1;
                    buf.set(px1 * 4, pal[lo * 4]);
                    buf.set(px1 * 4 + 1, pal[lo * 4 + 1]);
                    buf.set(px1 * 4 + 2, pal[lo * 4 + 2]);
                    buf.set(px1 * 4 + 3, pal[lo * 4 + 3]);
                    buf.set(px2 * 4, pal[hi * 4]);
                    buf.set(px2 * 4 + 1, pal[hi * 4 + 1]);
                    buf.set(px2 * 4 + 2, pal[hi * 4 + 2]);
                    buf.set(px2 * 4 + 3, pal[hi * 4 + 3]);
                    proof {
                        let e = expected->Ok_0;
                        assert forall|p: int|
                            (0 <= p < 8 * (i + 1) || 8 * half <= p < 4 * n) implies #[trigger] buf@[p]
                            == e[p] by {
                            if 8 * i <= p < 8 * (i + 1) {
                                assert(p / 8 == i);
                                assert(p % 4 == (p - 8 * i) % 4);
                                if p < 8 * i + 4 {
                                    assert(p / 4 == 2 * i);
                                    assert((p / 4) % 2 == 0);
                                } else {
                                    assert(p / 4 == 2 * i + 1);
                                    assert((p / 4) % 2 == 1);
                                }
                            }
                        }
                    }
                    i = i + 1;
                }
                proof {
                    let e = expected->Ok_0;
                    assert forall|p: int| 0 <= p < 4 * n implies #[trigger] buf@[p] == e[p] by {
                        if 8 * half <= p {
                        }
                    }
                    assert(buf@ =~= e);
                }
                buf
            },
        };
        Ok((mip.width, mip.height, rgba))
    }
}


/// The dimension `d` of the first level halved `level` times, as the reader
/// of mip levels sees it: nothing is left of a 16-bit dimension after 16
/// halvings.
pub open spec fn mip_dim(d: u16, level: nat) -> int {
    if level < 16 {
        ((d as usize) >> (level as usize)) as int
    } else {
        0
    }
}

/// The mip levels of a texture read from level `level` on: up to the header's
/// level count, stopping at the first level with no pixels. `None` where
/// reading them overflows a machine word; an error where a level does not
/// fit in `buf`.
pub open spec fn levels_from(buf: Seq<u8>, hdr: ApxHeader, fmt: PixelFormat, swizzle: bool, level: nat) -> Option<
    Result<Seq<MipmapView>, ApxError>,
>
    decreases hdr.mip_count - level,
{
    if level >= hdr.mip_count {
        Some(Ok(Seq::empty()))
    } else {
        let w = mip_dim(hdr.width, level);
        let h = mip_dim(hdr.height, level);
        if w == 0 || h == 0 {
            Some(Ok(Seq::empty()))
        } else if mip_offset_of(hdr, level) + buf_size_of(fmt, w, h) > usize::MAX {
            None
        } else {
            match mip_pixels(buf, mip_offset_of(hdr, level), w, h, fmt, swizzle) {
                Err(e) => Some(Err(e)),
                Ok(px) => match levels_from(buf, hdr, fmt, swizzle, level + 1) {
                    None => None,
                    Some(Err(e)) => Some(Err(e)),
                    Some(Ok(rest)) => Some(
                        Ok(seq![MipmapView { width: w as u32, height: h as u32, pixels: px }] + rest),
                    ),
                },
            }
        }
    }
}

/// The bytes a colour of a palette format takes.
pub open spec fn colour_bytes(p: PaletteFormat) -> int {
    match p {
        PaletteFormat::Rgba8 => 4,
        PaletteFormat::Rgb8 => 3,
        PaletteFormat::Rgba5A1 => 2,
    }
}

/// What reading a texture from `buf` with header `hdr` gives: `None` where
/// the reader would stop on a bad slice or an overflow (the palette lies past
/// the end of the buffer), else the texture or the reason it is refused.
pub open spec fn texture_of(buf: Seq<u8>, hdr: ApxHeader, swizzle: bool) -> Option<
    Result<TextureView, ApxError>,
> {
    match format_of(hdr.bit_depth) {
        None => Some(Err(ApxError::UnknownBitDepth(hdr.bit_depth))),
        Some(fmt) => match levels_from(buf, hdr, fmt, swizzle, 0) {
            None => None,
            Some(Err(e)) => Some(Err(e)),
            Some(Ok(mips)) => {
                let pt = palette_format_of(hdr.palette_type);
                let tex = TextureView {
                    bit_depth: hdr.bit_depth,
                    width: hdr.width as u32,
                    height: hdr.height as u32,
                    format: fmt,
                    mipmaps: mips,
                    palette_type: pt,
                    palette: None,
                };
                if indexed(fmt) && hdr.palette_num > 0 {
                    match pt {
                        None => Some(Err(ApxError::InvalidPaletteType(hdr.palette_type))),
                        Some(p) => {
                            let off = 0x20 + hdr.palette_offset;
                            let end = off + palette_len(hdr.bit_depth) * colour_bytes(p);
                            if end > buf.len() {
                                None
                            } else {
                                Some(Ok(TextureView { palette: Some(buf.subrange(off, end)), ..tex }))
                            }
                        },
                    }
                } else {
                    Some(Ok(tex))
                }
            },
        },
    }
}

/// What reading a texture from `buf` gives; `None` where the reader would
/// stop on a bad slice or an overflow.
pub open spec fn parse_texture(buf: Seq<u8>, swizzle: bool) -> Option<Result<TextureView, ApxError>> {
    if buf.len() < 0x20 {
        Some(Err(ApxError::HeaderTooSmall))
    } else {
        texture_of(buf, choose|h: ApxHeader| header_fields(h, buf), swizzle)
    }
}


/// `r` with the levels `s` put in front, where it holds levels.
pub open spec fn prepend_levels(s: Seq<MipmapView>, r: Option<Result<Seq<MipmapView>, ApxError>>) -> Option<
    Result<Seq<MipmapView>, ApxError>,
> {
    match r {
        Some(Ok(t)) => Some(Ok(s + t)),
        _ => r,
    }
}

proof fn lemma_header_unique(h1: ApxHeader, h2: ApxHeader, buf: Seq<u8>)
    requires
        header_fields(h1, buf),
        header_fields(h2, buf),
    ensures
        h1 == h2,
{
    assert(h1.pad@ =~= h2.pad@);
    assert(h1.pad == h2.pad);
}

/// Reads mip level `level`, of `w` by `h` pixels, as the texture reader
/// does; `None` where its end lies past what a machine word holds.
fn read_level(
    buf: &[u8],
    header: &ApxHeader,
    fmt: PixelFormat,
    apply_index_swizzle: bool,
    level: usize,
    w: usize,
    h: usize,
) -> (r: Option<Result<Vec<u8>, ApxError>>)
    requires
        w <= 0xffff,
        h <= 0xffff,
    ensures
        (mip_offset_of(*header, level as nat) + buf_size_of(fmt, w as int, h as int) > usize::MAX)
            <==> r is None,
        r matches Some(res) ==> match (res, mip_pixels(
            buf@,
            mip_offset_of(*header, level as nat),
            w as int,
            h as int,
            fmt,
            apply_index_swizzle,
        )) {
            (Ok(o), Ok(s)) => o@ == s,
            (Err(e), Err(s)) => e == s,
            _ => false,
        },
{
    proof {
        assert(w * h <= 0xffff * 0xffff) by (nonlinear_arith)
            requires
                w <= 0xffff,
                h <= 0xffff,
        ;
        lemma_mip_offset_bound(*header, level as nat);
    }
    let off_wide: u64 = header.mip_offset_wide(level);
    let w64: u64 = w as u64;
    let h64: u64 = h as u64;
    let need_wide: u64 = match fmt {
        PixelFormat::Rgba32 | PixelFormat::Rgb24 => w64 * h64 * 4,
        PixelFormat::Rgba5A1 => w64 * h64 * 2,
        PixelFormat::Indexed8 => w64 * h64,
        PixelFormat::Indexed4 => (w64 * h64) / 2,
    };
    if off_wide + need_wide > usize::MAX as u64 {
        return None;
    }
    let off: usize = header.mip_offset(level);
    Some(get_mipmap_pixels(buf, off, w, h, fmt, apply_index_swizzle))
}

impl Texture {
    /// Reads a texture from an APX file, unswizzling the indices of indexed
    /// levels when `apply_index_swizzle` is set.
    pub fn parse(buf: &[u8], apply_index_swizzle: bool) -> (r: Result<Texture, ApxError>)
        requires
            parse_texture(buf@, apply_index_swizzle) is Some,
        ensures
            match (r, parse_texture(buf@, apply_index_swizzle)) {
                (Ok(t), Some(Ok(v))) => t@ == v,
                (Err(e), Some(Err(s))) => e == s,
                _ => false,
            },
    {
        match Texture::try_parse(buf, apply_index_swizzle) {
            Some(r) => r,
            None => {
                assert(false);
                Err(ApxError::HeaderTooSmall)
            },
        }
    }

    /// Reads a texture as `parse` does, or `None` where `parse` would take a
    /// slice past the end of the buffer or overflow a machine word.
    pub fn try_parse(buf: &[u8], apply_index_swizzle: bool) -> (r: Option<Result<Texture, ApxError>>)
        ensures
            match (r, parse_texture(buf@, apply_index_swizzle)) {
                (Some(Ok(t)), Some(Ok(v))) => t@ == v,
                (Some(Err(e)), Some(Err(s))) => e == s,
                (None, None) => true,
                _ => false,
            },
    {
        let len: usize = buf.len();
        if len < 0x20 {
            return Some(Err(ApxError::HeaderTooSmall));
        }
        let header: ApxHeader = ApxHeader::read(buf);
        proof {
            let c = choose|h: ApxHeader| header_fields(h, buf@);
            lemma_header_unique(c, header, buf@);
        }
        let ghost outcome = texture_of(buf@, header, apply_index_swizzle);
        assert(outcome == parse_texture(buf@, apply_index_swizzle));
        let fmt: PixelFormat = match header.pixel_format() {
            Ok(f) => f,
            Err(e) => {
                return Some(Err(e));
            },
        };
        let ghost all = levels_from(buf@, header, fmt, apply_index_swizzle, 0);
        let mut mipmaps: Vec<Mipmap> = Vec::with_capacity(header.mip_count as usize);
        let mut level: usize = 0;
        assert(mipmaps@.map_values(|m: Mipmap| m@) =~= Seq::<MipmapView>::empty());
        assert(prepend_levels(Seq::empty(), all) == all) by {
            if let Some(Ok(t)) = all {
                assert(Seq::<MipmapView>::empty() + t =~= t);
            }
        }
        assert(mipmaps@.map_values(|m: Mipmap| m@) + Seq::<MipmapView>::empty() =~= mipmaps@.map_values(
            |m: Mipmap| m@,
        ));
        while level < header.mip_count as usize
            invariant
                len == buf@.len(),
                level <= 16,
                all == levels_from(buf@, header, fmt, apply_index_swizzle, 0),
                all == prepend_levels(
                    mipmaps@.map_values(|m: Mipmap| m@),
                    levels_from(buf@, header, fmt, apply_index_swizzle, level as nat),
                ),
                format_of(header.bit_depth) == Some(fmt),
                outcome == texture_of(buf@, header, apply_index_swizzle),
                outcome == parse_texture(buf@, apply_index_swizzle),
            ensures
                all == Some(Ok::<Seq<MipmapView>, ApxError>(mipmaps@.map_values(|m: Mipmap| m@))),
            decreases header.mip_count - level,
        {
            let (w, h) = header.mip_dims(level);
            let wd: usize = header.width as usize;
            let hd: usize = header.height as usize;
            assert(wd <= 0xffff && hd <= 0xffff);
            assert(wd >> 16usize == 0 && hd >> 16usize == 0) by (bit_vector)
                requires
                    wd <= 0xffff,
                    hd <= 0xffff,
            ;
            assert(w == mip_dim(header.width, level as nat));
            assert(h == mip_dim(header.height, level as nat));
            if w == 0 || h == 0 {
                assert(mipmaps@.map_values(|m: Mipmap| m@) + Seq::<MipmapView>::empty() =~= mipmaps@.map_values(
                    |m: Mipmap| m@,
                ));
                break;
            }
            assert(wd >> level <= 0xffff && hd >> level <= 0xffff) by (bit_vector)
                requires
                    wd <= 0xffff,
                    hd <= 0xffff,
            ;
            let pixels: Vec<u8> = match read_level(buf, &header, fmt, apply_index_swizzle, level, w, h) {
                None => {
                    return None;
                },
                Some(Err(e)) => {
                    return Some(Err(e));
                },
                Some(Ok(p)) => p,
            };
            let ghost before = mipmaps@;
            let mip = Mipmap { width: w as u32, height: h as u32, pixels };
            mipmaps.push(mip);
            proof {
                let rest = levels_from(buf@, header, fmt, apply_index_swizzle, level as nat + 1);
                assert(mipmaps@.map_values(|m: Mipmap| m@) =~= before.map_values(|m: Mipmap| m@).push(mip@));
                if let Some(Ok(t)) = rest {
                    assert(before.map_values(|m: Mipmap| m@) + (seq![mip@] + t) =~= mipmaps@.map_values(
                        |m: Mipmap| m@,
                    ) + t);
                }
            }
            level = level + 1;
        }
        let ghost mips = mipmaps@.map_values(|m: Mipmap| m@);
        let palette_type: Option<PaletteFormat> = match PaletteFormat::from_raw(header.palette_type) {
            Ok(p) => Some(p),
            Err(_) => None,
        };
        let palette: Option<Vec<u8>> = if fmt.is_indexed() && header.palette_num > 0 {
            let pt: PaletteFormat = match palette_type {
                Some(p) => p,
                None => {
                    return Some(Err(ApxError::InvalidPaletteType(header.palette_type)));
                },
            };
            assert(mip_offset_of(header, 0) == 0x20);
            let colour: u64 = match pt {
                PaletteFormat::Rgba8 => 4,
                PaletteFormat::Rgb8 => 3,
                PaletteFormat::Rgba5A1 => 2,
            };
            let plen_wide: u64 = if header.bit_depth == 8 {
                0x100
            } else {
                0x10
            };
            if 0x20 + header.palette_offset as u64 + plen_wide * colour > len as u64 {
                return None;
            }
            let off: usize = header.mip_palette_offset(0);
            let plen: usize = if header.bit_depth == 8 {
                0x100
            } else {
                0x10
            };
            let pal: Vec<u8> = match pt {
                PaletteFormat::Rgba8 => vstd::slice::slice_to_vec(&buf[off..off + plen * 4]),
                PaletteFormat::Rgb8 => vstd::slice::slice_to_vec(&buf[off..off + plen * 3]),
                PaletteFormat::Rgba5A1 => vstd::slice::slice_to_vec(&buf[off..off + plen * 2]),
            };
            Some(pal)
        } else {
            None
        };
        let tex = Texture {
            width: header.width as u32,
            height: header.height as u32,
            bit_depth: header.bit_depth,
            format: fmt,
            mipmaps,
            palette_type,
            palette,
        };
        assert(tex@.mipmaps == mips);
        Some(Ok(tex))
    }
}

/// The name of the PNG file that level `level` is saved in under `path`.
pub open spec fn png_name(path: Seq<char>, level: nat) -> Seq<char> {
    path + "."@ + decimal(level) + ".png"@
}

impl Texture {
    /// The PNG files that saving the levels `levels` under `path` writes,
    /// each with the mip level it is written from: `{path}.0.png` where no
    /// level is named, else `{path}.{level}.png` for each level named; every
    /// one of them is written from level 0.
    pub fn save_targets(path: &str, levels: &[usize]) -> (r: Vec<(String, usize)>)
        ensures
            levels@.len() == 0 ==> r@.len() == 1 && r@[0].0@ == png_name(path@, 0) && r@[0].1 == 0,
            levels@.len() > 0 ==> r@.len() == levels@.len(),
            levels@.len() > 0 ==> forall|i: int|
                0 <= i < levels@.len() ==> (#[trigger] r@[i]).0@ == png_name(path@, levels@[i] as nat)
                    && r@[i].1 == 0,
    {
        let mut out: Vec<(String, usize)> = Vec::new();
        if levels.len() == 0 {
            out.push((png_file(path, 0), 0));
            return out;
        }
        let n: usize = levels.len();
        let mut i: usize = 0;
        while i < n
            invariant
                n == levels@.len(),
                i <= n,
                out@.len() == i,
                forall|k: int| 0 <= k < i ==> (#[trigger] out@[k]).0@ == png_name(path@, levels@[k] as nat)
                    && out@[k].1 == 0,
            decreases n - i,
        {
            out.push((png_file(path, levels[i]), 0));
            i = i + 1;
        }
        out
    }
}

/// The name of the PNG file of level `level` under `path`.
fn png_file(path: &str, level: usize) -> (s: String)
    ensures
        s@ == png_name(path@, level as nat),
{
    let mut s = String::from_str(path);
    s.append(".");
    let digits = decimal_string(level as u64);
    s.append(digits.as_str());
    s.append(".png");
    s
}

proof fn lemma_mip_dim_small(d: u16, level: nat)
    ensures
        0 <= mip_dim(d, level) <= 0xffff,
{
    if level < 16 {
        let x = d as usize;
        let l = level as usize;
        assert(x <= 0xffff ==> x >> l <= 0xffff) by (bit_vector);
    }
}

proof fn lemma_levels_shape(buf: Seq<u8>, hdr: ApxHeader, fmt: PixelFormat, swizzle: bool, level: nat)
    ensures
        levels_from(buf, hdr, fmt, swizzle, level) matches Some(Ok(ms)) ==> forall|k: int|
            0 <= k < ms.len() ==> {
                &&& (#[trigger] ms[k]).width <= 0xffff
                &&& ms[k].height <= 0xffff
                &&& ms[k].pixels.len() == buf_size_of(fmt, ms[k].width as int, ms[k].height as int)
            },
    decreases hdr.mip_count - level,
{
    if level < hdr.mip_count {
        let w = mip_dim(hdr.width, level);
        let h = mip_dim(hdr.height, level);
        lemma_mip_dim_small(hdr.width, level);
        lemma_mip_dim_small(hdr.height, level);
        lemma_levels_shape(buf, hdr, fmt, swizzle, level + 1);
        if let Some(Ok(ms)) = levels_from(buf, hdr, fmt, swizzle, level) {
            if !(w == 0 || h == 0) {
                let off = mip_offset_of(hdr, level);
                let px = mip_pixels(buf, off, w, h, fmt, swizzle)->Ok_0;
                lemma_mip_offset_bound(hdr, level);
                assert(0 <= w * h) by (nonlinear_arith)
                    requires
                        0 <= w,
                        0 <= h,
                ;
                assert(0 <= buf_size_of(fmt, w, h));
                assert(px.len() == buf_size_of(fmt, w, h));
                let rest = levels_from(buf, hdr, fmt, swizzle, level + 1)->Some_0->Ok_0;
                assert forall|k: int| 0 <= k < ms.len() implies {
                    &&& (#[trigger] ms[k]).width <= 0xffff
                    &&& ms[k].height <= 0xffff
                    &&& ms[k].pixels.len() == buf_size_of(fmt, ms[k].width as int, ms[k].height as int)
                } by {
                    if k > 0 {
                        assert(ms[k] == rest[k - 1]);
                    }
                }
            }
        }
    }
}

/// The bytes that a `w` by `h` level of format `fmt` is stored in: four a
/// pixel for 32- and 24-bit levels (a 24-bit pixel is kept in four bytes),
/// two for 16-bit levels, one for 8-bit levels and half a byte, rounding
/// down, for 4-bit levels.
pub open spec fn stored_level_bytes(fmt: PixelFormat, w: int, h: int) -> int {
    if fmt == PixelFormat::Rgba32 || fmt == PixelFormat::Rgb24 {
        4 * (w * h)
    } else if fmt == PixelFormat::Rgba5A1 {
        2 * (w * h)
    } else if fmt == PixelFormat::Indexed8 {
        w * h
    } else {
        (w * h) / 2
    }
}

proof fn lemma_levels_layout(buf: Seq<u8>, hdr: ApxHeader, fmt: PixelFormat, swizzle: bool, level: nat)
    ensures
        levels_from(buf, hdr, fmt, swizzle, level) matches Some(Ok(ms)) ==> {
            &&& level + ms.len() <= hdr.mip_count || ms.len() == 0
            &&& (level + ms.len() >= hdr.mip_count || mip_dim(hdr.width, level + ms.len()) == 0 || mip_dim(
                hdr.height,
                level + ms.len(),
            ) == 0)
            &&& forall|k: int|
                0 <= k < ms.len() ==> {
                    &&& (#[trigger] ms[k]).width == mip_dim(hdr.width, (level + k) as nat)
                    &&& ms[k].height == mip_dim(hdr.height, (level + k) as nat)
                    &&& ms[k].width > 0 && ms[k].height > 0
                    &&& mip_pixels(
                        buf,
                        mip_offset_of(hdr, (level + k) as nat),
                        ms[k].width as int,
                        ms[k].height as int,
                        fmt,
                        swizzle,
                    ) == Ok::<Seq<u8>, ApxError>(ms[k].pixels)
                }
        },
    decreases hdr.mip_count - level,
{
    if level < hdr.mip_count {
        lemma_mip_dim_small(hdr.width, level);
        lemma_mip_dim_small(hdr.height, level);
        lemma_levels_layout(buf, hdr, fmt, swizzle, level + 1);
        if let Some(Ok(ms)) = levels_from(buf, hdr, fmt, swizzle, level) {
            let w = mip_dim(hdr.width, level);
            let h = mip_dim(hdr.height, level);
            if !(w == 0 || h == 0) {
                let rest = levels_from(buf, hdr, fmt, swizzle, level + 1)->Some_0->Ok_0;
                assert(ms.len() == rest.len() + 1);
                assert forall|k: int| 0 <= k < ms.len() implies {
                    &&& (#[trigger] ms[k]).width == mip_dim(hdr.width, (level + k) as nat)
                    &&& ms[k].height == mip_dim(hdr.height, (level + k) as nat)
                    &&& ms[k].width > 0 && ms[k].height > 0
                    &&& mip_pixels(
                        buf,
                        mip_offset_of(hdr, (level + k) as nat),
                        ms[k].width as int,
                        ms[k].height as int,
                        fmt,
                        swizzle,
                    ) == Ok::<Seq<u8>, ApxError>(ms[k].pixels)
                } by {
                    if k > 0 {
                        assert(ms[k] == rest[k - 1]);
                        assert((level + 1 + (k - 1)) as nat == (level + k) as nat);
                    }
                }
                assert(level + 1 + rest.len() == level + ms.len());
            }
        }
    }
}

/// What reading a texture gives, laid out: the header's size and bit depth;
/// the pixel format of the bit depth; level `k` is the first level's width
/// and height each divided by `2^k` (rounding down), starting at the offset
/// that the levels before it end at, stored in the bytes its format takes
/// there (unswizzled only when asked, and only for indexed formats); the
/// levels stop at the header's count or before the first level without
/// pixels; and an indexed texture with palettes carries the 256 colours
/// (8-bit) or 16 colours (4-bit) of its palette type, read from `0x20` plus
/// the header's palette offset.
pub proof fn lemma_parsed_texture_layout(buf: Seq<u8>, swizzle: bool, hdr: ApxHeader, t: TextureView)
    requires
        buf.len() >= 0x20,
        header_fields(hdr, buf),
        parse_texture(buf, swizzle) == Some(Ok::<TextureView, ApxError>(t)),
    ensures
        t.width == hdr.width && t.height == hdr.height && t.bit_depth == hdr.bit_depth,
        t.width == le16(buf, 0xe) && t.height == le16(buf, 0x10),
        hdr.bit_depth as int == if le16(buf, 0xc) < 0x8000 {
            le16(buf, 0xc) as int
        } else {
            le16(buf, 0xc) - 0x10000
        },
        hdr.mip_count == le16(buf, 0x12) && hdr.palette_type == le16(buf, 0x14) && hdr.palette_num == le16(
            buf,
            0x16,
        ) && hdr.palette_offset == le32(buf, 4),
        hdr.bit_depth == 0x20 ==> t.format == PixelFormat::Rgba32,
        hdr.bit_depth == 0x18 ==> t.format == PixelFormat::Rgb24,
        hdr.bit_depth == 0x10 ==> t.format == PixelFormat::Rgba5A1,
        hdr.bit_depth == 8 ==> t.format == PixelFormat::Indexed8,
        hdr.bit_depth == 4 ==> t.format == PixelFormat::Indexed4,
        t.mipmaps.len() <= hdr.mip_count,
        t.mipmaps.len() == hdr.mip_count || hdr.width as nat / pow2(t.mipmaps.len()) == 0 || hdr.height as nat
            / pow2(t.mipmaps.len()) == 0,
        forall|k: int|
            0 <= k < t.mipmaps.len() ==> {
                let m = #[trigger] t.mipmaps[k];
                let off = mip_offset_of(hdr, k as nat);
                &&& m.width == hdr.width as nat / pow2(k as nat)
                &&& m.height == hdr.height as nat / pow2(k as nat)
                &&& m.width > 0 && m.height > 0
                &&& m.pixels.len() == stored_level_bytes(t.format, m.width as int, m.height as int)
                &&& off + m.pixels.len() <= buf.len()
                &&& (!swizzle || !indexed(t.format)) ==> m.pixels == buf.subrange(off, off + m.pixels.len())
            },
        t.palette_type == if hdr.palette_type == 0x20 {
            Some(PaletteFormat::Rgba8)
        } else if hdr.palette_type == 0x18 {
            Some(PaletteFormat::Rgb8)
        } else if hdr.palette_type == 0x10 {
            Some(PaletteFormat::Rgba5A1)
        } else {
            None::<PaletteFormat>
        },
        t.palette is Some <==> indexed(t.format) && hdr.palette_num > 0,
        t.palette matches Some(p) ==> {
            let colours = if hdr.bit_depth == 8 {
                256int
            } else {
                16int
            };
            let width = if hdr.palette_type == 0x20 {
                4int
            } else if hdr.palette_type == 0x18 {
                3int
            } else {
                2int
            };
            &&& p.len() == colours * width
            &&& p == buf.subrange(0x20 + hdr.palette_offset, 0x20 + hdr.palette_offset + colours * width)
        },
{
    let c = choose|h: ApxHeader| header_fields(h, buf);
    lemma_header_unique(c, hdr, buf);
    let fmt = format_of(hdr.bit_depth)->Some_0;
    lemma_levels_layout(buf, hdr, fmt, swizzle, 0);
    lemma_levels_shape(buf, hdr, fmt, swizzle, 0);
    let ms = t.mipmaps;
    assert forall|k: int| 0 <= k < ms.len() implies {
        let m = #[trigger] ms[k];
        let off = mip_offset_of(hdr, k as nat);
        &&& m.width == hdr.width as nat / pow2(k as nat)
        &&& m.height == hdr.height as nat / pow2(k as nat)
        &&& m.width > 0 && m.height > 0
        &&& m.pixels.len() == stored_level_bytes(t.format, m.width as int, m.height as int)
        &&& off + m.pixels.len() <= buf.len()
        &&& (!swizzle || !indexed(t.format)) ==> m.pixels == buf.subrange(off, off + m.pixels.len())
    } by {
        let m = ms[k];
        lemma_mip_dim_halved(hdr.width, k as nat);
        lemma_mip_dim_halved(hdr.height, k as nat);
        lemma_halved_div(hdr.width as nat, k as nat);
        lemma_halved_div(hdr.height as nat, k as nat);
        let a = m.width * m.height;
        assert(m.width * m.height * 4 == 4 * a && m.width * m.height * 2 == 2 * a) by (nonlinear_arith)
            requires
                a == m.width * m.height,
        ;
        assert(0 <= a) by (nonlinear_arith)
            requires
                a == m.width * m.height,
        ;
        lemma_mip_offset_bound(hdr, k as nat);
    }
    let n = ms.len();
    lemma_mip_dim_halved(hdr.width, n);
    lemma_mip_dim_halved(hdr.height, n);
    lemma_halved_div(hdr.width as nat, n);
    lemma_halved_div(hdr.height as nat, n);
}

/// A texture that `parse` gives decodes, by `decode_rgba`, at every level
/// whose RGBA output fits in memory, unless it carries a 24-bit palette
/// (whose colours the decoder reads past the palette's end).
pub proof fn lemma_parsed_texture_decodes(buf: Seq<u8>, swizzle: bool, t: TextureView, level: int)
    requires
        parse_texture(buf, swizzle) == Some(Ok::<TextureView, ApxError>(t)),
        0 <= level < t.mipmaps.len(),
        t.palette is Some ==> t.palette_type != Some(PaletteFormat::Rgb8),
        4 * (t.mipmaps[level].width * t.mipmaps[level].height) <= usize::MAX,
    ensures
        decodes(t, level),
{
    let hdr = choose|h: ApxHeader| header_fields(h, buf);
    let fmt = format_of(hdr.bit_depth)->Some_0;
    lemma_levels_shape(buf, hdr, fmt, swizzle, 0);
    let m = t.mipmaps[level];
    let n = m.width * m.height;
    assert(m.width <= 0xffff && m.height <= 0xffff && m.pixels.len() == buf_size_of(
        fmt,
        m.width as int,
        m.height as int,
    ));
    assert(t.format == fmt);
    assert(0 <= n) by (nonlinear_arith)
        requires
            n == m.width * m.height,
    ;
    assert(m.width * m.height * 4 == 4 * n && m.width * m.height * 2 == 2 * n) by (nonlinear_arith)
        requires
            n == m.width * m.height,
    ;
    if let (Some(pt), Some(p)) = (t.palette_type, t.palette) {
        assert(indexed(fmt));
        assert(p.len() == palette_len(hdr.bit_depth) * colour_bytes(pt));
        let pal = decoded_palette(t)->Some_0;
        if fmt == PixelFormat::Indexed8 {
            assert(hdr.bit_depth == 8);
            assert(pal.len() == 1024);
            assert forall|i: int| 0 <= i < n implies 4 * (#[trigger] m.pixels[i]) + 4 <= pal.len() by {
                assert(m.pixels[i] <= 255);
            }
        } else {
            assert(fmt == PixelFormat::Indexed4);
            assert(hdr.bit_depth == 4);
            assert(pal.len() == 64);
            assert forall|i: int| 0 <= i < n / 2 implies 4 * nibble(#[trigger] m.pixels[i], 0) + 4 <= pal.len()
                && 4 * nibble(m.pixels[i], 1) + 4 <= pal.len() by {
                assert(m.pixels[i] <= 255);
            }
        }
    }
}

} // verus!
