//! Link files: archives that start with a count of entries followed by an
//! (offset, size) pair of 32-bit little-endian numbers per entry.

use crate::apx::{parse_texture, ApxError, Texture, TextureView};
use crate::bytes::{le32, u32_at};
use vstd::prelude::*;

verus! {

/// One entry of a link file: where its data starts and how long it is.
#[derive(Debug, Clone, Copy)]
pub struct Link {
    pub offset: u32,
    pub size: u32,
}

/// The entry count of a link file, where the buffer holds one.
pub open spec fn link_num(buf: Seq<u8>) -> Option<u32> {
    if buf.len() >= 4 {
        Some(le32(buf, 0))
    } else {
        None
    }
}

/// The offset of entry `idx`, where the buffer holds it.
pub open spec fn link_address(buf: Seq<u8>, idx: int) -> Option<u32> {
    if 8 * idx + 8 <= buf.len() {
        Some(le32(buf, 8 * idx + 4))
    } else {
        None
    }
}

/// The size of entry `idx`, where the buffer holds it.
pub open spec fn link_size(buf: Seq<u8>, idx: int) -> Option<u32> {
    if 8 * idx + 12 <= buf.len() {
        Some(le32(buf, 8 * idx + 8))
    } else {
        None
    }
}

/// The bytes of `buf` from the offset of entry `idx` to the end, where the
/// entry is held and its offset lies in the buffer.
pub open spec fn link_slice(buf: Seq<u8>, idx: int) -> Option<Seq<u8>> {
    match link_address(buf, idx) {
        Some(a) => if a <= buf.len() {
            Some(buf.subrange(a as int, buf.len() as int))
        } else {
            None
        },
        None => None,
    }
}

/// The number of entries of a link file.
pub fn get_link_file_num(buf: &[u8]) -> (r: Option<u32>)
    ensures
        r == link_num(buf@),
{
    if buf.len() < 4 {
        return None;
    }
    Some(u32_at(buf, 0))
}

/// The offset of entry `idx` of a link file.
pub fn get_link_file_address(buf: &[u8], idx: usize) -> (r: Option<u32>)
    ensures
        r == link_address(buf@, idx as int),
{
    let len: usize = buf.len();
    if idx > (usize::MAX - 8) / 8 {
        return None;
    }
    let loc: usize = idx * 8 + 4;
    if loc + 4 > len {
        return None;
    }
    Some(u32_at(buf, loc))
}

/// The data of entry `idx` of a link file, from its offset to the end of the
/// file.
pub fn get_link_file_slice(buf: &[u8], idx: usize) -> (r: Option<&[u8]>)
    ensures
        match r {
            Some(s) => link_slice(buf@, idx as int) == Some(s@),
            None => link_slice(buf@, idx as int) is None,
        },
{
    let addr: u32 = match get_link_file_address(buf, idx) {
        Some(a) => a,
        None => {
            return None;
        },
    };
    let len: usize = buf.len();
    if addr as usize > len {
        return None;
    }
    Some(&buf[addr as usize..len])
}

/// The size of entry `idx` of a link file.
pub fn get_link_file_size(buf: &[u8], idx: usize) -> (r: Option<u32>)
    ensures
        r == link_size(buf@, idx as int),
{
    let len: usize = buf.len();
    if idx > (usize::MAX - 12) / 8 {
        return None;
    }
    let loc: usize = idx * 8 + 8;
    if loc + 4 > len {
        return None;
    }
    Some(u32_at(buf, loc))
}

/// The first `n` entries of a link file, where the buffer holds them all.
pub open spec fn links_upto(buf: Seq<u8>, n: nat) -> Option<Seq<Link>>
    decreases n,
{
    if n == 0 {
        Some(Seq::empty())
    } else {
        match links_upto(buf, (n - 1) as nat) {
            None => None,
            Some(s) => match (link_address(buf, n - 1), link_size(buf, n - 1)) {
                (Some(a), Some(z)) => Some(s.push(Link { offset: a, size: z })),
                _ => None,
            },
        }
    }
}

/// All entries of a link file, where the buffer holds its count and them.
pub open spec fn all_links(buf: Seq<u8>) -> Option<Seq<Link>> {
    match link_num(buf) {
        None => None,
        Some(c) => links_upto(buf, c as nat),
    }
}

proof fn lemma_links_upto(buf: Seq<u8>, n: nat)
    ensures
        links_upto(buf, n) matches Some(s) ==> s.len() == n && forall|i: int|
            0 <= i < n ==> link_address(buf, i) == Some((#[trigger] s[i]).offset) && link_size(buf, i) == Some(
                s[i].size,
            ),
        (n == 0 || 8 * n + 4 <= buf.len()) ==> links_upto(buf, n) is Some,
    decreases n,
{
    if n > 0 {
        lemma_links_upto(buf, (n - 1) as nat);
    }
}

/// Reading every entry of a link file gives one link per entry that its
/// count announces, each the offset and size stored for that entry; it
/// succeeds exactly when the buffer holds the count and every entry.
pub proof fn lemma_all_links(buf: Seq<u8>)
    ensures
        all_links(buf) matches Some(s) ==> link_num(buf) == Some(s.len() as u32) && forall|i: int|
            0 <= i < s.len() ==> link_address(buf, i) == Some((#[trigger] s[i]).offset) && link_size(buf, i)
                == Some(s[i].size),
        all_links(buf) is Some <==> (link_num(buf) matches Some(c) && (c == 0 || 8 * c + 4 <= buf.len())),
{
    if let Some(c) = link_num(buf) {
        lemma_links_upto(buf, c as nat);
        if c > 0 && 8 * c + 4 > buf.len() {
            assert(link_size(buf, c - 1) is None);
            if let Some(s) = links_upto(buf, c as nat) {
                assert(link_size(buf, c - 1) == Some(s[c - 1].size));
            }
        }
    }
}


proof fn lemma_le32_after(buf: Seq<u8>, off: int, x: int)
    requires
        0 <= off,
        0 <= x,
        off + x + 4 <= buf.len(),
    ensures
        le32(buf, off + x) == le32(buf.skip(off), x),
{
    let q = buf.skip(off);
    assert(q[x] == buf[off + x] && q[x + 1] == buf[off + x + 1]);
    assert(q[x + 2] == buf[off + x + 2] && q[x + 3] == buf[off + x + 3]);
}

/// The layout of a link file: the count is the first little-endian word;
/// the address of entry 0 is the word right after the count; the size of an
/// entry is the word right after its address; and each entry lies eight
/// bytes after the one before. An entry that the buffer does not hold
/// whole, address and size, has neither.
pub proof fn lemma_link_layout(buf: Seq<u8>, i: int)
    requires
        0 <= i,
    ensures
        buf.len() >= 4 ==> link_num(buf) == Some(le32(buf, 0)),
        buf.len() < 4 ==> link_num(buf) is None,
        buf.len() >= 4 ==> link_address(buf, 0) == link_num(buf.skip(4)),
        buf.len() >= 4 ==> link_size(buf, i) == link_address(buf.skip(4), i),
        buf.len() >= 8 ==> link_address(buf, i + 1) == link_address(buf.skip(8), i),
        buf.len() >= 8 ==> link_size(buf, i + 1) == link_size(buf.skip(8), i),
        8 * i + 12 > buf.len() ==> link_size(buf, i) is None,
        link_size(buf, i) is Some ==> link_address(buf, i) is Some,
{
    if buf.len() >= 4 {
        if 8 <= buf.len() {
            lemma_le32_after(buf, 4, 0);
        }
        if 8 * i + 12 <= buf.len() {
            lemma_le32_after(buf, 4, 8 * i + 4);
        }
    }
    if buf.len() >= 8 {
        if 8 * (i + 1) + 8 <= buf.len() {
            lemma_le32_after(buf, 8, 8 * i + 4);
        }
        if 8 * (i + 1) + 12 <= buf.len() {
            lemma_le32_after(buf, 8, 8 * i + 8);
        }
    }
}

/// Reads every entry of a link file.
pub fn read_all_links(buf: &[u8]) -> (r: Option<Vec<Link>>)
    ensures
        match r {
            Some(v) => all_links(buf@) == Some(v@),
            None => all_links(buf@) is None,
        },
{
    let mut res: Vec<Link> = Vec::new();
    let count: u32 = match get_link_file_num(buf) {
        Some(c) => c,
        None => {
            return None;
        },
    };
    let mut i: u32 = 0;
    while i < count
        invariant
            i <= count,
            link_num(buf@) == Some(count),
            links_upto(buf@, i as nat) == Some(res@),
        decreases count - i,
    {
        let offset: u32 = match get_link_file_address(buf, i as usize) {
            Some(o) => o,
            None => {
                proof {
                    lemma_links_stay_none(buf@, (i + 1) as nat, count as nat);
                }
                return None;
            },
        };
        let size: u32 = match get_link_file_size(buf, i as usize) {
            Some(s) => s,
            None => {
                proof {
                    lemma_links_stay_none(buf@, (i + 1) as nat, count as nat);
                }
                return None;
            },
        };
        res.push(Link { offset, size });
        i = i + 1;
    }
    Some(res)
}

proof fn lemma_links_stay_none(buf: Seq<u8>, n: nat, m: nat)
    requires
        n <= m,
        links_upto(buf, n) is None,
    ensures
        links_upto(buf, m) is None,
    decreases m - n,
{
    if n < m {
        lemma_links_stay_none(buf, n + 1, m);
    }
}

/// The model (amo) and hierarchy (ahi) parts of a model file: the data of
/// its first two entries.
pub open spec fn amo_ahi(buf: Seq<u8>) -> Option<(Seq<u8>, Seq<u8>)> {
    match (link_num(buf), link_address(buf, 0), link_size(buf, 0), link_address(buf, 1), link_size(buf, 1)) {
        (Some(_), Some(a0), Some(s0), Some(a1), Some(s1)) => if a0 + s0 <= buf.len() && a1 + s1
            <= buf.len() {
            Some((buf.subrange(a0 as int, a0 + s0), buf.subrange(a1 as int, a1 + s1)))
        } else {
            None
        },
        _ => None,
    }
}

/// Whether an entry's end, offset plus size, fits in a machine word.
pub open spec fn entry_end_fits(buf: Seq<u8>, idx: int) -> bool {
    (link_address(buf, idx), link_size(buf, idx)) matches (Some(a), Some(s)) ==> a + s <= usize::MAX
}

/// Splits a model file into its model (amo) and hierarchy (ahi) parts, the
/// data of its first two entries.
pub fn amo_ahi_expand(buf: &[u8]) -> (r: Option<(&[u8], &[u8])>)
    requires
        entry_end_fits(buf@, 0),
        entry_end_fits(buf@, 1),
    ensures
        match r {
            Some((amo, ahi)) => amo_ahi(buf@) == Some((amo@, ahi@)),
            None => amo_ahi(buf@) is None,
        },
{
    let _count: u32 = match get_link_file_num(buf) {
        Some(c) => c,
        None => {
            return None;
        },
    };
    let amo_addr: usize = match get_link_file_address(buf, 0) {
        Some(a) => a as usize,
        None => {
            return None;
        },
    };
    let amo_size: usize = match get_link_file_size(buf, 0) {
        Some(s) => s as usize,
        None => {
            return None;
        },
    };
    let ahi_addr: usize = match get_link_file_address(buf, 1) {
        Some(a) => a as usize,
        None => {
            return None;
        },
    };
    let ahi_size: usize = match get_link_file_size(buf, 1) {
        Some(s) => s as usize,
        None => {
            return None;
        },
    };
    let len: usize = buf.len();
    if amo_addr + amo_size > len || ahi_addr + ahi_size > len {
        return None;
    }
    let amo: &[u8] = &buf[amo_addr..amo_addr + amo_size];
    let ahi: &[u8] = &buf[ahi_addr..ahi_addr + ahi_size];
    Some((amo, ahi))
}

/// The textures of the first `n` entries of a texture list, each read from
/// its entry's offset to the end of the file: `Some(None)` where an entry is
/// missing or a texture is refused, `None` where reading one would stop on a
/// bad slice or an overflow.
pub open spec fn textures_upto(data: Seq<u8>, n: nat) -> Option<Option<Seq<TextureView>>>
    decreases n,
{
    if n == 0 {
        Some(Some(Seq::empty()))
    } else {
        match textures_upto(data, (n - 1) as nat) {
            Some(Some(s)) => match link_slice(data, n - 1) {
                None => Some(None),
                Some(slice) => match parse_texture(slice, false) {
                    None => None,
                    Some(Err(_)) => Some(None),
                    Some(Ok(t)) => Some(Some(s.push(t))),
                },
            },
            other => other,
        }
    }
}

/// What reading a texture list gives: its count, then each entry as a
/// texture; `Some(None)` where the list is refused, `None` where reading
/// would stop on a bad slice or an overflow.
pub open spec fn texlist(data: Seq<u8>) -> Option<Option<Seq<TextureView>>> {
    match link_num(data) {
        None => Some(None),
        Some(c) => textures_upto(data, c as nat),
    }
}

/// Whether entry `i` of a texture list lies in the buffer and reads as a
/// texture.
pub open spec fn entry_parses(data: Seq<u8>, i: int) -> bool {
    link_slice(data, i) matches Some(sl) && parse_texture(sl, false) matches Some(Ok(_))
}

/// Whether entry `i` of a texture list lies in the buffer and reads as
/// texture `t`.
pub open spec fn entry_is(data: Seq<u8>, i: int, t: TextureView) -> bool {
    link_slice(data, i) matches Some(sl) && parse_texture(sl, false) == Some(Ok::<TextureView, ApxError>(t))
}

/// Whether reading entry `i` of a texture list, where it lies in the
/// buffer, gives a texture or an error rather than stopping the reader.
pub open spec fn entry_reads(data: Seq<u8>, i: int) -> bool {
    link_slice(data, i) matches Some(sl) ==> parse_texture(sl, false) is Some
}

proof fn lemma_textures_upto(data: Seq<u8>, n: nat)
    ensures
        textures_upto(data, n) matches Some(Some(v)) ==> v.len() == n && forall|i: int|
            0 <= i < n ==> entry_is(data, i, #[trigger] v[i]),
        (forall|i: int| 0 <= i < n ==> #[trigger] entry_reads(data, i)) ==> {
            &&& textures_upto(data, n) is Some
            &&& (textures_upto(data, n) matches Some(Some(_)) <==> forall|i: int|
                0 <= i < n ==> #[trigger] entry_parses(data, i))
        },
    decreases n,
{
    if n > 0 {
        let m = (n - 1) as nat;
        lemma_textures_upto(data, m);
        if let Some(Some(v)) = textures_upto(data, n) {
            let s = textures_upto(data, m)->Some_0->Some_0;
            assert forall|i: int| 0 <= i < n implies entry_is(data, i, #[trigger] v[i]) by {
                if i < m {
                    assert(v[i] == s[i]);
                }
            }
        }
        if forall|i: int| 0 <= i < n ==> #[trigger] entry_reads(data, i) {
            assert(forall|i: int| 0 <= i < m ==> #[trigger] entry_reads(data, i));
            assert(entry_reads(data, m as int));
            match textures_upto(data, m) {
                Some(Some(_)) => {
                    if textures_upto(data, n) matches Some(Some(_)) {
                        assert forall|i: int| 0 <= i < n implies #[trigger] entry_parses(data, i) by {
                            if i < m {
                                assert(entry_parses(data, i));
                            }
                        }
                    } else {
                        assert(!entry_parses(data, m as int));
                    }
                },
                _ => {
                    let j = choose|j: int| 0 <= j < m && !#[trigger] entry_parses(data, j);
                    assert(!entry_parses(data, j));
                },
            }
        }
    }
}

/// Reading a texture list: a buffer too short for the count is refused.
/// Where it is read, it gives one texture per entry that the count
/// announces, each the texture that entry `i`, read from its offset to the
/// end of the buffer, parses as, in the order of the entries. Where no entry
/// stops the texture reader, the list is read exactly when every entry lies
/// in the buffer and parses as a texture.
pub proof fn lemma_texlist(data: Seq<u8>)
    ensures
        data.len() < 4 ==> texlist(data) == Some(None::<Seq<TextureView>>),
        texlist(data) matches Some(Some(v)) ==> link_num(data) == Some(v.len() as u32) && forall|i: int|
            0 <= i < v.len() ==> entry_is(data, i, #[trigger] v[i]),
        (link_num(data) matches Some(n) && forall|i: int| 0 <= i < n ==> #[trigger] entry_reads(data, i))
            ==> {
            &&& texlist(data) is Some
            &&& (texlist(data) matches Some(Some(_)) <==> forall|i: int|
                0 <= i < link_num(data)->Some_0 ==> #[trigger] entry_parses(data, i))
        },
{
    if let Some(n) = link_num(data) {
        lemma_textures_upto(data, n as nat);
    }
}

proof fn lemma_textures_stay(data: Seq<u8>, n: nat, m: nat)
    requires
        n <= m,
        textures_upto(data, n) matches Some(o) ==> o is None,
    ensures
        textures_upto(data, m) == textures_upto(data, n),
    decreases m - n,
{
    if n < m {
        lemma_textures_stay(data, n + 1, m);
    }
}

/// Reads every texture of a texture list as `load_texlist` does, or `None`
/// where reading one would take a slice past the end of its buffer or
/// overflow a machine word.
pub fn try_load_texlist(data: &[u8]) -> (r: Option<Option<Vec<Texture>>>)
    ensures
        match (r, texlist(data@)) {
            (Some(Some(v)), Some(Some(s))) => v@.map_values(|t: Texture| t@) == s,
            (Some(None), Some(None)) => true,
            (None, None) => true,
            _ => false,
        },
{
    let count: u32 = match get_link_file_num(data) {
        Some(c) => c,
        None => {
            return Some(None);
        },
    };
    let mut textures: Vec<Texture> = Vec::new();
    let mut i: u32 = 0;
    while i < count
        invariant
            i <= count,
            link_num(data@) == Some(count),
            textures_upto(data@, i as nat) == Some(Some(textures@.map_values(|t: Texture| t@))),
        decreases count - i,
    {
        let slice: &[u8] = match get_link_file_slice(data, i as usize) {
            Some(s) => s,
            None => {
                proof {
                    lemma_textures_stay(data@, (i + 1) as nat, count as nat);
                }
                return Some(None);
            },
        };
        let tex: Texture = match Texture::try_parse(slice, false) {
            None => {
                proof {
                    lemma_textures_stay(data@, (i + 1) as nat, count as nat);
                }
                return None;
            },
            Some(Err(_)) => {
                proof {
                    lemma_textures_stay(data@, (i + 1) as nat, count as nat);
                }
                return Some(None);
            },
            Some(Ok(t)) => t,
        };
        let ghost before = textures@;
        textures.push(tex);
        assert(textures@.map_values(|t: Texture| t@) =~= before.map_values(|t: Texture| t@).push(tex@));
        i = i + 1;
    }
    Some(Some(textures))
}

/// Reads every texture of a texture list: its count, then each entry, read
/// from its offset to the end of the file, as a texture.
pub fn load_texlist(data: &[u8]) -> (r: Option<Vec<Texture>>)
    requires
        texlist(data@) is Some,
    ensures
        match (r, texlist(data@)) {
            (Some(v), Some(Some(s))) => v@.map_values(|t: Texture| t@) == s,
            (None, Some(None)) => true,
            _ => false,
        },
{
    match try_load_texlist(data) {
        Some(r) => r,
        None => {
            assert(false);
            None
        },
    }
}

/// Why an archive could not be read.
#[derive(Debug, Clone, Copy, PartialEq, Eq, Structural)]
pub enum ArchiveError {
    /// The archive ends before its header does.
    UnexpectedEnd,
}

/// The file that an archive holds: after a 32-bit word, the 32-bit offset
/// of the data, which runs to the end (empty where the offset lies past it).
pub open spec fn afs_file(data: Seq<u8>) -> Result<Seq<u8>, ArchiveError> {
    if data.len() < 8 {
        Err(ArchiveError::UnexpectedEnd)
    } else {
        let off = le32(data, 4);
        if off >= data.len() {
            Ok(Seq::empty())
        } else {
            Ok(data.subrange(off as int, data.len() as int))
        }
    }
}

/// Reads the file that an archive holds.
pub fn read_afs_file(data: &[u8]) -> (r: Result<Vec<u8>, ArchiveError>)
    ensures
        match (r, afs_file(data@)) {
            (Ok(v), Ok(s)) => v@ == s,
            (Err(e), Err(s)) => e == s,
            _ => false,
        },
{
    let len: usize = data.len();
    if len < 8 {
        return Err(ArchiveError::UnexpectedEnd);
    }
    let _t: u32 = u32_at(data, 0);
    let file_offset: u32 = u32_at(data, 4);
    if file_offset as usize >= len {
        return Ok(Vec::new());
    }
    Ok(vstd::slice::slice_to_vec(&data[file_offset as usize..len]))
}

} // verus!
