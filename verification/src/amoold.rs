//! An earlier reader of the AMO format, which reads chunks from a cursor
//! position and knows the start, material, texture and sub-data chunks.

use crate::bytes::{le16, le32, u16_at, u32_at};
use vstd::prelude::*;

verus! {

/// A model as the earlier reader holds it: its first chunk.
pub struct Amo {
    pub entry: Chunk,
}

pub const MODEL_HEAD: u32 = 0x4;
pub const MATERIAL_HEAD: u32 = 0x9;
pub const MATERIAL_LIST: u32 = 0x50000;
pub const MODEL_ATTRIBUTE: u32 = 0xf0000;

/// The chunk types that the earlier reader knows.
#[derive(Debug, Clone, Copy, PartialEq, Eq, Structural)]
pub enum ChunkType {
    Start,
    Meshes,
    Mesh,
    Indices,
    Material,
    Texture,
}

impl ChunkType {
    /// The 16-bit number of the chunk type.
    pub open spec fn code(self) -> u16 {
        match self {
            ChunkType::Start => 0x1,
            ChunkType::Meshes => 0x2,
            ChunkType::Mesh => 0x4,
            ChunkType::Indices => 0x5,
            ChunkType::Material => 0x9,
            ChunkType::Texture => 0xa,
        }
    }
}

/// The sub-data types that the earlier reader knows.
#[derive(Debug, Clone, Copy, PartialEq, Eq, Structural)]
pub enum SubDataType {
    TextureInfo,
}

/// The head of an entry, its two 16-bit types named.
#[derive(Debug, Clone, Copy)]
pub struct EntryHeader {
    pub entry_type: ChunkType,
    pub data_type: SubDataType,
    pub count: u32,
    pub size: u32,
}

/// Why a chunk, an entry or a directory could not be read.
#[derive(Debug, Clone, Copy, PartialEq, Eq, Structural)]
pub enum ChunkError {
    /// The data ends inside something to be read.
    UnexpectedEnd,
    /// A chunk's size does not exceed its 12-byte head.
    ChunkTooSmall,
    /// An entry's size is smaller than its 12-byte head.
    CorruptEntry,
}

/// A material record, kept as its raw 0x104 bytes (colours, shininess,
/// illumination, padding, texture id).
#[derive(Debug, Clone)]
pub struct MaterialInfo {
    pub bytes: Vec<u8>,
}

/// A texture record: id, width, height and padding.
#[derive(Debug, Clone, Copy)]
pub struct TextureInfo {
    pub id: u32,
    pub width: u32,
    pub height: u32,
    pub _pad0: [u32; 61],
}

/// A texture record as values.
pub struct TextureInfoView {
    pub id: u32,
    pub width: u32,
    pub height: u32,
    pub pad: Seq<u32>,
}

impl View for TextureInfo {
    type V = TextureInfoView;

    open spec fn view(&self) -> TextureInfoView {
        TextureInfoView { id: self.id, width: self.width, height: self.height, pad: self._pad0@ }
    }
}

/// The texture record stored at byte `at` of `d`.
pub open spec fn texture_info_at(d: Seq<u8>, at: int) -> TextureInfoView {
    TextureInfoView {
        id: le32(d, at),
        width: le32(d, at + 4),
        height: le32(d, at + 8),
        pad: Seq::new(61, |i: int| le32(d, at + 12 + 4 * i)),
    }
}

/// Reads the texture record at byte `at` of `d`.
fn read_texture_info(d: &[u8], at: usize) -> (t: TextureInfo)
    requires
        at + 0x100 <= d@.len(),
    ensures
        t@ == texture_info_at(d@, at as int),
{
    let len: usize = d.len();
    let mut pad: [u32; 61] = [0u32; 61];
    let mut i: usize = 0;
    while i < 61
        invariant
            len == d@.len(),
            at + 0x100 <= len,
            i <= 61,
            forall|k: int| 0 <= k < i ==> #[trigger] pad@[k] == le32(d@, at + 12 + 4 * k),
        decreases 61 - i,
    {
        pad[i] = u32_at(d, at + 12 + 4 * i);
        i = i + 1;
    }
    let t = TextureInfo { id: u32_at(d, at), width: u32_at(d, at + 4), height: u32_at(d, at + 8), _pad0: pad };
    assert(t@.pad =~= texture_info_at(d@, at as int).pad);
    t
}

/// Data found inside a chunk.
#[derive(Debug, Clone)]
pub enum SubData {
    Version(u32),
    TextureInfo(TextureInfo),
    MaterialInfo1(MaterialInfo),
    MaterialInfo2(MaterialInfo),
    UnknownSubDataType(u16, u16, u32, u32),
}

/// Sub-data as values.
pub enum SubDataView {
    Version(u32),
    TextureInfo(TextureInfoView),
    MaterialInfo1(Seq<u8>),
    MaterialInfo2(Seq<u8>),
    UnknownSubDataType(u16, u16, u32, u32),
}

impl View for SubData {
    type V = SubDataView;

    open spec fn view(&self) -> SubDataView {
        match self {
            SubData::Version(v) => SubDataView::Version(*v),
            SubData::TextureInfo(t) => SubDataView::TextureInfo(t@),
            SubData::MaterialInfo1(m) => SubDataView::MaterialInfo1(m.bytes@),
            SubData::MaterialInfo2(m) => SubDataView::MaterialInfo2(m.bytes@),
            SubData::UnknownSubDataType(a, b, c, d) => SubDataView::UnknownSubDataType(*a, *b, *c, *d),
        }
    }
}

/// A chunk as the earlier reader reads it.
#[derive(Debug)]
pub enum Chunk {
    SubData(Box<SubData>),
    Start(Vec<Chunk>, u32),
    MaterialBegin(Vec<SubData>),
    TextureBegin(Vec<Chunk>),
    UnknownChunkType(u16, u16, u32, u32),
}

/// A chunk as values.
pub enum ChunkView {
    SubData(SubDataView),
    Start(Seq<ChunkView>, u32),
    MaterialBegin(Seq<SubDataView>),
    TextureBegin(Seq<ChunkView>),
    UnknownChunkType(u16, u16, u32, u32),
}

impl Chunk {
    pub const CHUNK_START: u16 = 0x1;
    pub const CHUNK_MESHES_BEGIN: u16 = 0x2;
    pub const CHUNK_MESH: u16 = 0x4;
    pub const CHUNK_INDICES_BEGIN: u16 = 0x5;
    pub const CHUNK_MATERIAL_BEGIN: u16 = 0x9;
    pub const CHUNK_TEXTURE_BEGIN: u16 = 0xa;

    /// The chunk as values.
    pub open spec fn view_of(&self) -> ChunkView
        decreases self,
    {
        match self {
            Chunk::SubData(b) => ChunkView::SubData((**b)@),
            Chunk::Start(v, s) => ChunkView::Start(
                Seq::new(
                    v@.len(),
                    |i: int|
                        if 0 <= i < v@.len() {
                            v@[i].view_of()
                        } else {
                            arbitrary()
                        },
                ),
                *s,
            ),
            Chunk::MaterialBegin(v) => ChunkView::MaterialBegin(v@.map_values(|d: SubData| d@)),
            Chunk::TextureBegin(v) => ChunkView::TextureBegin(
                Seq::new(
                    v@.len(),
                    |i: int|
                        if 0 <= i < v@.len() {
                            v@[i].view_of()
                        } else {
                            arbitrary()
                        },
                ),
            ),
            Chunk::UnknownChunkType(a, b, c, d) => ChunkView::UnknownChunkType(*a, *b, *c, *d),
        }
    }
}

/// The views of a sequence of chunks.
pub open spec fn chunk_views(cs: Seq<Chunk>) -> Seq<ChunkView> {
    Seq::new(cs.len(), |i: int| cs[i].view_of())
}

/// `r` with the chunks `s` put in front, where it holds chunks.
pub open spec fn prepend_chunks(s: Seq<ChunkView>, r: Option<Result<Seq<ChunkView>, ChunkError>>) -> Option<
    Result<Seq<ChunkView>, ChunkError>,
> {
    match r {
        Some(Ok(t)) => Some(Ok(s + t)),
        _ => r,
    }
}

/// `r` with the records `s` put in front, where it holds records.
pub open spec fn prepend_subdata(s: Seq<SubDataView>, r: Option<Result<Seq<SubDataView>, ChunkError>>) -> Option<
    Result<Seq<SubDataView>, ChunkError>,
> {
    match r {
        Some(Ok(t)) => Some(Ok(s + t)),
        _ => r,
    }
}

/// The material records of a material chunk, `n` of them from byte `pos`,
/// each a 12-byte head and its data: `None` where a record's size is below
/// its head or its data is not 0x104 bytes (the reader stops there).
pub open spec fn read_materials(d: Seq<u8>, pos: int, n: nat) -> Option<Result<Seq<SubDataView>, ChunkError>>
    decreases n,
{
    if n == 0 {
        Some(Ok(Seq::empty()))
    } else if pos + 12 > d.len() {
        Some(Err(ChunkError::UnexpectedEnd))
    } else {
        let size = le32(d, pos + 8);
        if size < 12 {
            None
        } else if pos + size > d.len() {
            Some(Err(ChunkError::UnexpectedEnd))
        } else if size - 12 != 0x104 {
            None
        } else {
            prepend_subdata(
                seq![SubDataView::MaterialInfo1(d.subrange(pos + 12, pos + size))],
                read_materials(d, pos + size, (n - 1) as nat),
            )
        }
    }
}

/// `r`, where it is a chunk read from `pos` with size `size` and the
/// position after it, `pos + size`, fits in 64 bits; `None` where it does
/// not.
pub open spec fn seek_past(r: Option<Result<ChunkView, ChunkError>>, pos: int, size: int) -> Option<
    Result<ChunkView, ChunkError>,
> {
    match r {
        Some(Ok(c)) => if pos + size > u64::MAX {
            None
        } else {
            Some(Ok(c))
        },
        _ => r,
    }
}

/// The chunk read from byte `pos` of `d`: `None` where the reader stops on a
/// bad record or an overflow, else the chunk or why it is refused. After a
/// chunk the reader stands at `pos` plus its size.
pub open spec fn read_chunk(d: Seq<u8>, pos: int) -> Option<Result<ChunkView, ChunkError>>
    decreases d.len() - pos, 0int,
{
    if pos < 0 || pos + 12 > d.len() {
        Some(Err(ChunkError::UnexpectedEnd))
    } else {
        let ct = le16(d, pos);
        let dt = le16(d, pos + 2);
        let count = le32(d, pos + 4);
        let size = le32(d, pos + 8);
        if size <= 12 {
            Some(Err(ChunkError::ChunkTooSmall))
        } else {
            let r = if ct == 1 && dt == 0 {
                match read_chunks(d, pos + 12, count as nat) {
                    Some(Ok(cs)) => Some(Ok(ChunkView::Start(cs, size))),
                    Some(Err(e)) => Some(Err(e)),
                    None => None,
                }
            } else if ct == 9 && dt == 0 {
                match read_materials(d, pos + 12, count as nat) {
                    Some(Ok(ms)) => Some(Ok(ChunkView::MaterialBegin(ms))),
                    Some(Err(e)) => Some(Err(e)),
                    None => None,
                }
            } else if ct == 0xa && dt == 0 {
                match read_chunks(d, pos + 12, count as nat) {
                    Some(Ok(cs)) => Some(Ok(ChunkView::TextureBegin(cs))),
                    Some(Err(e)) => Some(Err(e)),
                    None => None,
                }
            } else if ct == 0 && dt == 0 {
                if pos + size > d.len() {
                    Some(Err(ChunkError::UnexpectedEnd))
                } else if size - 12 != 0x100 {
                    None
                } else {
                    Some(Ok(ChunkView::SubData(SubDataView::TextureInfo(texture_info_at(d, pos + 12)))))
                }
            } else if ct == 0 && dt == 2 {
                if pos + 16 > d.len() {
                    Some(Err(ChunkError::UnexpectedEnd))
                } else {
                    Some(Ok(ChunkView::SubData(SubDataView::Version(le32(d, pos + 12)))))
                }
            } else if ct == 0 {
                Some(Ok(ChunkView::SubData(SubDataView::UnknownSubDataType(ct, dt, count, size))))
            } else {
                Some(Ok(ChunkView::UnknownChunkType(ct, dt, count, size)))
            };
            seek_past(r, pos, size as int)
        }
    }
}

/// `n` chunks read one after the other from byte `pos` of `d`, each from
/// where the one before ends.
pub open spec fn read_chunks(d: Seq<u8>, pos: int, n: nat) -> Option<Result<Seq<ChunkView>, ChunkError>>
    decreases d.len() - pos, n + 1,
{
    if n == 0 {
        Some(Ok(Seq::empty()))
    } else if pos < 0 || pos + 12 > d.len() {
        Some(Err(ChunkError::UnexpectedEnd))
    } else if le32(d, pos + 8) <= 12 {
        Some(Err(ChunkError::ChunkTooSmall))
    } else {
        match read_chunk(d, pos) {
            None => None,
            Some(Err(e)) => Some(Err(e)),
            Some(Ok(c)) => {
                let next = pos + le32(d, pos + 8);
                if n == 1 {
                    Some(Ok(seq![c]))
                } else if next + 12 > d.len() {
                    Some(Err(ChunkError::UnexpectedEnd))
                } else {
                    prepend_chunks(seq![c], read_chunks(d, next, (n - 1) as nat))
                }
            },
        }
    }
}


/// Where a cursor over `d` stands after reading the chunk at byte `pos`
/// fails: past the 12-byte head of a chunk whose size is too small, else at
/// the end of the data, where every failed read leaves it.
pub open spec fn read_chunk_fail_pos(d: Seq<u8>, pos: int) -> int
    decreases d.len() - pos, 0int,
{
    if pos < 0 || pos + 12 > d.len() {
        d.len() as int
    } else if le32(d, pos + 8) <= 12 {
        pos + 12
    } else {
        let ct = le16(d, pos);
        let dt = le16(d, pos + 2);
        if (ct == 1 || ct == 0xa) && dt == 0 {
            read_chunks_fail_pos(d, pos + 12, le32(d, pos + 4) as nat)
        } else {
            d.len() as int
        }
    }
}

/// Where a cursor over `d` stands after reading `n` chunks from byte `pos`
/// fails.
pub open spec fn read_chunks_fail_pos(d: Seq<u8>, pos: int, n: nat) -> int
    decreases d.len() - pos, n + 1,
{
    if n == 0 || pos < 0 || pos + 12 > d.len() {
        d.len() as int
    } else if le32(d, pos + 8) <= 12 {
        pos + 12
    } else {
        match read_chunk(d, pos) {
            Some(Ok(_)) => {
                let next = pos + le32(d, pos + 8);
                if n == 1 || next + 12 > d.len() {
                    d.len() as int
                } else {
                    read_chunks_fail_pos(d, next, (n - 1) as nat)
                }
            },
            _ => read_chunk_fail_pos(d, pos),
        }
    }
}


/// Where the `k`-th of the chunks stored one after the other from byte `p`
/// of `d` starts: each next one where the size word of the one before
/// (its third word) says it ends.
pub open spec fn chunk_pos(d: Seq<u8>, p: int, k: nat) -> int
    decreases k,
{
    if k == 0 {
        p
    } else {
        chunk_pos(d, p + le32(d, p + 8), (k - 1) as nat)
    }
}

proof fn lemma_children_at(d: Seq<u8>, p: int, n: nat)
    ensures
        read_chunks(d, p, n) matches Some(Ok(cs)) ==> cs.len() == n && forall|k: int|
            0 <= k < n ==> read_chunk(d, chunk_pos(d, p, k as nat)) == Some(
                Ok::<ChunkView, ChunkError>(#[trigger] cs[k]),
            ),
    decreases d.len() - p, n,
{
    if n > 0 && !(p < 0 || p + 12 > d.len()) && le32(d, p + 8) > 12 {
        if let Some(Ok(c)) = read_chunk(d, p) {
            let next = p + le32(d, p + 8);
            if n > 1 && next + 12 <= d.len() {
                lemma_children_at(d, next, (n - 1) as nat);
                if let Some(Ok(cs)) = read_chunks(d, p, n) {
                    let rest = read_chunks(d, next, (n - 1) as nat)->Some_0->Ok_0;
                    assert(cs == seq![c] + rest);
                    assert forall|k: int| 0 <= k < n implies read_chunk(d, chunk_pos(d, p, k as nat)) == Some(
                        Ok::<ChunkView, ChunkError>(#[trigger] cs[k]),
                    ) by {
                        if k > 0 {
                            assert(cs[k] == rest[k - 1]);
                            assert(chunk_pos(d, p, k as nat) == chunk_pos(d, next, (k - 1) as nat));
                        }
                    }
                }
            }
        }
    }
}

proof fn lemma_materials_at(d: Seq<u8>, p: int, n: nat)
    ensures
        read_materials(d, p, n) matches Some(Ok(ms)) ==> ms.len() == n && forall|k: int|
            0 <= k < n ==> #[trigger] ms[k] == SubDataView::MaterialInfo1(
                d.subrange(chunk_pos(d, p, k as nat) + 12, chunk_pos(d, p, k as nat) + 12 + 0x104),
            ),
    decreases n,
{
    if n > 0 && p + 12 <= d.len() {
        let size = le32(d, p + 8);
        lemma_materials_at(d, p + size, (n - 1) as nat);
        if let Some(Ok(ms)) = read_materials(d, p, n) {
            let rest = read_materials(d, p + size, (n - 1) as nat)->Some_0->Ok_0;
            assert(ms == seq![SubDataView::MaterialInfo1(d.subrange(p + 12, p + size))] + rest);
            assert forall|k: int| 0 <= k < n implies #[trigger] ms[k] == SubDataView::MaterialInfo1(
                d.subrange(chunk_pos(d, p, k as nat) + 12, chunk_pos(d, p, k as nat) + 12 + 0x104),
            ) by {
                if k > 0 {
                    assert(ms[k] == rest[k - 1]);
                    assert(chunk_pos(d, p, k as nat) == chunk_pos(d, p + size, (k - 1) as nat));
                }
            }
        }
    }
}

/// What the older reader makes of the chunk at `pos`, from its head: a
/// 16-bit chunk type, a 16-bit data type, a count and a size, all little
/// endian. A size no larger than the head is refused. A start chunk (1, 0)
/// and a texture chunk (0xa, 0) hold `count` chunks read one after the other
/// from right after the head, each starting where the size of the one before
/// says it ends; a material chunk (9, 0) holds `count` records laid out the
/// same way, each the 0x104 bytes after its own 12-byte head; a version
/// record (0, 2) is the word after the head; a texture record (0, 0) holds
/// its id, width and height in the three words after the head; other data
/// types under chunk type 0, and other chunk types, are kept as their head.
pub proof fn lemma_old_chunk_layout(d: Seq<u8>, pos: int)
    requires
        0 <= pos,
        pos + 12 <= d.len(),
    ensures
        ({
            let ct = le16(d, pos);
            let dt = le16(d, pos + 2);
            let count = le32(d, pos + 4);
            let size = le32(d, pos + 8);
            &&& size <= 12 ==> read_chunk(d, pos) == Some(Err::<ChunkView, ChunkError>(ChunkError::ChunkTooSmall))
            &&& read_chunk(d, pos) matches Some(Ok(c)) ==> {
                &&& size > 12
                &&& ct == 1 && dt == 0 ==> (c matches ChunkView::Start(cs, s) && s == size && cs.len() == count
                    && forall|k: int|
                    0 <= k < count ==> read_chunk(d, chunk_pos(d, pos + 12, k as nat)) == Some(
                        Ok::<ChunkView, ChunkError>(#[trigger] cs[k]),
                    ))
                &&& ct == 0xa && dt == 0 ==> (c matches ChunkView::TextureBegin(cs) && cs.len() == count
                    && forall|k: int|
                    0 <= k < count ==> read_chunk(d, chunk_pos(d, pos + 12, k as nat)) == Some(
                        Ok::<ChunkView, ChunkError>(#[trigger] cs[k]),
                    ))
                &&& ct == 9 && dt == 0 ==> (c matches ChunkView::MaterialBegin(ms) && ms.len() == count
                    && forall|k: int|
                    0 <= k < count ==> #[trigger] ms[k] == SubDataView::MaterialInfo1(
                        d.subrange(
                            chunk_pos(d, pos + 12, k as nat) + 12,
                            chunk_pos(d, pos + 12, k as nat) + 12 + 0x104,
                        ),
                    ))
                &&& ct == 0 && dt == 2 ==> c == ChunkView::SubData(SubDataView::Version(le32(d, pos + 12)))
                &&& ct == 0 && dt == 0 ==> (c matches ChunkView::SubData(SubDataView::TextureInfo(ti)) && ti.id
                    == le32(d, pos + 12) && ti.width == le32(d, pos + 16) && ti.height == le32(d, pos + 20))
                &&& ct == 0 && dt != 0 && dt != 2 ==> c == ChunkView::SubData(
                    SubDataView::UnknownSubDataType(ct, dt, count, size),
                )
                &&& ct != 0 && !((ct == 1 || ct == 9 || ct == 0xa) && dt == 0) ==> c
                    == ChunkView::UnknownChunkType(ct, dt, count, size)
            }
        }),
{
    let count = le32(d, pos + 4);
    lemma_children_at(d, pos + 12, count as nat);
    lemma_materials_at(d, pos + 12, count as nat);
}

/// Reads `n` material records from byte `start`.
fn read_material_list(data: &[u8], start: u64, n: u32) -> (r: Option<Result<Vec<SubData>, ChunkError>>)
    ensures
        match (r, read_materials(data@, start as int, n as nat)) {
            (Some(Ok(v)), Some(Ok(s))) => v@.map_values(|d: SubData| d@) == s,
            (Some(Err(e)), Some(Err(s))) => e == s,
            (None, None) => true,
            _ => false,
        },
{
    let len: usize = data.len();
    let ghost all = read_materials(data@, start as int, n as nat);
    let mut res: Vec<SubData> = Vec::new();
    let mut cur: u64 = start;
    let mut left: u32 = n;
    assert(all == prepend_subdata(Seq::empty(), all)) by {
        if let Some(Ok(t)) = all {
            assert(Seq::<SubDataView>::empty() + t =~= t);
        }
    }
    while left > 0
        invariant
            len == data@.len(),
            all == read_materials(data@, start as int, n as nat),
            all == prepend_subdata(res@.map_values(|d: SubData| d@), read_materials(data@, cur as int, left as nat)),
        decreases left,
    {
        if cur > len as u64 || (len as u64) - cur < 12 {
            return Some(Err(ChunkError::UnexpectedEnd));
        }
        let p: usize = cur as usize;
        let size: u32 = u32_at(data, p + 8);
        if size < 12 {
            return None;
        }
        if size as usize > len - p {
            return Some(Err(ChunkError::UnexpectedEnd));
        }
        if size - 12 != 0x104 {
            return None;
        }
        let bytes: Vec<u8> = vstd::slice::slice_to_vec(&data[p + 12..p + size as usize]);
        let item = SubData::MaterialInfo1(MaterialInfo { bytes });
        let ghost before = res@.map_values(|d: SubData| d@);
        res.push(item);
        proof {
            assert(res@.map_values(|d: SubData| d@) =~= before.push(item@));
            if let Some(Ok(t)) = read_materials(data@, cur + size, (left - 1) as nat) {
                assert(before + (seq![item@] + t) =~= before.push(item@) + t);
            }
        }
        cur = cur + size as u64;
        left = left - 1;
    }
    assert(res@.map_values(|d: SubData| d@) + Seq::<SubDataView>::empty() =~= res@.map_values(|d: SubData| d@));
    Some(Ok(res))
}

/// Reads `n` chunks one after the other from byte `start`.
fn read_children(data: &[u8], start: u64, n: u32) -> (r: Option<Result<Vec<Chunk>, (ChunkError, u64)>>)
    ensures
        match (r, read_chunks(data@, start as int, n as nat)) {
            (Some(Ok(v)), Some(Ok(s))) => chunk_views(v@) == s,
            (Some(Err((e, at))), Some(Err(s))) => e == s && at == read_chunks_fail_pos(
                data@,
                start as int,
                n as nat,
            ),
            (None, None) => true,
            _ => false,
        },
    decreases data@.len() - start, 1int,
{
    let len: usize = data.len();
    let ghost all = read_chunks(data@, start as int, n as nat);
    let mut res: Vec<Chunk> = Vec::new();
    let mut cur: u64 = start;
    let mut left: u32 = n;
    assert(all == prepend_chunks(chunk_views(res@), all)) by {
        assert(chunk_views(res@) =~= Seq::<ChunkView>::empty());
        if let Some(Ok(t)) = all {
            assert(Seq::<ChunkView>::empty() + t =~= t);
        }
    }
    while left > 0
        invariant
            len == data@.len(),
            start <= cur,
            all == read_chunks(data@, start as int, n as nat),
            all == prepend_chunks(chunk_views(res@), read_chunks(data@, cur as int, left as nat)),
            read_chunks_fail_pos(data@, start as int, n as nat) == read_chunks_fail_pos(
                data@,
                cur as int,
                left as nat,
            ),
        ensures
            all == Some(Ok::<Seq<ChunkView>, ChunkError>(chunk_views(res@))),
        decreases left,
    {
        if cur > len as u64 || (len as u64) - cur < 12 {
            return Some(Err((ChunkError::UnexpectedEnd, len as u64)));
        }
        let p: usize = cur as usize;
        let size: u32 = u32_at(data, p + 8);
        if size <= 12 {
            return Some(Err((ChunkError::ChunkTooSmall, cur + 12)));
        }
        let c: Chunk = match read_chunk_at(data, cur) {
            None => {
                return None;
            },
            Some(Err(e)) => {
                return Some(Err(e));
            },
            Some(Ok(c)) => c,
        };
        let ghost before = chunk_views(res@);
        let ghost cv = c.view_of();
        res.push(c);
        assert(chunk_views(res@) =~= before.push(cv));
        left = left - 1;
        if left == 0 {
            assert(before + seq![cv] =~= before.push(cv));
            assert(before.push(cv) + Seq::<ChunkView>::empty() =~= before.push(cv));
            break;
        }
        let next: u64 = cur + size as u64;
        if next > len as u64 || (len as u64) - next < 12 {
            return Some(Err((ChunkError::UnexpectedEnd, len as u64)));
        }
        proof {
            if let Some(Ok(t)) = read_chunks(data@, next as int, left as nat) {
                assert(before + (seq![cv] + t) =~= before.push(cv) + t);
            }
        }
        cur = next;
    }
    assert(chunk_views(res@) + Seq::<ChunkView>::empty() =~= chunk_views(res@));
    Some(Ok(res))
}

/// Reads the chunk at byte `pos`, or `None` where the reader stops on a bad
/// record or an overflow.
fn read_chunk_at(data: &[u8], pos: u64) -> (r: Option<Result<Chunk, (ChunkError, u64)>>)
    ensures
        match (r, read_chunk(data@, pos as int)) {
            (Some(Ok(c)), Some(Ok(v))) => c.view_of() == v,
            (Some(Err((e, at))), Some(Err(s))) => e == s && at == read_chunk_fail_pos(data@, pos as int),
            (None, None) => true,
            _ => false,
        },
        r matches Some(Ok(_)) ==> pos + 12 <= data@.len() && pos + le32(data@, pos + 8) <= u64::MAX,
    decreases data@.len() - pos, 0int,
{
    let len: usize = data.len();
    let end: u64 = len as u64;
    if pos > len as u64 || (len as u64) - pos < 12 {
        return Some(Err((ChunkError::UnexpectedEnd, end)));
    }
    let p: usize = pos as usize;
    let ct: u16 = u16_at(data, p);
    let dt: u16 = u16_at(data, p + 2);
    let count: u32 = u32_at(data, p + 4);
    let size: u32 = u32_at(data, p + 8);
    if size <= 12 {
        return Some(Err((ChunkError::ChunkTooSmall, pos + 12)));
    }
    let r: Option<Result<Chunk, (ChunkError, u64)>> = if ct == Chunk::CHUNK_START && dt == 0 {
        match read_children(data, pos + 12, count) {
            None => None,
            Some(Err(e)) => Some(Err(e)),
            Some(Ok(cs)) => {
                let c = Chunk::Start(cs, size);
                assert(c.view_of()->Start_0 =~= chunk_views(cs@));
                Some(Ok(c))
            },
        }
    } else if ct == Chunk::CHUNK_MATERIAL_BEGIN && dt == 0 {
        match read_material_list(data, pos + 12, count) {
            None => None,
            Some(Err(e)) => Some(Err((e, end))),
            Some(Ok(ms)) => Some(Ok(Chunk::MaterialBegin(ms))),
        }
    } else if ct == Chunk::CHUNK_TEXTURE_BEGIN && dt == 0 {
        match read_children(data, pos + 12, count) {
            None => None,
            Some(Err(e)) => Some(Err(e)),
            Some(Ok(cs)) => {
                let c = Chunk::TextureBegin(cs);
                assert(c.view_of()->TextureBegin_0 =~= chunk_views(cs@));
                Some(Ok(c))
            },
        }
    } else if ct == 0 && dt == 0 {
        if size as usize > len - p {
            Some(Err((ChunkError::UnexpectedEnd, end)))
        } else if size - 12 != 0x100 {
            None
        } else {
            let t: TextureInfo = read_texture_info(data, p + 12);
            Some(Ok(Chunk::SubData(Box::new(SubData::TextureInfo(t)))))
        }
    } else if ct == 0 && dt == 2 {
        if len - p < 16 {
            Some(Err((ChunkError::UnexpectedEnd, end)))
        } else {
            Some(Ok(Chunk::SubData(Box::new(SubData::Version(u32_at(data, p + 12))))))
        }
    } else if ct == 0 {
        Some(Ok(Chunk::SubData(Box::new(SubData::UnknownSubDataType(ct, dt, count, size)))))
    } else {
        Some(Ok(Chunk::UnknownChunkType(ct, dt, count, size)))
    };
    match r {
        Some(Ok(c)) => if pos > u64::MAX - size as u64 {
            None
        } else {
            Some(Ok(c))
        },
        other => other,
    }
}

impl Chunk {
    /// Reads the chunk at byte `*pos` of `data` as `read` does, or `None`
    /// where the reader would stop on a record of the wrong size or an
    /// overflow. On success `*pos` moves past the chunk; on an error it
    /// stands where the failing read left the cursor; on `None` it stays.
    pub fn checked_read(data: &[u8], pos: &mut u64) -> (r: Option<Result<Chunk, ChunkError>>)
        ensures
            match (r, read_chunk(data@, *old(pos) as int)) {
                (Some(Ok(c)), Some(Ok(v))) => c.view_of() == v && *final(pos) == *old(pos) + le32(
                    data@,
                    *old(pos) + 8,
                ),
                (Some(Err(e)), Some(Err(s))) => e == s && *final(pos) == read_chunk_fail_pos(
                    data@,
                    *old(pos) as int,
                ),
                (None, None) => *final(pos) == *old(pos),
                _ => false,
            },
    {
        let start: u64 = *pos;
        let len: usize = data.len();
        match read_chunk_at(data, start) {
            Some(Ok(c)) => {
                let size: u32 = u32_at(data, start as usize + 8);
                *pos = start + size as u64;
                Some(Ok(c))
            },
            Some(Err((e, at))) => {
                *pos = at;
                Some(Err(e))
            },
            None => None,
        }
    }

    /// Reads the chunk at byte `*pos` of `data`: a start or texture chunk with
    /// the chunks that follow its head, a material chunk with its material
    /// records, or a sub-data record; then moves `*pos` past the chunk, as
    /// far as its size says. On an error `*pos` stands where the failing read
    /// left a cursor over `data`.
    pub fn read(data: &[u8], pos: &mut u64) -> (r: Result<Chunk, ChunkError>)
        requires
            read_chunk(data@, *old(pos) as int) is Some,
        ensures
            match (r, read_chunk(data@, *old(pos) as int)) {
                (Ok(c), Some(Ok(v))) => c.view_of() == v && *final(pos) == *old(pos) + le32(
                    data@,
                    *old(pos) + 8,
                ),
                (Err(e), Some(Err(s))) => e == s && *final(pos) == read_chunk_fail_pos(data@, *old(pos) as int),
                _ => false,
            },
    {
        match Chunk::checked_read(data, pos) {
            Some(r) => r,
            None => {
                assert(false);
                Err(ChunkError::UnexpectedEnd)
            },
        }
    }
}


/// An entry of a directory: its types, count and size (head included).
#[derive(Debug, Clone)]
pub struct EntryV1 {
    pub ty: u16,
    pub data_type: u16,
    pub count: u32,
    pub size: u32,
}

/// The entry read from byte `pos` of `d`, its data skipped.
pub open spec fn entry_at(d: Seq<u8>, pos: int) -> Result<EntryV1, ChunkError> {
    if pos < 0 || pos + 12 > d.len() {
        Err(ChunkError::UnexpectedEnd)
    } else {
        let e = EntryV1 {
            ty: le16(d, pos),
            data_type: le16(d, pos + 2),
            count: le32(d, pos + 4),
            size: le32(d, pos + 8),
        };
        if e.size < 12 {
            Err(ChunkError::CorruptEntry)
        } else if pos + e.size > d.len() {
            Err(ChunkError::UnexpectedEnd)
        } else {
            Ok(e)
        }
    }
}

/// Where a cursor over `d` stands after reading the entry at byte `pos`
/// fails with `e`: just past the head where the entry's size is too small,
/// else at the end of the data.
pub open spec fn entry_fail_pos(d: Seq<u8>, pos: int, e: ChunkError) -> int {
    if e == ChunkError::CorruptEntry {
        pos + 12
    } else {
        d.len() as int
    }
}

/// Where a cursor over `d` stands after reading `n` entries from byte `pos`
/// fails: where the failing entry's read leaves it.
pub open spec fn entries_fail_pos(d: Seq<u8>, pos: int, n: nat) -> int
    decreases n,
{
    if n == 0 {
        d.len() as int
    } else {
        match entry_at(d, pos) {
            Err(e) => entry_fail_pos(d, pos, e),
            Ok(e) => entries_fail_pos(d, pos + e.size, (n - 1) as nat),
        }
    }
}

/// Where a cursor over `d` stands after reading the directory at byte
/// `pos` fails.
pub open spec fn dir_fail_pos(d: Seq<u8>, pos: int) -> int {
    if pos < 0 || pos + 12 > d.len() {
        d.len() as int
    } else {
        entries_fail_pos(d, pos + 12, le32(d, pos + 4) as nat)
    }
}

impl EntryV1 {
    /// Reads the entry at byte `*pos` of `data` and moves `*pos` past its
    /// data. On an error `*pos` stands where the failing read left a cursor
    /// over `data`: just past the head of an entry whose size is too small,
    /// else at the end of the data.
    pub fn read(data: &[u8], pos: &mut u64) -> (r: Result<EntryV1, ChunkError>)
        ensures
            r == entry_at(data@, *old(pos) as int),
            match r {
                Ok(e) => *final(pos) == *old(pos) + e.size,
                Err(e) => *final(pos) == entry_fail_pos(data@, *old(pos) as int, e),
            },
    {
        let len: usize = data.len();
        let start: u64 = *pos;
        if start > len as u64 || (len as u64) - start < 12 {
            *pos = len as u64;
            return Err(ChunkError::UnexpectedEnd);
        }
        let p: usize = start as usize;
        let ty: u16 = u16_at(data, p);
        let data_type: u16 = u16_at(data, p + 2);
        let count: u32 = u32_at(data, p + 4);
        let size: u32 = u32_at(data, p + 8);
        if size < 12 {
            *pos = start + 12;
            return Err(ChunkError::CorruptEntry);
        }
        if size as usize > len - p {
            *pos = len as u64;
            return Err(ChunkError::UnexpectedEnd);
        }
        *pos = start + size as u64;
        Ok(EntryV1 { ty, data_type, count, size })
    }
}

/// `n` entries read one after the other from byte `pos` of `d`, with the
/// position after the last.
pub open spec fn entries_from(d: Seq<u8>, pos: int, n: nat) -> Result<(Seq<EntryV1>, int), ChunkError>
    decreases n,
{
    if n == 0 {
        Ok((Seq::empty(), pos))
    } else {
        match entry_at(d, pos) {
            Err(e) => Err(e),
            Ok(e) => match entries_from(d, pos + e.size, (n - 1) as nat) {
                Err(err) => Err(err),
                Ok((rest, end)) => Ok((seq![e] + rest, end)),
            },
        }
    }
}

/// A directory: a 12-byte head (a word, the entry count, a size) and the
/// entries.
#[derive(Debug, Clone)]
pub struct Dir {
    pub unk0: u32,
    pub count: u32,
    pub size: u32,
    pub values: Vec<EntryV1>,
}

/// The directory read from byte `pos` of `d` and the position after it.
pub open spec fn dir_at(d: Seq<u8>, pos: int) -> Result<(u32, u32, u32, Seq<EntryV1>, int), ChunkError> {
    if pos < 0 || pos + 12 > d.len() {
        Err(ChunkError::UnexpectedEnd)
    } else {
        match entries_from(d, pos + 12, le32(d, pos + 4) as nat) {
            Err(e) => Err(e),
            Ok((es, end)) => Ok((le32(d, pos), le32(d, pos + 4), le32(d, pos + 8), es, end)),
        }
    }
}

impl Dir {
    /// Reads the directory at byte `*pos` of `data` and moves `*pos` past its
    /// last entry; on an error `*pos` stands where the failing read left a
    /// cursor over `data`.
    pub fn read(data: &[u8], pos: &mut u64) -> (r: Result<Dir, ChunkError>)
        ensures
            match (r, dir_at(data@, *old(pos) as int)) {
                (Ok(dir), Ok((unk0, count, size, es, end))) => dir.unk0 == unk0 && dir.count == count
                    && dir.size == size && dir.values@ == es && *final(pos) == end,
                (Err(e), Err(s)) => e == s && *final(pos) == dir_fail_pos(data@, *old(pos) as int),
                _ => false,
            },
    {
        let len: usize = data.len();
        let start: u64 = *pos;
        if start > len as u64 || (len as u64) - start < 12 {
            *pos = len as u64;
            return Err(ChunkError::UnexpectedEnd);
        }
        let p: usize = start as usize;
        let unk0: u32 = u32_at(data, p);
        let count: u32 = u32_at(data, p + 4);
        let size: u32 = u32_at(data, p + 8);
        let mut values: Vec<EntryV1> = Vec::new();
        let mut cur: u64 = start + 12;
        let mut left: u32 = count;
        let ghost all = entries_from(data@, start + 12, count as nat);
        assert(all == match entries_from(data@, cur as int, left as nat) {
            Err(e) => Err(e),
            Ok((rest, end)) => Ok((values@ + rest, end)),
        }) by {
            if let Ok((rest, end)) = entries_from(data@, cur as int, left as nat) {
                assert(values@ + rest =~= rest);
            }
        }
        while left > 0
            invariant
                len == data@.len(),
                cur <= len,
                *pos == start,
                start == *old(pos),
                start + 12 <= len,
                count == le32(data@, start + 4),
                all == entries_from(data@, start + 12, count as nat),
                all == match entries_from(data@, cur as int, left as nat) {
                    Err(e) => Err(e),
                    Ok((rest, end)) => Ok((values@ + rest, end)),
                },
                entries_fail_pos(data@, start + 12, count as nat) == entries_fail_pos(
                    data@,
                    cur as int,
                    left as nat,
                ),
            decreases left,
        {
            let mut at: u64 = cur;
            let e: EntryV1 = match EntryV1::read(data, &mut at) {
                Ok(e) => e,
                Err(err) => {
                    *pos = at;
                    return Err(err);
                },
            };
            let ghost before = values@;
            values.push(e);
            proof {
                if let Ok((rest, end)) = entries_from(data@, at as int, (left - 1) as nat) {
                    assert(before + (seq![e] + rest) =~= values@ + rest);
                }
            }
            cur = at;
            left = left - 1;
        }
        assert(values@ + Seq::<EntryV1>::empty() =~= values@);
        *pos = cur;
        Ok(Dir { unk0, count, size, values })
    }
}

} // verus!
