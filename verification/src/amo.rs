//! The AMO model format: a tree of chunks, each a 12-byte head (type, count,
//! size) followed by its payload, in which the chunks of the branch types
//! nest their children.

use crate::bytes::{le32, u32_at};
use crate::cast::{cast_data, cast_data_vec};
use crate::text::{decimal, decimal_string};
use vstd::prelude::*;

pub use crate::mesh::{
    AmoError, AmoMeshSpec, AmoMeshView, AmoPrimitive, AmoView, AmoViewSpec, TextureData,
};
pub use crate::listing::{enumerate_amo, AmoEntry};
pub use crate::strips::{decode_amo_indices, decode_amo_indices_grouped, strips_in_bounds};

verus! {

/// The kinds of material records.
#[derive(Debug, Clone, Copy, PartialEq, Eq, Structural)]
pub enum AmoMaterialType {
    MaterialType0,
    MaterialType1,
    MaterialType2,
    MaterialType5,
}

/// The kinds of texture records.
#[derive(Debug, Clone, Copy, PartialEq, Eq, Structural)]
pub enum AmoTextureType {
    TextureType0,
}

/// The chunk types of an AMO file. Types whose low 16 bits are non-zero are
/// branches; the others are leaves.
#[allow(non_camel_case_types)]
#[derive(Debug, Clone, Copy, PartialEq, Eq, Structural)]
pub enum AmoType {
    IndexedSubData,
    Start,
    Meshes,
    IndicesData,
    Mesh,
    IndexList,
    MaterialIds,
    PositionData,
    NormalData,
    MaterialHead,
    TextureHead,
    ModelAttributeUnk0x10000,
    VersionOrSomething,
    Indices1,
    Indices2,
    MaterialList,
    MaterialIndex,
    Vertex,
    Normal,
    TexCoords,
    Color,
    Weight,
    UnknownModelSomething0xe0000,
    Attribute,
    MatrixList,
}

impl AmoMaterialType {
    /// The number that stands for the material type in a file.
    pub open spec fn code(self) -> i32 {
        match self {
            AmoMaterialType::MaterialType0 => 0,
            AmoMaterialType::MaterialType1 => 1,
            AmoMaterialType::MaterialType2 => 2,
            AmoMaterialType::MaterialType5 => 5,
        }
    }

    /// The material type that `v` stands for, if any.
    pub fn try_from_primitive(v: i32) -> (r: Option<AmoMaterialType>)
        ensures
            r matches Some(t) ==> t.code() == v,
            r is None ==> forall|t: AmoMaterialType| t.code() != v,
    {
        match v {
            0 => Some(AmoMaterialType::MaterialType0),
            1 => Some(AmoMaterialType::MaterialType1),
            2 => Some(AmoMaterialType::MaterialType2),
            5 => Some(AmoMaterialType::MaterialType5),
            _ => None,
        }
    }
}

impl AmoTextureType {
    /// The number that stands for the texture type in a file.
    pub open spec fn code(self) -> i32 {
        0
    }

    /// The texture type that `v` stands for, if any.
    pub fn try_from_primitive(v: i32) -> (r: Option<AmoTextureType>)
        ensures
            r matches Some(t) ==> t.code() == v,
            r is None ==> forall|t: AmoTextureType| t.code() != v,
    {
        if v == 0 {
            Some(AmoTextureType::TextureType0)
        } else {
            None
        }
    }
}

impl AmoType {
    /// The number that stands for the chunk type in a file.
    pub open spec fn code(self) -> i32 {
        match self {
            AmoType::IndexedSubData => -1i32,
            AmoType::Start => 1,
            AmoType::Meshes => 2,
            AmoType::IndicesData => 3,
            AmoType::Mesh => 4,
            AmoType::IndexList => 5,
            AmoType::MaterialIds => 6,
            AmoType::PositionData => 7,
            AmoType::NormalData => 8,
            AmoType::MaterialHead => 9,
            AmoType::TextureHead => 0xa,
            AmoType::ModelAttributeUnk0x10000 => 0x10000,
            AmoType::VersionOrSomething => 0x20000,
            AmoType::Indices1 => 0x30000,
            AmoType::Indices2 => 0x40000,
            AmoType::MaterialList => 0x50000,
            AmoType::MaterialIndex => 0x60000,
            AmoType::Vertex => 0x70000,
            AmoType::Normal => 0x80000,
            AmoType::TexCoords => 0xa0000,
            AmoType::Color => 0xb0000,
            AmoType::Weight => 0xc0000,
            AmoType::UnknownModelSomething0xe0000 => 0xe0000,
            AmoType::Attribute => 0xf0000,
            AmoType::MatrixList => 0x100000,
        }
    }

    /// The type field that a chunk of this type carries: its number as an
    /// unsigned 32-bit word.
    pub open spec fn ty(self) -> u32 {
        match self {
            AmoType::IndexedSubData => 0xffff_ffff,
            AmoType::Start => 1,
            AmoType::Meshes => 2,
            AmoType::IndicesData => 3,
            AmoType::Mesh => 4,
            AmoType::IndexList => 5,
            AmoType::MaterialIds => 6,
            AmoType::PositionData => 7,
            AmoType::NormalData => 8,
            AmoType::MaterialHead => 9,
            AmoType::TextureHead => 0xa,
            AmoType::ModelAttributeUnk0x10000 => 0x10000,
            AmoType::VersionOrSomething => 0x20000,
            AmoType::Indices1 => 0x30000,
            AmoType::Indices2 => 0x40000,
            AmoType::MaterialList => 0x50000,
            AmoType::MaterialIndex => 0x60000,
            AmoType::Vertex => 0x70000,
            AmoType::Normal => 0x80000,
            AmoType::TexCoords => 0xa0000,
            AmoType::Color => 0xb0000,
            AmoType::Weight => 0xc0000,
            AmoType::UnknownModelSomething0xe0000 => 0xe0000,
            AmoType::Attribute => 0xf0000,
            AmoType::MatrixList => 0x100000,
        }
    }

    /// The number that stands for the chunk type.
    pub fn as_i32(&self) -> (r: i32)
        ensures
            r == self.code(),
    {
        match self {
            AmoType::IndexedSubData => -1,
            AmoType::Start => 1,
            AmoType::Meshes => 2,
            AmoType::IndicesData => 3,
            AmoType::Mesh => 4,
            AmoType::IndexList => 5,
            AmoType::MaterialIds => 6,
            AmoType::PositionData => 7,
            AmoType::NormalData => 8,
            AmoType::MaterialHead => 9,
            AmoType::TextureHead => 0xa,
            AmoType::ModelAttributeUnk0x10000 => 0x10000,
            AmoType::VersionOrSomething => 0x20000,
            AmoType::Indices1 => 0x30000,
            AmoType::Indices2 => 0x40000,
            AmoType::MaterialList => 0x50000,
            AmoType::MaterialIndex => 0x60000,
            AmoType::Vertex => 0x70000,
            AmoType::Normal => 0x80000,
            AmoType::TexCoords => 0xa0000,
            AmoType::Color => 0xb0000,
            AmoType::Weight => 0xc0000,
            AmoType::UnknownModelSomething0xe0000 => 0xe0000,
            AmoType::Attribute => 0xf0000,
            AmoType::MatrixList => 0x100000,
        }
    }

    /// The type field that a chunk of this type carries.
    pub fn as_u32(&self) -> (r: u32)
        ensures
            r == self.ty(),
    {
        match self {
            AmoType::IndexedSubData => 0xffff_ffff,
            AmoType::Start => 1,
            AmoType::Meshes => 2,
            AmoType::IndicesData => 3,
            AmoType::Mesh => 4,
            AmoType::IndexList => 5,
            AmoType::MaterialIds => 6,
            AmoType::PositionData => 7,
            AmoType::NormalData => 8,
            AmoType::MaterialHead => 9,
            AmoType::TextureHead => 0xa,
            AmoType::ModelAttributeUnk0x10000 => 0x10000,
            AmoType::VersionOrSomething => 0x20000,
            AmoType::Indices1 => 0x30000,
            AmoType::Indices2 => 0x40000,
            AmoType::MaterialList => 0x50000,
            AmoType::MaterialIndex => 0x60000,
            AmoType::Vertex => 0x70000,
            AmoType::Normal => 0x80000,
            AmoType::TexCoords => 0xa0000,
            AmoType::Color => 0xb0000,
            AmoType::Weight => 0xc0000,
            AmoType::UnknownModelSomething0xe0000 => 0xe0000,
            AmoType::Attribute => 0xf0000,
            AmoType::MatrixList => 0x100000,
        }
    }

    /// The chunk type that `v` stands for, if any.
    pub fn try_from_primitive(v: i32) -> (r: Option<AmoType>)
        ensures
            r matches Some(t) ==> t.code() == v,
            r is None ==> forall|t: AmoType| t.code() != v,
    {
        match v {
            -1 => Some(AmoType::IndexedSubData),
            1 => Some(AmoType::Start),
            2 => Some(AmoType::Meshes),
            3 => Some(AmoType::IndicesData),
            4 => Some(AmoType::Mesh),
            5 => Some(AmoType::IndexList),
            6 => Some(AmoType::MaterialIds),
            7 => Some(AmoType::PositionData),
            8 => Some(AmoType::NormalData),
            9 => Some(AmoType::MaterialHead),
            0xa => Some(AmoType::TextureHead),
            0x10000 => Some(AmoType::ModelAttributeUnk0x10000),
            0x20000 => Some(AmoType::VersionOrSomething),
            0x30000 => Some(AmoType::Indices1),
            0x40000 => Some(AmoType::Indices2),
            0x50000 => Some(AmoType::MaterialList),
            0x60000 => Some(AmoType::MaterialIndex),
            0x70000 => Some(AmoType::Vertex),
            0x80000 => Some(AmoType::Normal),
            0xa0000 => Some(AmoType::TexCoords),
            0xb0000 => Some(AmoType::Color),
            0xc0000 => Some(AmoType::Weight),
            0xe0000 => Some(AmoType::UnknownModelSomething0xe0000),
            0xf0000 => Some(AmoType::Attribute),
            0x100000 => Some(AmoType::MatrixList),
            _ => None,
        }
    }
}

/// The 12-byte head of a chunk.
#[derive(Debug, Clone, Copy, PartialEq, Eq, Structural)]
pub struct AmoHead {
    pub ty: u32,
    pub count: u32,
    /// The size of the whole chunk, head included.
    pub size: u32,
}

/// The head stored at byte `off` of `data`.
pub open spec fn head_at(data: Seq<u8>, off: int) -> AmoHead {
    AmoHead { ty: le32(data, off), count: le32(data, off + 4), size: le32(data, off + 8) }
}

/// Reads the head at byte `off` of `data`.
pub fn read_head(data: &[u8], off: usize) -> (h: AmoHead)
    requires
        off + 12 <= data@.len(),
    ensures
        h == head_at(data@, off as int),
{
    let n: usize = data.len();
    AmoHead { ty: u32_at(data, off), count: u32_at(data, off + 4), size: u32_at(data, off + 8) }
}

/// A chunk as the model holds it: its head, its payload and, for a branch,
/// the chunks nested in the payload.
pub struct AmoTree {
    pub head: AmoHead,
    pub children: Seq<AmoTree>,
    pub data: Seq<u8>,
}

/// A chunk whose head and payload lie inside the buffer at byte `off`.
pub open spec fn chunk_fits(data: Seq<u8>, off: int) -> bool {
    &&& 0 <= off
    &&& off + 12 <= data.len()
    &&& head_at(data, off).size >= 12
    &&& off + head_at(data, off).size <= data.len()
}

/// Whether the children of a chunk of type `ty` under a parent of type
/// `parent` are read: only branch types are, and nothing under a
/// material head.
pub open spec fn descends(ty: u32, parent: Option<u32>) -> bool {
    ty & 0xffffu32 != 0 && parent != Some(9u32)
}

/// The chunk at byte `off` of `data`, under a parent of type `parent`; `None`
/// where the chunk or one nested in it does not fit in the buffer.
pub open spec fn parse_chunk(data: Seq<u8>, off: int, parent: Option<u32>) -> Option<AmoTree>
    decreases data.len() - off, 0int,
{
    if !chunk_fits(data, off) {
        None
    } else {
        let h = head_at(data, off);
        let kids = if descends(h.ty, parent) {
            parse_chunks(data, off + 12, off + h.size, h.count as nat, h.ty)
        } else {
            Some(Seq::empty())
        };
        match kids {
            None => None,
            Some(ks) => Some(AmoTree { head: h, children: ks, data: data.subrange(off + 12, off + h.size) }),
        }
    }
}

/// At most `n` chunks read one after the other from byte `off`, stopping at
/// byte `end`, under a parent of type `pty`.
pub open spec fn parse_chunks(data: Seq<u8>, off: int, end: int, n: nat, pty: u32) -> Option<Seq<AmoTree>>
    decreases data.len() - off, n + 1,
{
    if n == 0 || off >= end {
        Some(Seq::empty())
    } else if !chunk_fits(data, off) {
        None
    } else {
        match parse_chunk(data, off, Some(pty)) {
            None => None,
            Some(t) => match parse_chunks(data, off + head_at(data, off).size, end, (n - 1) as nat, pty) {
                None => None,
                Some(rest) => Some(seq![t] + rest),
            },
        }
    }
}

proof fn lemma_parse_chunks_len(data: Seq<u8>, off: int, end: int, n: nat, pty: u32)
    ensures
        parse_chunks(data, off, end, n, pty) matches Some(ks) ==> ks.len() <= n,
    decreases n,
{
    if !(n == 0 || off >= end) && chunk_fits(data, off) {
        lemma_parse_chunks_len(data, off + head_at(data, off).size, end, (n - 1) as nat, pty);
    }
}

/// A chunk read at byte `off` carries the head stored there, its payload is
/// the bytes after the head up to the chunk's size, and it has no more
/// children than its head counts: none where its type is a leaf or it lies
/// under a material head.
pub proof fn lemma_parsed_chunk_shape(data: Seq<u8>, off: int, parent: Option<u32>)
    requires
        parse_chunk(data, off, parent) is Some,
    ensures
        ({
            let t = parse_chunk(data, off, parent)->Some_0;
            &&& t.head == head_at(data, off)
            &&& t.data == data.subrange(off + 12, off + t.head.size)
            &&& t.data.len() == t.head.size - 12
            &&& t.children.len() <= t.head.count
            &&& !descends(t.head.ty, parent) ==> t.children.len() == 0
        }),
{
    let h = head_at(data, off);
    lemma_parse_chunks_len(data, off + 12, off + h.size, h.count as nat, h.ty);
}


proof fn lemma_low_half_clear(x: u32)
    by (bit_vector)
    requires
        x % 0x10000 == 0,
    ensures
        x & 0xffffu32 == 0,
{
}

/// The chunk types from `ModelAttributeUnk0x10000` on are leaves: the
/// reader never looks for chunks nested in their payload.
pub proof fn lemma_leaf_types(t: AmoType, parent: Option<u32>)
    requires
        t.code() >= 0x10000,
    ensures
        !descends(t.ty(), parent),
{
    lemma_low_half_clear(t.ty());
}


/// The bytes that the chunks `ts[0..k]` take together.
pub open spec fn sizes_before(ts: Seq<AmoTree>, k: int) -> int
    decreases k,
{
    if k <= 0 {
        0
    } else {
        sizes_before(ts, k - 1) + ts[k - 1].head.size
    }
}

proof fn lemma_sizes_before_prepend(t: AmoTree, r: Seq<AmoTree>, k: int)
    requires
        1 <= k <= r.len() + 1,
    ensures
        sizes_before(seq![t] + r, k) == t.head.size + sizes_before(r, k - 1),
    decreases k,
{
    let s = seq![t] + r;
    if k > 1 {
        lemma_sizes_before_prepend(t, r, k - 1);
        assert(s[k - 1] == r[k - 2]);
        assert(sizes_before(s, k) == sizes_before(s, k - 1) + s[k - 1].head.size);
        assert(sizes_before(r, k - 1) == sizes_before(r, k - 2) + r[k - 2].head.size);
    } else {
        assert(s[0] == t);
        assert(sizes_before(s, 0) == 0 && sizes_before(r, 0) == 0);
        assert(sizes_before(s, 1) == sizes_before(s, 0) + s[0].head.size);
    }
}

proof fn lemma_chunks_layout(data: Seq<u8>, pos: int, end: int, n: nat, pty: u32)
    ensures
        parse_chunks(data, pos, end, n, pty) matches Some(ks) ==> forall|k: int|
            0 <= k < ks.len() ==> parse_chunk(data, pos + sizes_before(ks, k), Some(pty)) == Some(
                #[trigger] ks[k],
            ),
    decreases n,
{
    if !(n == 0 || pos >= end) && chunk_fits(data, pos) {
        let next = pos + head_at(data, pos).size;
        lemma_chunks_layout(data, next, end, (n - 1) as nat, pty);
        if let Some(ks) = parse_chunks(data, pos, end, n, pty) {
            let t = parse_chunk(data, pos, Some(pty))->Some_0;
            let rest = parse_chunks(data, next, end, (n - 1) as nat, pty)->Some_0;
            assert(ks == seq![t] + rest);
            lemma_parsed_chunk_shape(data, pos, Some(pty));
            assert forall|k: int| 0 <= k < ks.len() implies parse_chunk(data, pos + sizes_before(ks, k), Some(pty))
                == Some(#[trigger] ks[k]) by {
                if k > 0 {
                    lemma_sizes_before_prepend(t, rest, k);
                    assert(ks[k] == rest[k - 1]);
                }
            }
        }
    }
}

/// The layout of a chunk that `from_buf` reads: its head is the three
/// little-endian words at its offset (type, count, size), and its children
/// come one after the other from right after the head, each starting where
/// the one before ends, each read as a chunk under this one's type.
pub proof fn lemma_chunk_layout(data: Seq<u8>, off: int, parent: Option<u32>)
    requires
        parse_chunk(data, off, parent) is Some,
    ensures
        ({
            let t = parse_chunk(data, off, parent)->Some_0;
            &&& t.head.ty == le32(data, off)
            &&& t.head.count == le32(data, off + 4)
            &&& t.head.size == le32(data, off + 8)
            &&& forall|k: int|
                0 <= k < t.children.len() ==> parse_chunk(data, off + 12 + sizes_before(t.children, k), Some(t.head.ty))
                    == Some(#[trigger] t.children[k])
        }),
{
    let h = head_at(data, off);
    lemma_chunks_layout(data, off + 12, off + h.size, h.count as nat, h.ty);
}

/// A chunk of a model, read in place from the model's bytes.
pub struct AmoNode<'a> {
    pub head: AmoHead,
    pub children: Vec<AmoNode<'a>>,
    pub data: &'a [u8],
}

impl<'a> AmoNode<'a> {
    /// The chunk tree that this node stands for.
    pub open spec fn tree(&self) -> AmoTree
        decreases self,
    {
        AmoTree {
            head: self.head,
            children: Seq::new(self.children@.len(), |i: int|
                if 0 <= i < self.children@.len() {
                    self.children@[i].tree()
                } else {
                    arbitrary()
                },
            ),
            data: self.data@,
        }
    }
}


/// The trees of a sequence of nodes.
pub open spec fn trees<'a>(nodes: Seq<AmoNode<'a>>) -> Seq<AmoTree> {
    Seq::new(nodes.len(), |i: int| nodes[i].tree())
}

/// `rest` with `s` put in front, where there is a `rest`.
pub open spec fn prepend(s: Seq<AmoTree>, rest: Option<Seq<AmoTree>>) -> Option<Seq<AmoTree>> {
    match rest {
        None => None,
        Some(r) => Some(s + r),
    }
}

/// Reads the chunk at byte `off` and, where its type calls for it, the chunks
/// nested in its payload.
fn parse_at<'a>(data: &'a [u8], off: usize, parent: Option<u32>) -> (r: Option<AmoNode<'a>>)
    ensures
        match r {
            Some(n) => parse_chunk(data@, off as int, parent) == Some(n.tree()),
            None => parse_chunk(data@, off as int, parent) is None,
        },
        r matches Some(n) ==> n.head == head_at(data@, off as int) && chunk_fits(data@, off as int),
    decreases data@.len() - off,
{
    let len: usize = data.len();
    if len < 12 || off > len - 12 {
        return None;
    }
    let head: AmoHead = read_head(data, off);
    if head.size < 12 || head.size as usize > len - off {
        return None;
    }
    let end: usize = off + head.size as usize;
    let payload: &'a [u8] = &data[off + 12..end];
    let mut children: Vec<AmoNode<'a>> = Vec::new();
    let under_material: bool = match parent {
        Some(p) => p == 9,
        None => false,
    };
    let ghost h = head_at(data@, off as int);
    let ghost all = parse_chunks(data@, off + 12, end as int, head.count as nat, head.ty);
    if head.ty & 0xffff != 0 && !under_material {
        let mut child_off: usize = off + 12;
        let mut remaining: u32 = head.count;
        assert(trees(children@) =~= Seq::<AmoTree>::empty());
        proof {
            if let Some(a) = all {
                assert(Seq::<AmoTree>::empty() + a =~= a);
            }
        }
        loop
            invariant
                len == data@.len(),
                off + 12 <= child_off,
                end <= len,
                end == off + head.size,
                all == prepend(trees(children@), parse_chunks(data@, child_off as int, end as int, remaining as nat, head.ty)),
                descends(head.ty, parent),
                chunk_fits(data@, off as int),
                head == head_at(data@, off as int),
                all == parse_chunks(data@, off + 12, end as int, head.count as nat, head.ty),
            ensures
                all == Some(trees(children@)),
            decreases remaining,
        {
            if remaining == 0 || child_off >= end {
                assert(parse_chunks(data@, child_off as int, end as int, remaining as nat, head.ty) == Some(Seq::<AmoTree>::empty()));
                assert(trees(children@) + Seq::<AmoTree>::empty() =~= trees(children@));
                break;
            }
            match parse_at(data, child_off, Some(head.ty)) {
                None => {
                    assert(parse_chunks(data@, child_off as int, end as int, remaining as nat, head.ty) is None);
                    assert(all is None);
                    return None;
                },
                Some(c) => {
                    let ghost before = children@;
                    let ghost rest = parse_chunks(data@, child_off as int + c.head.size, end as int, (remaining - 1) as nat, head.ty);
                    let next: usize = child_off + c.head.size as usize;
                    children.push(c);
                    assert(trees(children@) =~= trees(before) + seq![c.tree()]);
                    proof {
                        if let Some(r) = rest {
                            assert(trees(before) + (seq![c.tree()] + r) =~= trees(children@) + r);
                        }
                    }
                    child_off = next;
                    remaining = remaining - 1;
                },
            }
        }
    } else {
        assert(trees(children@) =~= Seq::<AmoTree>::empty());
    }
    let node = AmoNode { head, children, data: payload };
    assert(node.tree().children =~= trees(node.children@));
    assert(chunk_fits(data@, off as int));
    assert(h == head);
    assert(descends(head.ty, parent) ==> all == Some(trees(node.children@)));
    Some(node)
}

impl<'a> AmoNode<'a> {
    /// Reads the chunk at `offset` of `data`, under a parent of type `parent`,
    /// with everything nested in it, and moves `offset` past it.
    pub fn from_buf(data: &'a [u8], offset: &mut usize, parent: Option<u32>) -> (node: AmoNode<'a>)
        requires
            parse_chunk(data@, *old(offset) as int, parent) is Some,
        ensures
            parse_chunk(data@, *old(offset) as int, parent) == Some(node.tree()),
            *final(offset) == *old(offset) + node.head.size,
    {
        let len: usize = data.len();
        let r = parse_at(data, *offset, parent);
        match r {
            Some(node) => {
                *offset = *offset + node.head.size as usize;
                node
            },
            None => {
                assert(false);
                AmoNode { head: AmoHead { ty: 0, count: 0, size: 0 }, children: Vec::new(), data }
            },
        }
    }

    /// Reads the chunk at `offset` of `data` as `from_buf` does, or `None`
    /// where it or a chunk nested in it does not fit in the buffer.
    pub fn try_from_buf(data: &'a [u8], offset: usize, parent: Option<u32>) -> (r: Option<AmoNode<'a>>)
        ensures
            match r {
                Some(n) => parse_chunk(data@, offset as int, parent) == Some(n.tree()),
                None => parse_chunk(data@, offset as int, parent) is None,
            },
    {
        parse_at(data, offset, parent)
    }
}


/// The first chunk of type `ty` in a walk of `t` that visits a chunk before
/// its children and children in order.
pub open spec fn find_tree(t: AmoTree, ty: u32) -> Option<AmoTree>
    decreases t,
{
    if t.head.ty == ty {
        Some(t)
    } else {
        find_first(t.children, ty)
    }
}

/// The first chunk of type `ty` in the trees `ts`, walked one after the other.
pub open spec fn find_first(ts: Seq<AmoTree>, ty: u32) -> Option<AmoTree>
    decreases ts,
{
    if ts.len() == 0 {
        None
    } else {
        match find_tree(ts[0], ty) {
            Some(x) => Some(x),
            None => find_first(ts.drop_first(), ty),
        }
    }
}

/// What `find_node_idx` looks up: the chunk itself where it has type `ty`
/// and `idx` is 0, else the first chunk of type `ty` under its child `idx`.
pub open spec fn find_tree_idx(t: AmoTree, ty: u32, idx: int) -> Option<AmoTree> {
    if t.head.ty == ty && idx == 0 {
        Some(t)
    } else if 0 <= idx < t.children.len() {
        find_tree(t.children[idx], ty)
    } else {
        None
    }
}

/// The chunk reached from `t` by following the child indices of `path`.
pub open spec fn node_at(t: AmoTree, path: Seq<int>) -> Option<AmoTree>
    decreases path.len(),
{
    if path.len() == 0 {
        Some(t)
    } else if 0 <= path[0] < t.children.len() {
        node_at(t.children[path[0]], path.drop_first())
    } else {
        None
    }
}

/// Whether some chunk of `t`, `t` itself included, has type `ty`.
pub open spec fn has_type(t: AmoTree, ty: u32) -> bool {
    exists|path: Seq<int>| #[trigger] node_at(t, path) matches Some(m) && m.head.ty == ty
}

impl<'a> AmoNode<'a> {
    /// The first chunk of type `target_ty` in this chunk or those nested in
    /// it, a chunk coming before its children.
    pub fn find_node(&self, target_ty: AmoType) -> (r: Option<&AmoNode<'a>>)
        ensures
            match r {
                Some(n) => find_tree(self.tree(), target_ty.ty()) == Some(n.tree()),
                None => find_tree(self.tree(), target_ty.ty()) is None,
            },
        decreases self,
    {
        let ty: u32 = target_ty.as_u32();
        if self.head.ty == ty {
            return Some(self);
        }
        let ghost kids = self.tree().children;
        let n: usize = self.children.len();
        let mut i: usize = 0;
        assert(kids.skip(0) =~= kids);
        while i < n
            invariant
                n == self.children@.len(),
                kids == self.tree().children,
                kids.len() == n,
                i <= n,
                ty == target_ty.ty(),
                self.head.ty != ty,
                find_first(kids, ty) == find_first(kids.skip(i as int), ty),
            decreases n - i,
        {
            let child: &AmoNode<'a> = &self.children[i];
            assert(kids.skip(i as int)[0] == child.tree());
            assert(kids.skip(i as int).drop_first() =~= kids.skip(i + 1));
            match child.find_node(target_ty) {
                Some(f) => {
                    return Some(f);
                },
                None => {},
            }
            i = i + 1;
        }
        None
    }

    /// The chunk itself where it has type `target_ty` and `idx` is 0, else
    /// the first chunk of that type under child `idx`, if there is one.
    pub fn find_node_idx(&self, target_ty: AmoType, idx: usize) -> (r: Option<&AmoNode<'a>>)
        ensures
            match r {
                Some(n) => find_tree_idx(self.tree(), target_ty.ty(), idx as int) == Some(n.tree()),
                None => find_tree_idx(self.tree(), target_ty.ty(), idx as int) is None,
            },
    {
        if self.head.ty == target_ty.as_u32() && idx == 0 {
            return Some(self);
        }
        if idx < self.children.len() {
            self.children[idx].find_node(target_ty)
        } else {
            None
        }
    }
}

proof fn lemma_find_tree(t: AmoTree, ty: u32) -> (path: Seq<int>)
    ensures
        find_tree(t, ty) matches Some(n) ==> n.head.ty == ty && node_at(t, path) == Some(n),
    decreases t,
{
    if t.head.ty == ty {
        Seq::empty()
    } else {
        let (i, p) = lemma_find_first(t.children, ty);
        if find_first(t.children, ty) is Some {
            let path = seq![i] + p;
            assert(path.drop_first() =~= p);
            path
        } else {
            Seq::empty()
        }
    }
}

proof fn lemma_find_first(ts: Seq<AmoTree>, ty: u32) -> (r: (int, Seq<int>))
    ensures
        find_first(ts, ty) matches Some(n) ==> n.head.ty == ty && 0 <= r.0 < ts.len() && node_at(
            ts[r.0],
            r.1,
        ) == Some(n),
    decreases ts,
{
    if ts.len() == 0 {
        (0, Seq::empty())
    } else if find_tree(ts[0], ty) is Some {
        (0, lemma_find_tree(ts[0], ty))
    } else {
        let rest = ts.drop_first();
        let (j, p) = lemma_find_first(rest, ty);
        assert(j >= 0 ==> j + 1 >= 0);
        if find_first(rest, ty) is Some {
            assert(ts[j + 1] == rest[j]);
        }
        (j + 1, p)
    }
}

proof fn lemma_find_first_none(ts: Seq<AmoTree>, ty: u32, i: int)
    requires
        find_first(ts, ty) is None,
        0 <= i < ts.len(),
    ensures
        find_tree(ts[i], ty) is None,
    decreases ts.len(),
{
    if i > 0 {
        lemma_find_first_none(ts.drop_first(), ty, i - 1);
        assert(ts.drop_first()[i - 1] == ts[i]);
    }
}

proof fn lemma_found_when_present(t: AmoTree, ty: u32, path: Seq<int>)
    requires
        node_at(t, path) matches Some(m) && m.head.ty == ty,
    ensures
        find_tree(t, ty) is Some,
    decreases path.len(),
{
    if path.len() > 0 && t.head.ty != ty {
        let i = path[0];
        lemma_found_when_present(t.children[i], ty, path.drop_first());
        if find_first(t.children, ty) is None {
            lemma_find_first_none(t.children, ty, i);
        }
    }
}

/// Whether path `p` comes no later than path `q` in a walk that visits a
/// chunk before its children and children in order: `p` is a prefix of `q`,
/// or at the first place where they differ `p` takes an earlier child.
pub open spec fn preorder_le(p: Seq<int>, q: Seq<int>) -> bool
    decreases p.len(),
{
    if p.len() == 0 {
        true
    } else if q.len() == 0 {
        false
    } else if p[0] != q[0] {
        p[0] < q[0]
    } else {
        preorder_le(p.drop_first(), q.drop_first())
    }
}

/// Whether following `path` from `t` reaches a chunk of type `ty`.
pub open spec fn reaches_type(t: AmoTree, path: Seq<int>, ty: u32) -> bool {
    node_at(t, path) matches Some(m) && m.head.ty == ty
}

proof fn lemma_first_in_tree(t: AmoTree, ty: u32) -> (path: Seq<int>)
    ensures
        find_tree(t, ty) matches Some(n) ==> node_at(t, path) == Some(n) && n.head.ty == ty && forall|q: Seq<int>|
            #[trigger] reaches_type(t, q, ty) ==> preorder_le(path, q),
    decreases t,
{
    if t.head.ty == ty {
        let path = Seq::<int>::empty();
        assert(node_at(t, path) == Some(t));
        path
    } else {
        let (j, p) = lemma_first_in_children(t.children, ty);
        if let Some(n) = find_first(t.children, ty) {
            let path = seq![j] + p;
            assert(path.drop_first() =~= p);
            assert(path[0] == j);
            assert forall|q: Seq<int>| #[trigger] reaches_type(t, q, ty) implies preorder_le(path, q) by {
                assert(q.len() > 0);
                let k = q[0];
                assert(0 <= k < t.children.len());
                assert(reaches_type(t.children[k], q.drop_first(), ty));
                if k < j {
                    lemma_found_when_present(t.children[k], ty, q.drop_first());
                    assert(false);
                } else if k == j {
                    assert(preorder_le(p, q.drop_first()));
                }
            }
            path
        } else {
            Seq::empty()
        }
    }
}

proof fn lemma_first_in_children(ts: Seq<AmoTree>, ty: u32) -> (r: (int, Seq<int>))
    ensures
        find_first(ts, ty) matches Some(n) ==> {
            &&& 0 <= r.0 < ts.len()
            &&& node_at(ts[r.0], r.1) == Some(n)
            &&& n.head.ty == ty
            &&& forall|k: int| 0 <= k < r.0 ==> find_tree(#[trigger] ts[k], ty) is None
            &&& forall|q: Seq<int>| #[trigger] reaches_type(ts[r.0], q, ty) ==> preorder_le(r.1, q)
        },
    decreases ts,
{
    if ts.len() == 0 {
        (0, Seq::empty())
    } else if find_tree(ts[0], ty) is Some {
        (0, lemma_first_in_tree(ts[0], ty))
    } else {
        let rest = ts.drop_first();
        let (j, p) = lemma_first_in_children(rest, ty);
        if find_first(rest, ty) is Some {
            assert(ts[j + 1] == rest[j]);
            assert forall|k: int| 0 <= k < j + 1 implies find_tree(#[trigger] ts[k], ty) is None by {
                if k > 0 {
                    assert(ts[k] == rest[k - 1]);
                }
            }
        }
        (j + 1, p)
    }
}

/// `find_node` finds the first chunk of the asked type in a walk that
/// visits a chunk before its children and children in order: it is reached
/// by a path that comes no later than the path to any chunk of that type.
/// So a chunk that has the type is found itself, and otherwise what the
/// first child holding such a chunk gives is found, whatever later children
/// hold.
pub proof fn lemma_find_node_first(t: AmoTree, ty: u32) -> (path: Seq<int>)
    ensures
        find_tree(t, ty) matches Some(n) ==> {
            &&& node_at(t, path) == Some(n)
            &&& n.head.ty == ty
            &&& forall|q: Seq<int>| #[trigger] reaches_type(t, q, ty) ==> preorder_le(path, q)
        },
{
    lemma_first_in_tree(t, ty)
}

/// `find_node` is sound and complete: what it finds has the type asked for
/// and is a chunk of the tree searched, reached by some path of child
/// indices, and it finds something exactly when some chunk of the tree has
/// that type.
pub proof fn lemma_find_node_sound_complete(t: AmoTree, ty: u32)
    ensures
        find_tree(t, ty) matches Some(n) ==> n.head.ty == ty && exists|path: Seq<int>|
            #[trigger] node_at(t, path) == Some(n),
        find_tree(t, ty) is Some <==> has_type(t, ty),
{
    let path = lemma_find_tree(t, ty);
    if let Some(n) = find_tree(t, ty) {
        assert(node_at(t, path) == Some(n));
        assert(has_type(t, ty));
    }
    if has_type(t, ty) {
        let p = choose|p: Seq<int>| #[trigger] node_at(t, p) matches Some(m) && m.head.ty == ty;
        lemma_found_when_present(t, ty, p);
    }
}


/// The payload of the first chunk of type `ty` in `t` where it is exactly
/// `size` bytes long.
pub open spec fn node_data_sized(t: AmoTree, ty: u32, size: int) -> Option<Seq<u8>> {
    match find_tree(t, ty) {
        Some(n) => if n.data.len() == size {
            Some(n.data)
        } else {
            None
        },
        None => None,
    }
}

/// The payload of the first chunk of type `ty` in `t` where its length is a
/// whole number of `elem_size`-byte elements; empty otherwise.
pub open spec fn node_elems(t: AmoTree, ty: u32, elem_size: int) -> Seq<u8> {
    match find_tree(t, ty) {
        Some(n) => if (n.data.len() as int) % elem_size == 0 {
            n.data
        } else {
            Seq::empty()
        },
        None => Seq::empty(),
    }
}

/// The payloads of the children of the first chunk of type `ty` in `t`,
/// where every one of them is exactly `size` bytes long.
pub open spec fn node_sub_datas(t: AmoTree, ty: u32, size: int) -> Option<Seq<Seq<u8>>> {
    match find_tree(t, ty) {
        Some(n) => if forall|i: int| 0 <= i < n.children.len() ==> (#[trigger] n.children[i]).data.len() == size {
            Some(n.children.map_values(|c: AmoTree| c.data))
        } else {
            None
        },
        None => None,
    }
}

impl<'a> AmoNode<'a> {
    /// The payload of the first chunk of type `target_ty`, where it holds
    /// exactly one `size`-byte record.
    pub fn cast_node(&self, target_ty: AmoType, size: usize) -> (r: Option<&'a [u8]>)
        ensures
            match r {
                Some(d) => node_data_sized(self.tree(), target_ty.ty(), size as int) == Some(d@),
                None => node_data_sized(self.tree(), target_ty.ty(), size as int) is None,
            },
    {
        match self.find_node(target_ty) {
            Some(n) => match cast_data(n.data, size) {
                Ok(d) => Some(d),
                Err(_) => None,
            },
            None => None,
        }
    }

    /// The payload of the first chunk of type `target_ty`, where it holds a
    /// whole number of `elem_size`-byte records; empty otherwise.
    pub fn cast_node_slice(&self, target_ty: AmoType, elem_size: usize) -> (r: &'a [u8])
        requires
            elem_size > 0,
        ensures
            r@ == node_elems(self.tree(), target_ty.ty(), elem_size as int),
    {
        let empty: &'a [u8] = &self.data[0..0];
        assert(empty@ =~= Seq::<u8>::empty());
        match self.find_node(target_ty) {
            Some(n) => match cast_data_vec(n.data, elem_size) {
                Ok(d) => d,
                Err(_) => empty,
            },
            None => empty,
        }
    }

    /// The payloads of the children of the first chunk of type `target_ty`,
    /// where each holds exactly one `size`-byte record.
    pub fn cast_node_sub_datas(&self, target_ty: AmoType, size: usize) -> (r: Option<Vec<&'a [u8]>>)
        ensures
            match r {
                Some(v) => node_sub_datas(self.tree(), target_ty.ty(), size as int) == Some(
                    v@.map_values(|d: &'a [u8]| d@),
                ),
                None => node_sub_datas(self.tree(), target_ty.ty(), size as int) is None,
            },
    {
        let node: &AmoNode<'a> = match self.find_node(target_ty) {
            Some(n) => n,
            None => {
                return None;
            },
        };
        let ghost nt = node.tree();
        let mut res: Vec<&'a [u8]> = Vec::new();
        let n: usize = node.children.len();
        let mut i: usize = 0;
        while i < n
            invariant
                n == node.children@.len(),
                nt == node.tree(),
                find_tree(self.tree(), target_ty.ty()) == Some(nt),
                i <= n,
                res@.len() == i,
                forall|k: int| 0 <= k < i ==> (#[trigger] nt.children[k]).data.len() == size,
                forall|k: int| 0 <= k < i ==> #[trigger] res@[k]@ == nt.children[k].data,
            decreases n - i,
        {
            let child: &AmoNode<'a> = &node.children[i];
            assert(nt.children[i as int] == child.tree());
            let value: &'a [u8] = match cast_data(child.data, size) {
                Ok(d) => d,
                Err(_) => {
                    assert(nt.children[i as int].data.len() != size);
                    return None;
                },
            };
            res.push(value);
            i = i + 1;
        }
        assert(res@.map_values(|d: &'a [u8]| d@) =~= nt.children.map_values(|c: AmoTree| c.data));
        Some(res)
    }
}


/// The name of a chunk type, as its variant is called.
pub open spec fn chunk_type_name(t: AmoType) -> Seq<char> {
    match t {
        AmoType::IndexedSubData => "IndexedSubData"@,
        AmoType::Start => "Start"@,
        AmoType::Meshes => "Meshes"@,
        AmoType::IndicesData => "IndicesData"@,
        AmoType::Mesh => "Mesh"@,
        AmoType::IndexList => "IndexList"@,
        AmoType::MaterialIds => "MaterialIds"@,
        AmoType::PositionData => "PositionData"@,
        AmoType::NormalData => "NormalData"@,
        AmoType::MaterialHead => "MaterialHead"@,
        AmoType::TextureHead => "TextureHead"@,
        AmoType::ModelAttributeUnk0x10000 => "ModelAttributeUnk0x10000"@,
        AmoType::VersionOrSomething => "VersionOrSomething"@,
        AmoType::Indices1 => "Indices1"@,
        AmoType::Indices2 => "Indices2"@,
        AmoType::MaterialList => "MaterialList"@,
        AmoType::MaterialIndex => "MaterialIndex"@,
        AmoType::Vertex => "Vertex"@,
        AmoType::Normal => "Normal"@,
        AmoType::TexCoords => "TexCoords"@,
        AmoType::Color => "Color"@,
        AmoType::Weight => "Weight"@,
        AmoType::UnknownModelSomething0xe0000 => "UnknownModelSomething0xe0000"@,
        AmoType::Attribute => "Attribute"@,
        AmoType::MatrixList => "MatrixList"@,
    }
}

impl AmoType {
    /// The chunk type whose type field is `ty`.
    pub open spec fn of_ty(ty: u32) -> Option<AmoType> {
        if ty == 0xffff_ffff {
            Some(AmoType::IndexedSubData)
        } else if ty == 1 {
            Some(AmoType::Start)
        } else if ty == 2 {
            Some(AmoType::Meshes)
        } else if ty == 3 {
            Some(AmoType::IndicesData)
        } else if ty == 4 {
            Some(AmoType::Mesh)
        } else if ty == 5 {
            Some(AmoType::IndexList)
        } else if ty == 6 {
            Some(AmoType::MaterialIds)
        } else if ty == 7 {
            Some(AmoType::PositionData)
        } else if ty == 8 {
            Some(AmoType::NormalData)
        } else if ty == 9 {
            Some(AmoType::MaterialHead)
        } else if ty == 0xa {
            Some(AmoType::TextureHead)
        } else if ty == 0x10000 {
            Some(AmoType::ModelAttributeUnk0x10000)
        } else if ty == 0x20000 {
            Some(AmoType::VersionOrSomething)
        } else if ty == 0x30000 {
            Some(AmoType::Indices1)
        } else if ty == 0x40000 {
            Some(AmoType::Indices2)
        } else if ty == 0x50000 {
            Some(AmoType::MaterialList)
        } else if ty == 0x60000 {
            Some(AmoType::MaterialIndex)
        } else if ty == 0x70000 {
            Some(AmoType::Vertex)
        } else if ty == 0x80000 {
            Some(AmoType::Normal)
        } else if ty == 0xa0000 {
            Some(AmoType::TexCoords)
        } else if ty == 0xb0000 {
            Some(AmoType::Color)
        } else if ty == 0xc0000 {
            Some(AmoType::Weight)
        } else if ty == 0xe0000 {
            Some(AmoType::UnknownModelSomething0xe0000)
        } else if ty == 0xf0000 {
            Some(AmoType::Attribute)
        } else if ty == 0x100000 {
            Some(AmoType::MatrixList)
        } else {
            None
        }
    }

    /// The chunk type whose type field is `val`, if any.
    pub fn from_ty(val: u32) -> (r: Option<AmoType>)
        ensures
            r == AmoType::of_ty(val),
    {
        match val {
            0xffff_ffff => Some(AmoType::IndexedSubData),
            1 => Some(AmoType::Start),
            2 => Some(AmoType::Meshes),
            3 => Some(AmoType::IndicesData),
            4 => Some(AmoType::Mesh),
            5 => Some(AmoType::IndexList),
            6 => Some(AmoType::MaterialIds),
            7 => Some(AmoType::PositionData),
            8 => Some(AmoType::NormalData),
            9 => Some(AmoType::MaterialHead),
            0xa => Some(AmoType::TextureHead),
            0x10000 => Some(AmoType::ModelAttributeUnk0x10000),
            0x20000 => Some(AmoType::VersionOrSomething),
            0x30000 => Some(AmoType::Indices1),
            0x40000 => Some(AmoType::Indices2),
            0x50000 => Some(AmoType::MaterialList),
            0x60000 => Some(AmoType::MaterialIndex),
            0x70000 => Some(AmoType::Vertex),
            0x80000 => Some(AmoType::Normal),
            0xa0000 => Some(AmoType::TexCoords),
            0xb0000 => Some(AmoType::Color),
            0xc0000 => Some(AmoType::Weight),
            0xe0000 => Some(AmoType::UnknownModelSomething0xe0000),
            0xf0000 => Some(AmoType::Attribute),
            0x100000 => Some(AmoType::MatrixList),
            _ => None,
        }
    }

    /// The name of the chunk type whose type field is `val`, or `val` in
    /// decimal where no type has it.
    pub fn try_as_string(val: u32) -> (s: String)
        ensures
            s@ == match AmoType::of_ty(val) {
                Some(t) => chunk_type_name(t),
                None => decimal(val as nat),
            },
    {
        let t: Option<AmoType> = AmoType::from_ty(val);
        match t {
            Some(ty) => {
                let s = match ty {
                    AmoType::IndexedSubData => String::from_str("IndexedSubData"),
                    AmoType::Start => String::from_str("Start"),
                    AmoType::Meshes => String::from_str("Meshes"),
                    AmoType::IndicesData => String::from_str("IndicesData"),
                    AmoType::Mesh => String::from_str("Mesh"),
                    AmoType::IndexList => String::from_str("IndexList"),
                    AmoType::MaterialIds => String::from_str("MaterialIds"),
                    AmoType::PositionData => String::from_str("PositionData"),
                    AmoType::NormalData => String::from_str("NormalData"),
                    AmoType::MaterialHead => String::from_str("MaterialHead"),
                    AmoType::TextureHead => String::from_str("TextureHead"),
                    AmoType::ModelAttributeUnk0x10000 => String::from_str("ModelAttributeUnk0x10000"),
                    AmoType::VersionOrSomething => String::from_str("VersionOrSomething"),
                    AmoType::Indices1 => String::from_str("Indices1"),
                    AmoType::Indices2 => String::from_str("Indices2"),
                    AmoType::MaterialList => String::from_str("MaterialList"),
                    AmoType::MaterialIndex => String::from_str("MaterialIndex"),
                    AmoType::Vertex => String::from_str("Vertex"),
                    AmoType::Normal => String::from_str("Normal"),
                    AmoType::TexCoords => String::from_str("TexCoords"),
                    AmoType::Color => String::from_str("Color"),
                    AmoType::Weight => String::from_str("Weight"),
                    AmoType::UnknownModelSomething0xe0000 => String::from_str("UnknownModelSomething0xe0000"),
                    AmoType::Attribute => String::from_str("Attribute"),
                    AmoType::MatrixList => String::from_str("MatrixList"),
                };
                s
            },
            None => decimal_string(val as u64),
        }
    }
}

/// Every chunk type is found again from its type field.
pub proof fn lemma_type_field_roundtrip(t: AmoType)
    ensures
        AmoType::of_ty(t.ty()) == Some(t),
{
}

/// A chunk's head together with its payload.
#[derive(Debug)]
pub struct AmoHeadRef<'a> {
    pub head: AmoHead,
    pub data: &'a [u8],
}

} // verus!
