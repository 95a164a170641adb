//! Views of a parsed AMO model: its meshes, with the chunks each one is made
//! of, and its material and texture records.

use crate::amo::{
    find_tree, find_tree_idx, node_data_sized, node_elems, node_sub_datas, AmoNode, AmoTree, AmoType,
};
use crate::bytes::{le32, u32_at};
use crate::strips::{
    decode_amo_indices_grouped, grouped_triangles, lemma_grouped_len, strips_fit, strips_in_bounds,
};
use vstd::prelude::*;

verus! {

/// Why a model or a mesh could not be viewed.
#[derive(Debug, Clone, Copy, PartialEq, Eq, Structural)]
pub enum AmoError {
    /// The chunk, of the type given, is not a mesh.
    NotMesh(u32),
    /// The chunk, of the type given, is not the start of a model.
    NotStart(u32),
    /// The weight chunk ends inside a vertex's joint count.
    UnexpectedEnd,
    /// The model has no 4-byte version chunk.
    MissingVersion,
    /// The model has no meshes chunk.
    MissingMeshes,
    /// The meshes chunk has no mesh at this index.
    MissingMesh(u32),
    /// The model has no material records of the expected size.
    MissingMaterials,
    /// The model has no texture records of the expected size.
    MissingTextures,
}

/// The bytes of a position or normal: three 32-bit floats.
pub const VERTEX_SIZE: usize = 12;
/// The bytes of a texture coordinate: two 32-bit floats.
pub const TEX_COORD_SIZE: usize = 8;
/// The bytes of a colour: four 32-bit floats.
pub const COLOR_SIZE: usize = 16;
/// The bytes of a joint weight: a 32-bit joint id and a 32-bit float.
pub const JOINT_SIZE: usize = 8;
/// The bytes of a material record.
pub const MATERIAL_DATA_SIZE: usize = 0x104;
/// The bytes of a texture record.
pub const TEXTURE_DATA_SIZE: usize = 0x100;

/// The 32-bit little-endian words of `d`, a trailing partial word left out.
pub open spec fn words_of(d: Seq<u8>) -> Seq<u32> {
    Seq::new(d.len() / 4, |i: int| le32(d, 4 * i))
}

/// Reads the 32-bit little-endian words of `d`.
pub fn read_words(d: &[u8]) -> (r: Vec<u32>)
    ensures
        r@ == words_of(d@),
{
    let len: usize = d.len();
    let n: usize = len / 4;
    let mut r: Vec<u32> = Vec::new();
    let mut i: usize = 0;
    while i < n
        invariant
            len == d@.len(),
            n == d@.len() / 4,
            i <= n,
            r@ =~= words_of(d@).take(i as int),
        decreases n - i,
    {
        r.push(u32_at(d, 4 * i));
        i = i + 1;
    }
    r
}

/// The joint lists of `n` vertices stored one after the other from byte `pos`
/// of a weight chunk's payload `d`: per vertex a 32-bit count, then that many
/// 8-byte joints. `None` where a list runs past the payload.
pub open spec fn weights_from(d: Seq<u8>, pos: int, n: nat) -> Option<Result<Seq<Seq<u8>>, AmoError>>
    decreases n,
{
    if n == 0 {
        Some(Ok(Seq::empty()))
    } else if pos + 4 > d.len() {
        Some(Err(AmoError::UnexpectedEnd))
    } else {
        let end = pos + 4 + 8 * le32(d, pos);
        if end > d.len() {
            None
        } else {
            match weights_from(d, end, (n - 1) as nat) {
                Some(Ok(r)) => Some(Ok(seq![d.subrange(pos + 4, end)] + r)),
                other => other,
            }
        }
    }
}

/// A mesh as values.
pub struct AmoMeshSpec {
    pub indices1_count: u32,
    pub indices1_data: Seq<u8>,
    pub indices2_count: u32,
    pub indices2_data: Seq<u8>,
    pub vertices: Seq<u8>,
    pub normals: Seq<u8>,
    pub tex_coords: Seq<u8>,
    pub colors: Seq<u8>,
    pub weights: Seq<Seq<u8>>,
    pub material_list: Seq<u32>,
    pub material_indices: Seq<u32>,
    pub matrix_list: Seq<u32>,
}

/// The payload and the count of the first chunk of type `ty`, or nothing.
pub open spec fn part(t: AmoTree, ty: AmoType) -> (u32, Seq<u8>) {
    match find_tree(t, ty.ty()) {
        Some(n) => (n.head.count, n.data),
        None => (0, Seq::empty()),
    }
}

/// The view of mesh chunk `t`: `None` where reading its weights would take a
/// slice past the end of their chunk.
pub open spec fn mesh_of(t: AmoTree) -> Option<Result<AmoMeshSpec, AmoError>> {
    if t.head.ty != AmoType::Mesh.ty() {
        Some(Err(AmoError::NotMesh(t.head.ty)))
    } else {
        let vertices = node_elems(t, AmoType::Vertex.ty(), 12);
        let weights = match find_tree(t, AmoType::Weight.ty()) {
            None => Some(Ok(Seq::empty())),
            Some(w) => weights_from(w.data, 0, vertices.len() / 12),
        };
        match weights {
            None => None,
            Some(Err(e)) => Some(Err(e)),
            Some(Ok(ws)) => Some(
                Ok(
                    AmoMeshSpec {
                        indices1_count: part(t, AmoType::Indices1).0,
                        indices1_data: part(t, AmoType::Indices1).1,
                        indices2_count: part(t, AmoType::Indices2).0,
                        indices2_data: part(t, AmoType::Indices2).1,
                        vertices,
                        normals: node_elems(t, AmoType::Normal.ty(), 12),
                        tex_coords: node_elems(t, AmoType::TexCoords.ty(), 8),
                        colors: node_elems(t, AmoType::Color.ty(), 16),
                        weights: ws,
                        material_list: words_of(node_elems(t, AmoType::MaterialList.ty(), 4)),
                        material_indices: words_of(node_elems(t, AmoType::MaterialIndex.ty(), 4)),
                        matrix_list: words_of(node_elems(t, AmoType::MatrixList.ty(), 4)),
                    },
                ),
            ),
        }
    }
}

/// Whether `s` is what a mesh view holds of the first chunk of type `ty`
/// read as `size`-byte records: its whole payload where that is a whole
/// number of records, else nothing; nothing where there is no such chunk.
pub open spec fn record_array(t: AmoTree, ty: u32, size: int, s: Seq<u8>) -> bool {
    match find_tree(t, ty) {
        Some(c) => if (c.data.len() as int) % size == 0 {
            s == c.data
        } else {
            s.len() == 0
        },
        None => s.len() == 0,
    }
}

/// Whether `w` are the 32-bit little-endian words of the payload of the
/// first chunk of type `ty`, where it is a whole number of words; none
/// otherwise.
pub open spec fn word_array(t: AmoTree, ty: u32, w: Seq<u32>) -> bool {
    match find_tree(t, ty) {
        Some(c) => if c.data.len() % 4 == 0 {
            w.len() == c.data.len() / 4 && forall|i: int| 0 <= i < w.len() ==> #[trigger] w[i] == le32(c.data, 4 * i)
        } else {
            w.len() == 0
        },
        None => w.len() == 0,
    }
}

/// The view of a mesh chunk holds each of its arrays at its record size:
/// positions (0x70000) and normals (0x80000) as 12-byte records of three
/// floats, texture coordinates (0xa0000) as 8-byte records, colours
/// (0xb0000) as 16-byte records, whatever the number of positions; the
/// material list (0x50000), material indices (0x60000) and matrix list
/// (0x100000) as 32-bit words; the index strips (0x30000, 0x40000) as the
/// payload and count of their chunks; and, where there is a weight chunk,
/// one joint list of 8-byte joints per position. A chunk of another type
/// than a mesh (4) is refused.
pub proof fn lemma_mesh_records(t: AmoTree)
    ensures
        t.head.ty != 4 <==> mesh_of(t) == Some(Err::<AmoMeshSpec, AmoError>(AmoError::NotMesh(t.head.ty))),
        mesh_of(t) matches Some(Ok(m)) ==> {
            &&& record_array(t, 0x70000, 12, m.vertices)
            &&& record_array(t, 0x80000, 12, m.normals)
            &&& record_array(t, 0xa0000, 8, m.tex_coords)
            &&& record_array(t, 0xb0000, 16, m.colors)
            &&& word_array(t, 0x50000, m.material_list)
            &&& word_array(t, 0x60000, m.material_indices)
            &&& word_array(t, 0x100000, m.matrix_list)
            &&& (find_tree(t, 0x30000) matches Some(c) ==> m.indices1_count == c.head.count
                && m.indices1_data == c.data)
            &&& (find_tree(t, 0x30000) is None ==> m.indices1_count == 0 && m.indices1_data.len() == 0)
            &&& (find_tree(t, 0x40000) matches Some(c) ==> m.indices2_count == c.head.count
                && m.indices2_data == c.data)
            &&& (find_tree(t, 0x40000) is None ==> m.indices2_count == 0 && m.indices2_data.len() == 0)
            &&& (find_tree(t, 0xc0000) is Some ==> m.weights.len() == m.vertices.len() / 12)
            &&& (find_tree(t, 0xc0000) is None ==> m.weights.len() == 0)
            &&& forall|k: int| 0 <= k < m.weights.len() ==> (#[trigger] m.weights[k]).len() % 8 == 0
        },
{
    if let Some(w) = find_tree(t, 0xc0000) {
        lemma_weights_shape(w.data, 0, node_elems(t, 0x70000, 12).len() / 12);
    }
}

proof fn lemma_weights_shape(d: Seq<u8>, pos: int, n: nat)
    requires
        0 <= pos,
    ensures
        weights_from(d, pos, n) matches Some(Ok(ws)) ==> ws.len() == n && forall|k: int|
            0 <= k < ws.len() ==> (#[trigger] ws[k]).len() % 8 == 0,
        weights_from(d, pos, n) matches Some(Err(e)) ==> e == AmoError::UnexpectedEnd,
    decreases n,
{
    if n > 0 && pos + 4 <= d.len() {
        let end = pos + 4 + 8 * le32(d, pos);
        if end <= d.len() {
            lemma_weights_shape(d, end, (n - 1) as nat);
            if let Some(Ok(r)) = weights_from(d, end, (n - 1) as nat) {
                let ws = seq![d.subrange(pos + 4, end)] + r;
                assert(ws[0].len() == 8 * le32(d, pos));
                assert forall|k: int| 0 <= k < ws.len() implies (#[trigger] ws[k]).len() % 8 == 0 by {
                    if k > 0 {
                        assert(ws[k] == r[k - 1]);
                    }
                }
            }
        }
    }
}

/// A mesh of a model, its arrays left in the model's bytes: the position,
/// normal, texture coordinate and colour arrays as raw records, the joint
/// weights as one raw list per vertex.
#[derive(Debug)]
pub struct AmoMeshView<'a> {
    pub indices1_count: u32,
    pub indices1_data: &'a [u8],
    pub indices2_count: u32,
    pub indices2_data: &'a [u8],
    pub vertices: &'a [u8],
    pub normals: &'a [u8],
    pub tex_coords: &'a [u8],
    pub colors: &'a [u8],
    pub weights: Vec<&'a [u8]>,
    pub material_list: Vec<u32>,
    pub material_indices: Vec<u32>,
    pub matrix_list: Vec<u32>,
}

impl<'a> View for AmoMeshView<'a> {
    type V = AmoMeshSpec;

    open spec fn view(&self) -> AmoMeshSpec {
        AmoMeshSpec {
            indices1_count: self.indices1_count,
            indices1_data: self.indices1_data@,
            indices2_count: self.indices2_count,
            indices2_data: self.indices2_data@,
            vertices: self.vertices@,
            normals: self.normals@,
            tex_coords: self.tex_coords@,
            colors: self.colors@,
            weights: self.weights@.map_values(|w: &'a [u8]| w@),
            material_list: self.material_list@,
            material_indices: self.material_indices@,
            matrix_list: self.matrix_list@,
        }
    }
}

/// Reads the joint lists of `n` vertices from a weight chunk's payload, or
/// `None` where a list runs past it.
fn read_weights<'a>(d: &'a [u8], n: usize) -> (r: Option<Result<Vec<&'a [u8]>, AmoError>>)
    ensures
        match (r, weights_from(d@, 0, n as nat)) {
            (Some(Ok(v)), Some(Ok(s))) => v@.map_values(|w: &'a [u8]| w@) == s,
            (Some(Err(e)), Some(Err(s))) => e == s,
            (None, None) => true,
            _ => false,
        },
{
    let len: usize = d.len();
    let mut res: Vec<&'a [u8]> = Vec::new();
    let mut pos: usize = 0;
    let mut k: usize = 0;
    let ghost all = weights_from(d@, 0, n as nat);
    assert(all == prepend_weights(Seq::empty(), all)) by {
        if let Some(Ok(r)) = all {
            assert(Seq::<Seq<u8>>::empty() + r =~= r);
        }
    }
    while k < n
        invariant
            len == d@.len(),
            pos <= len,
            k <= n,
            all == weights_from(d@, 0, n as nat),
            all == prepend_weights(res@.map_values(|w: &'a [u8]| w@), weights_from(d@, pos as int, (n - k) as nat)),
        decreases n - k,
    {
        if len - pos < 4 {
            return Some(Err(AmoError::UnexpectedEnd));
        }
        let count: u32 = u32_at(d, pos);
        let start: usize = pos + 4;
        if count as usize > (len - start) / 8 {
            return None;
        }
        let end: usize = start + count as usize * 8;
        let w: &'a [u8] = &d[start..end];
        let ghost before = res@.map_values(|w: &'a [u8]| w@);
        res.push(w);
        proof {
            assert(res@.map_values(|w: &'a [u8]| w@) =~= before.push(w@));
            if let Some(Ok(r)) = weights_from(d@, end as int, (n - k - 1) as nat) {
                assert(before + (seq![w@] + r) =~= before.push(w@) + r);
            }
        }
        pos = end;
        k = k + 1;
    }
    assert(res@.map_values(|w: &'a [u8]| w@) + Seq::<Seq<u8>>::empty() =~= res@.map_values(|w: &'a [u8]| w@));
    Some(Ok(res))
}

/// `r` with the lists `s` put in front, where it holds lists.
pub open spec fn prepend_weights(s: Seq<Seq<u8>>, r: Option<Result<Seq<Seq<u8>>, AmoError>>) -> Option<
    Result<Seq<Seq<u8>>, AmoError>,
> {
    match r {
        Some(Ok(t)) => Some(Ok(s + t)),
        _ => r,
    }
}

impl<'a> AmoMeshView<'a> {
    /// Views mesh chunk `node` as `try_from` does, or `None` where reading
    /// its weights would take a slice past the end of their chunk.
    pub fn checked_try_from(node: &AmoNode<'a>) -> (r: Option<Result<AmoMeshView<'a>, AmoError>>)
        ensures
            match (r, mesh_of(node.tree())) {
                (Some(Ok(m)), Some(Ok(s))) => m@ == s,
                (Some(Err(e)), Some(Err(s))) => e == s,
                (None, None) => true,
                _ => false,
            },
    {
        if node.head.ty != AmoType::Mesh.as_u32() {
            return Some(Err(AmoError::NotMesh(node.head.ty)));
        }
        let empty: &'a [u8] = &node.data[0..0];
        assert(empty@ =~= Seq::<u8>::empty());
        let (indices1_count, indices1_data): (u32, &'a [u8]) = match node.find_node(AmoType::Indices1) {
            Some(n) => (n.head.count, n.data),
            None => (0, empty),
        };
        let (indices2_count, indices2_data): (u32, &'a [u8]) = match node.find_node(AmoType::Indices2) {
            Some(n) => (n.head.count, n.data),
            None => (0, empty),
        };
        let vertices: &'a [u8] = node.cast_node_slice(AmoType::Vertex, VERTEX_SIZE);
        let normals: &'a [u8] = node.cast_node_slice(AmoType::Normal, VERTEX_SIZE);
        let tex_coords: &'a [u8] = node.cast_node_slice(AmoType::TexCoords, TEX_COORD_SIZE);
        let colors: &'a [u8] = node.cast_node_slice(AmoType::Color, COLOR_SIZE);
        let weights: Vec<&'a [u8]> = match node.find_node(AmoType::Weight) {
            Some(w) => match read_weights(w.data, vertices.len() / VERTEX_SIZE) {
                None => {
                    return None;
                },
                Some(Err(e)) => {
                    return Some(Err(e));
                },
                Some(Ok(ws)) => ws,
            },
            None => {
                let v: Vec<&'a [u8]> = Vec::new();
                assert(v@.map_values(|w: &'a [u8]| w@) =~= Seq::<Seq<u8>>::empty());
                v
            },
        };
        let material_list: Vec<u32> = read_words(node.cast_node_slice(AmoType::MaterialList, 4));
        let material_indices: Vec<u32> = read_words(node.cast_node_slice(AmoType::MaterialIndex, 4));
        let matrix_list: Vec<u32> = read_words(node.cast_node_slice(AmoType::MatrixList, 4));
        Some(
            Ok(
                AmoMeshView {
                    indices1_count,
                    indices1_data,
                    indices2_count,
                    indices2_data,
                    vertices,
                    normals,
                    tex_coords,
                    colors,
                    weights,
                    material_list,
                    material_indices,
                    matrix_list,
                },
            ),
        )
    }

    /// Views mesh chunk `node`: its index strips, its position, normal,
    /// texture coordinate and colour arrays (each empty unless a whole number
    /// of records), one joint list per position, and its material list,
    /// material indices and matrix list as 32-bit words.
    pub fn try_from(node: &AmoNode<'a>) -> (r: Result<AmoMeshView<'a>, AmoError>)
        requires
            mesh_of(node.tree()) is Some,
        ensures
            match (r, mesh_of(node.tree())) {
                (Ok(m), Some(Ok(s))) => m@ == s,
                (Err(e), Some(Err(s))) => e == s,
                _ => false,
            },
    {
        match AmoMeshView::checked_try_from(node) {
            Some(r) => r,
            None => {
                assert(false);
                Err(AmoError::MissingMeshes)
            },
        }
    }
}


/// The header of a texture record of a model: the texture's id and size.
#[derive(Debug, Clone, Copy)]
pub struct TextureData {
    pub id: u32,
    pub width: u32,
    pub height: u32,
    pub _pad0: [u32; 61],
}

impl TextureData {
    /// Reads a texture record from its 256 bytes.
    pub fn read(d: &[u8]) -> (t: TextureData)
        requires
            d@.len() == 0x100,
        ensures
            t.id == le32(d@, 0),
            t.width == le32(d@, 4),
            t.height == le32(d@, 8),
            forall|i: int| 0 <= i < 61 ==> #[trigger] t._pad0@[i] == le32(d@, 12 + 4 * i),
    {
        let mut pad: [u32; 61] = [0u32; 61];
        let mut i: usize = 0;
        while i < 61
            invariant
                d@.len() == 0x100,
                i <= 61,
                forall|k: int| 0 <= k < i ==> #[trigger] pad@[k] == le32(d@, 12 + 4 * k),
            decreases 61 - i,
        {
            pad[i] = u32_at(d, 12 + 4 * i);
            i = i + 1;
        }
        TextureData { id: u32_at(d, 0), width: u32_at(d, 4), height: u32_at(d, 8), _pad0: pad }
    }
}

/// A model as values.
pub struct AmoViewSpec {
    pub version: u32,
    pub meshes: Seq<AmoMeshSpec>,
    pub materials: Seq<Seq<u8>>,
    pub textures: Seq<Seq<u8>>,
}

/// The meshes of meshes chunk `mn` from index `i` on: for each index below
/// the chunk's count, the first mesh under that child.
pub open spec fn meshes_from(mn: AmoTree, i: nat) -> Option<Result<Seq<AmoMeshSpec>, AmoError>>
    decreases mn.head.count - i,
{
    if i >= mn.head.count {
        Some(Ok(Seq::empty()))
    } else {
        match find_tree_idx(mn, AmoType::Mesh.ty(), i as int) {
            None => Some(Err(AmoError::MissingMesh(i as u32))),
            Some(m) => match mesh_of(m) {
                None => None,
                Some(Err(e)) => Some(Err(e)),
                Some(Ok(ms)) => match meshes_from(mn, i + 1) {
                    Some(Ok(r)) => Some(Ok(seq![ms] + r)),
                    other => other,
                },
            },
        }
    }
}

/// The view of model `t`: `None` where reading a mesh's weights would take
/// a slice past the end of their chunk.
pub open spec fn view_of(t: AmoTree) -> Option<Result<AmoViewSpec, AmoError>> {
    if t.head.ty != AmoType::Start.ty() {
        Some(Err(AmoError::NotStart(t.head.ty)))
    } else {
        match node_data_sized(t, AmoType::VersionOrSomething.ty(), 4) {
            None => Some(Err(AmoError::MissingVersion)),
            Some(vd) => match find_tree(t, AmoType::Meshes.ty()) {
                None => Some(Err(AmoError::MissingMeshes)),
                Some(mn) => match meshes_from(mn, 0) {
                    None => None,
                    Some(Err(e)) => Some(Err(e)),
                    Some(Ok(meshes)) => match node_sub_datas(t, AmoType::MaterialHead.ty(), 0x104) {
                        None => Some(Err(AmoError::MissingMaterials)),
                        Some(materials) => match node_sub_datas(t, AmoType::TextureHead.ty(), 0x100) {
                            None => Some(Err(AmoError::MissingTextures)),
                            Some(textures) => Some(
                                Ok(AmoViewSpec { version: le32(vd, 0), meshes, materials, textures }),
                            ),
                        },
                    },
                },
            },
        }
    }
}

/// Whether `m` is the view of the first mesh (type 4) under child `k` of
/// the meshes chunk `mn`.
pub open spec fn mesh_under(mn: AmoTree, k: int, m: AmoMeshSpec) -> bool {
    find_tree_idx(mn, 4, k) matches Some(c) && mesh_of(c) == Some(Ok::<AmoMeshSpec, AmoError>(m))
}

proof fn lemma_meshes_from_layout(mn: AmoTree, i: nat)
    ensures
        meshes_from(mn, i) matches Some(Ok(ms)) ==> (i + ms.len() == mn.head.count || (ms.len() == 0 && i
            >= mn.head.count)) && forall|k: int| 0 <= k < ms.len() ==> mesh_under(mn, i + k, #[trigger] ms[k]),
    decreases mn.head.count - i,
{
    if i < mn.head.count {
        lemma_meshes_from_layout(mn, i + 1);
        if let Some(Ok(ms)) = meshes_from(mn, i) {
            let c = find_tree_idx(mn, 4, i as int)->Some_0;
            let first = mesh_of(c)->Some_0->Ok_0;
            let rest = meshes_from(mn, i + 1)->Some_0->Ok_0;
            assert(ms == seq![first] + rest);
            assert(mesh_under(mn, i as int, first));
            assert forall|k: int| 0 <= k < ms.len() implies mesh_under(mn, i + k, #[trigger] ms[k]) by {
                if k > 0 {
                    assert(ms[k] == rest[k - 1]);
                    assert(mesh_under(mn, (i + 1) + (k - 1), rest[k - 1]));
                }
            }
        }
    }
}

/// The view of a model (a start chunk, type 1): its version is the
/// little-endian word that is the whole payload of the first 0x20000 chunk;
/// for every index below the count of the first meshes chunk (type 2) it
/// holds the view of the first mesh (type 4) under that child, in order;
/// and it holds the payloads of the children of the first material head
/// (type 9), each 0x104 bytes, and of the first texture head (type 0xa),
/// each 0x100 bytes, in order.
pub proof fn lemma_model_view(t: AmoTree)
    ensures
        t.head.ty != 1 ==> view_of(t) == Some(Err::<AmoViewSpec, AmoError>(AmoError::NotStart(t.head.ty))),
        view_of(t) matches Some(Ok(v)) ==> {
            &&& t.head.ty == 1
            &&& find_tree(t, 0x20000) matches Some(vc) && vc.data.len() == 4 && v.version == le32(vc.data, 0)
            &&& find_tree(t, 2) matches Some(mn) && v.meshes.len() == mn.head.count && forall|k: int|
                0 <= k < v.meshes.len() ==> mesh_under(mn, k, #[trigger] v.meshes[k])
            &&& find_tree(t, 9) matches Some(mh) && v.materials.len() == mh.children.len() && forall|k: int|
                0 <= k < v.materials.len() ==> #[trigger] v.materials[k] == mh.children[k].data
                    && v.materials[k].len() == 0x104
            &&& find_tree(t, 0xa) matches Some(th) && v.textures.len() == th.children.len() && forall|k: int|
                0 <= k < v.textures.len() ==> #[trigger] v.textures[k] == th.children[k].data
                    && v.textures[k].len() == 0x100
        },
{
    if let Some(Ok(v)) = view_of(t) {
        let mn = find_tree(t, 2)->Some_0;
        lemma_meshes_from_layout(mn, 0);
        let ms = meshes_from(mn, 0)->Some_0->Ok_0;
        assert(v.meshes == ms);
        assert forall|k: int| 0 <= k < v.meshes.len() implies mesh_under(mn, k, #[trigger] v.meshes[k]) by {
            assert(mesh_under(mn, 0 + k, ms[k]));
        }
        let mh = find_tree(t, 9)->Some_0;
        assert forall|k: int| 0 <= k < v.materials.len() implies #[trigger] v.materials[k] == mh.children[k].data
            && v.materials[k].len() == 0x104 by {
            assert(mh.children[k].data.len() == 0x104);
        }
        let th = find_tree(t, 0xa)->Some_0;
        assert forall|k: int| 0 <= k < v.textures.len() implies #[trigger] v.textures[k] == th.children[k].data
            && v.textures[k].len() == 0x100 by {
            assert(th.children[k].data.len() == 0x100);
        }
    }
}

/// A model: its version word, its meshes, and its material and texture
/// records as raw bytes.
pub struct AmoView<'a> {
    pub version: u32,
    pub meshes: Vec<AmoMeshView<'a>>,
    pub materials: Vec<&'a [u8]>,
    pub textures: Vec<&'a [u8]>,
}

impl<'a> View for AmoView<'a> {
    type V = AmoViewSpec;

    open spec fn view(&self) -> AmoViewSpec {
        AmoViewSpec {
            version: self.version,
            meshes: self.meshes@.map_values(|m: AmoMeshView<'a>| m@),
            materials: self.materials@.map_values(|d: &'a [u8]| d@),
            textures: self.textures@.map_values(|d: &'a [u8]| d@),
        }
    }
}

/// `r` with the meshes `s` put in front, where it holds meshes.
pub open spec fn prepend_meshes(s: Seq<AmoMeshSpec>, r: Option<Result<Seq<AmoMeshSpec>, AmoError>>) -> Option<
    Result<Seq<AmoMeshSpec>, AmoError>,
> {
    match r {
        Some(Ok(t)) => Some(Ok(s + t)),
        _ => r,
    }
}

impl<'a> AmoView<'a> {
    /// Views a parsed model as `try_from` does, or `None` where reading a
    /// mesh's weights would take a slice past the end of their chunk.
    pub fn checked_try_from(node: AmoNode<'a>) -> (r: Option<Result<AmoView<'a>, AmoError>>)
        ensures
            match (r, view_of(node.tree())) {
                (Some(Ok(v)), Some(Ok(s))) => v@ == s,
                (Some(Err(e)), Some(Err(s))) => e == s,
                (None, None) => true,
                _ => false,
            },
    {
        if node.head.ty != AmoType::Start.as_u32() {
            return Some(Err(AmoError::NotStart(node.head.ty)));
        }
        let version: u32 = match node.cast_node(AmoType::VersionOrSomething, 4) {
            Some(d) => u32_at(d, 0),
            None => {
                return Some(Err(AmoError::MissingVersion));
            },
        };
        let meshes_node: &AmoNode<'a> = match node.find_node(AmoType::Meshes) {
            Some(n) => n,
            None => {
                return Some(Err(AmoError::MissingMeshes));
            },
        };
        let ghost mn = meshes_node.tree();
        let ghost all = meshes_from(mn, 0);
        let mut meshes: Vec<AmoMeshView<'a>> = Vec::new();
        let count: u32 = meshes_node.head.count;
        let mut i: u32 = 0;
        assert(all == prepend_meshes(Seq::empty(), all)) by {
            if let Some(Ok(r)) = all {
                assert(Seq::<AmoMeshSpec>::empty() + r =~= r);
            }
        }
        while i < count
            invariant
                mn == meshes_node.tree(),
                node.head.ty == AmoType::Start.ty(),
                node_data_sized(node.tree(), AmoType::VersionOrSomething.ty(), 4) is Some,
                find_tree(node.tree(), AmoType::Meshes.ty()) == Some(mn),
                count == mn.head.count,
                i <= count,
                all == meshes_from(mn, 0),
                all == prepend_meshes(meshes@.map_values(|m: AmoMeshView<'a>| m@), meshes_from(mn, i as nat)),
            decreases count - i,
        {
            let mesh_node: &AmoNode<'a> = match meshes_node.find_node_idx(AmoType::Mesh, i as usize) {
                Some(m) => m,
                None => {
                    return Some(Err(AmoError::MissingMesh(i)));
                },
            };
            let mesh_view: AmoMeshView<'a> = match AmoMeshView::checked_try_from(mesh_node) {
                None => {
                    return None;
                },
                Some(Err(e)) => {
                    return Some(Err(e));
                },
                Some(Ok(m)) => m,
            };
            let ghost before = meshes@.map_values(|m: AmoMeshView<'a>| m@);
            meshes.push(mesh_view);
            proof {
                assert(meshes@.map_values(|m: AmoMeshView<'a>| m@) =~= before.push(mesh_view@));
                if let Some(Ok(r)) = meshes_from(mn, i as nat + 1) {
                    assert(before + (seq![mesh_view@] + r) =~= before.push(mesh_view@) + r);
                }
            }
            i = i + 1;
        }
        assert(meshes@.map_values(|m: AmoMeshView<'a>| m@) + Seq::<AmoMeshSpec>::empty() =~= meshes@.map_values(
            |m: AmoMeshView<'a>| m@,
        ));
        let materials: Vec<&'a [u8]> = match node.cast_node_sub_datas(AmoType::MaterialHead, MATERIAL_DATA_SIZE) {
            Some(m) => m,
            None => {
                return Some(Err(AmoError::MissingMaterials));
            },
        };
        let textures: Vec<&'a [u8]> = match node.cast_node_sub_datas(AmoType::TextureHead, TEXTURE_DATA_SIZE) {
            Some(t) => t,
            None => {
                return Some(Err(AmoError::MissingTextures));
            },
        };
        Some(Ok(AmoView { version, meshes, materials, textures }))
    }

    /// Views a parsed model: its version word (the payload of its 4-byte
    /// version chunk), for each index below the meshes chunk's count the
    /// first mesh under that child, and the records under its material and
    /// texture heads.
    pub fn try_from(node: AmoNode<'a>) -> (r: Result<AmoView<'a>, AmoError>)
        requires
            view_of(node.tree()) is Some,
        ensures
            match (r, view_of(node.tree())) {
                (Ok(v), Some(Ok(s))) => v@ == s,
                (Err(e), Some(Err(s))) => e == s,
                _ => false,
            },
    {
        match AmoView::checked_try_from(node) {
            Some(r) => r,
            None => {
                assert(false);
                Err(AmoError::MissingMeshes)
            },
        }
    }
}


/// The triangles of one material of a mesh, as one index list.
#[derive(Debug)]
pub struct AmoPrimitive {
    pub material_index: u32,
    pub indices: Vec<u32>,
}

/// A primitive as values: its material and its triangle indices.
pub open spec fn primitive_view(p: AmoPrimitive) -> (u32, Seq<u32>) {
    (p.material_index, p.indices@)
}

/// The strips of one index chunk unrolled into triangles; none where the
/// chunk has no payload.
pub open spec fn chunk_strips(data: Seq<u8>, count: u32) -> Seq<Seq<u32>> {
    if data.len() == 0 {
        Seq::empty()
    } else {
        grouped_triangles(data, count as nat)
    }
}

/// The strips of a mesh, those of its first index chunk then those of its
/// second.
pub open spec fn mesh_strips(m: AmoMeshSpec) -> Seq<Seq<u32>> {
    chunk_strips(m.indices1_data, m.indices1_count) + chunk_strips(m.indices2_data, m.indices2_count)
}

/// The material of strip `k` of a mesh: the entry of the material list that
/// the strip's material index names, or 0 where the list has no such entry.
pub open spec fn strip_material(m: AmoMeshSpec, k: int) -> u32 {
    let local = m.material_indices[k];
    if local < m.material_list.len() {
        m.material_list[local as int]
    } else {
        0
    }
}

/// Each strip of a mesh with its material.
pub open spec fn strips_with_materials(m: AmoMeshSpec) -> Seq<(u32, Seq<u32>)> {
    Seq::new(mesh_strips(m).len(), |k: int| (strip_material(m, k), mesh_strips(m)[k]))
}

/// The strips of a mesh are those of its first index chunk then those of
/// its second (none from a chunk without payload), and strip `k` takes the
/// entry of the material list that material index `k` names, or material 0
/// where the list has no such entry.
pub proof fn lemma_strip_materials(m: AmoMeshSpec)
    ensures
        ({
            let n1 = if m.indices1_data.len() > 0 {
                m.indices1_count as int
            } else {
                0
            };
            let n2 = if m.indices2_data.len() > 0 {
                m.indices2_count as int
            } else {
                0
            };
            let pairs = strips_with_materials(m);
            &&& pairs.len() == n1 + n2
            &&& forall|k: int|
                0 <= k < n1 ==> (#[trigger] pairs[k]).1 == grouped_triangles(m.indices1_data, m.indices1_count as nat)[k]
            &&& forall|k: int|
                n1 <= k < n1 + n2 ==> (#[trigger] pairs[k]).1 == grouped_triangles(
                    m.indices2_data,
                    m.indices2_count as nat,
                )[k - n1]
            &&& forall|k: int|
                0 <= k < pairs.len() ==> (#[trigger] pairs[k]).0 == if m.material_indices[k] < m.material_list.len() {
                    m.material_list[m.material_indices[k] as int]
                } else {
                    0u32
                }
        }),
{
    lemma_grouped_len(m.indices1_data, m.indices1_count as nat);
    lemma_grouped_len(m.indices2_data, m.indices2_count as nat);
    let s1 = chunk_strips(m.indices1_data, m.indices1_count);
    let s2 = chunk_strips(m.indices2_data, m.indices2_count);
    assert(mesh_strips(m) == s1 + s2);
}

/// Whether the strips of a mesh can be grouped: each non-empty index chunk
/// holds the strips its count announces, and every strip has a material
/// index.
pub open spec fn primitives_fit(m: AmoMeshSpec) -> bool {
    &&& m.indices1_data.len() > 0 ==> strips_fit(m.indices1_data, 0, m.indices1_count as nat)
    &&& m.indices2_data.len() > 0 ==> strips_fit(m.indices2_data, 0, m.indices2_count as nat)
    &&& (if m.indices1_data.len() > 0 { m.indices1_count as int } else { 0 }) + (if m.indices2_data.len()
        > 0 {
        m.indices2_count as int
    } else {
        0
    }) <= m.material_indices.len()
}

/// The position in `groups`, from `i` on, of the group of material `id`, or
/// -1 where there is none.
pub open spec fn group_index(groups: Seq<(u32, Seq<u32>)>, id: u32, i: int) -> int
    decreases groups.len() - i,
{
    if i < 0 || i >= groups.len() {
        -1
    } else if groups[i].0 == id {
        i
    } else {
        group_index(groups, id, i + 1)
    }
}

proof fn lemma_group_index(groups: Seq<(u32, Seq<u32>)>, id: u32, i: int)
    ensures
        group_index(groups, id, i) >= 0 ==> {
            let j = group_index(groups, id, i);
            &&& i <= j < groups.len()
            &&& groups[j].0 == id
            &&& forall|k: int| i <= k < j ==> #[trigger] groups[k].0 != id
        },
        group_index(groups, id, i) < 0 ==> group_index(groups, id, i) == -1 && forall|k: int|
            i <= k < groups.len() && 0 <= i ==> #[trigger] groups[k].0 != id,
    decreases groups.len() - i,
{
    if !(i < 0 || i >= groups.len()) && groups[i].0 != id {
        lemma_group_index(groups, id, i + 1);
    }
}

/// `groups` with strip `p` added to the group of its material, or, where
/// there is none, as a new last group.
pub open spec fn add_strip(groups: Seq<(u32, Seq<u32>)>, p: (u32, Seq<u32>)) -> Seq<(u32, Seq<u32>)> {
    let j = group_index(groups, p.0, 0);
    if j >= 0 {
        groups.update(j, (p.0, groups[j].1 + p.1))
    } else {
        groups.push(p)
    }
}

/// The strips `pairs`, each with its material, gathered into one group per
/// material, in the order that the materials first come, each group's
/// triangles in the order of its strips.
pub open spec fn group_strips(pairs: Seq<(u32, Seq<u32>)>) -> Seq<(u32, Seq<u32>)>
    decreases pairs.len(),
{
    if pairs.len() == 0 {
        Seq::empty()
    } else {
        add_strip(group_strips(pairs.drop_last()), pairs.last())
    }
}

/// The triangles of the strips among `pairs` of material `id`, one strip
/// after the other.
pub open spec fn strips_of(pairs: Seq<(u32, Seq<u32>)>, id: u32) -> Seq<u32>
    decreases pairs.len(),
{
    if pairs.len() == 0 {
        Seq::empty()
    } else {
        strips_of(pairs.drop_last(), id) + if pairs.last().0 == id {
            pairs.last().1
        } else {
            Seq::empty()
        }
    }
}

/// Whether every group of `groups` is the only one of its material, every
/// group holds the strips of its material among `pairs` in their order,
/// every group's material is that of some strip, and every strip's material
/// has a group.
pub open spec fn grouped_by_material(groups: Seq<(u32, Seq<u32>)>, pairs: Seq<(u32, Seq<u32>)>) -> bool {
    &&& forall|i: int, k: int| 0 <= i < k < groups.len() ==> #[trigger] groups[i].0 != #[trigger] groups[k].0
    &&& forall|i: int| 0 <= i < groups.len() ==> #[trigger] groups[i].1 == strips_of(pairs, groups[i].0)
    &&& forall|i: int| 0 <= i < groups.len() ==> has_material(pairs, (#[trigger] groups[i]).0)
    &&& forall|q: int| 0 <= q < pairs.len() ==> has_material(groups, (#[trigger] pairs[q]).0)
}

/// Whether some entry of `s` has material `id`.
pub open spec fn has_material(s: Seq<(u32, Seq<u32>)>, id: u32) -> bool {
    exists|k: int| 0 <= k < s.len() && #[trigger] s[k].0 == id
}

proof fn lemma_strips_of_absent(pairs: Seq<(u32, Seq<u32>)>, id: u32)
    requires
        forall|q: int| 0 <= q < pairs.len() ==> #[trigger] pairs[q].0 != id,
    ensures
        strips_of(pairs, id) == Seq::<u32>::empty(),
    decreases pairs.len(),
{
    if pairs.len() > 0 {
        let init = pairs.drop_last();
        assert forall|q: int| 0 <= q < init.len() implies #[trigger] init[q].0 != id by {
            assert(init[q] == pairs[q]);
        }
        lemma_strips_of_absent(init, id);
        assert(pairs.last().0 != id);
        assert(Seq::<u32>::empty() + Seq::<u32>::empty() =~= Seq::<u32>::empty());
    }
}

proof fn lemma_strips_of_push(init: Seq<(u32, Seq<u32>)>, last: (u32, Seq<u32>), id: u32)
    ensures
        strips_of(init.push(last), id) == strips_of(init, id) + if last.0 == id {
            last.1
        } else {
            Seq::<u32>::empty()
        },
{
    assert(init.push(last).drop_last() =~= init);
}

#[verifier::spinoff_prover]
proof fn lemma_add_to_group(g: Seq<(u32, Seq<u32>)>, init: Seq<(u32, Seq<u32>)>, last: (u32, Seq<u32>), j: int)
    requires
        grouped_by_material(g, init),
        0 <= j < g.len(),
        g[j].0 == last.0,
    ensures
        grouped_by_material(g.update(j, (last.0, g[j].1 + last.1)), init.push(last)),
{
    let pairs = init.push(last);
    let g2 = g.update(j, (last.0, g[j].1 + last.1));
    assert forall|i: int| 0 <= i < g2.len() implies #[trigger] g2[i].1 == strips_of(pairs, g2[i].0) by {
        lemma_strips_of_push(init, last, g2[i].0);
        if i != j {
            assert(g[i].0 != g[j].0);
            assert(strips_of(init, g[i].0) + Seq::<u32>::empty() =~= strips_of(init, g[i].0));
        }
    }
    assert forall|a: int, b: int| 0 <= a < b < g2.len() implies #[trigger] g2[a].0 != #[trigger] g2[b].0 by {
        assert(g[a].0 != g[b].0);
    }
    assert forall|i: int| 0 <= i < g2.len() implies has_material(pairs, (#[trigger] g2[i]).0) by {
        if i == j {
            assert(pairs[pairs.len() - 1].0 == g2[i].0);
        } else {
            assert(has_material(init, g[i].0));
            let q = choose|q: int| 0 <= q < init.len() && #[trigger] init[q].0 == g[i].0;
            assert(pairs[q] == init[q]);
        }
    }
    assert forall|q: int| 0 <= q < pairs.len() implies has_material(g2, (#[trigger] pairs[q]).0) by {
        if q < init.len() {
            assert(init[q] == pairs[q]);
            assert(has_material(g, init[q].0));
            let i = choose|i: int| 0 <= i < g.len() && #[trigger] g[i].0 == init[q].0;
            assert(g2[i].0 == g[i].0);
        } else {
            assert(g2[j].0 == pairs[q].0);
        }
    }
}

#[verifier::spinoff_prover]
proof fn lemma_new_group(g: Seq<(u32, Seq<u32>)>, init: Seq<(u32, Seq<u32>)>, last: (u32, Seq<u32>))
    requires
        grouped_by_material(g, init),
        forall|k: int| 0 <= k < g.len() ==> #[trigger] g[k].0 != last.0,
    ensures
        grouped_by_material(g.push(last), init.push(last)),
{
    let pairs = init.push(last);
    let g2 = g.push(last);
    assert forall|q: int| 0 <= q < init.len() implies #[trigger] init[q].0 != last.0 by {
        if init[q].0 == last.0 {
            assert(has_material(g, init[q].0));
            let i = choose|i: int| 0 <= i < g.len() && #[trigger] g[i].0 == init[q].0;
            assert(g[i].0 == last.0);
        }
    }
    lemma_strips_of_absent(init, last.0);
    assert forall|i: int| 0 <= i < g2.len() implies #[trigger] g2[i].1 == strips_of(pairs, g2[i].0) by {
        lemma_strips_of_push(init, last, g2[i].0);
        if i < g.len() {
            assert(g2[i] == g[i]);
            assert(strips_of(init, g[i].0) + Seq::<u32>::empty() =~= strips_of(init, g[i].0));
        } else {
            assert(Seq::<u32>::empty() + last.1 =~= last.1);
        }
    }
    assert forall|a: int, b: int| 0 <= a < b < g2.len() implies #[trigger] g2[a].0 != #[trigger] g2[b].0 by {
        if b == g.len() {
            assert(g2[a] == g[a]);
        } else {
            assert(g2[a] == g[a] && g2[b] == g[b]);
        }
    }
    assert forall|i: int| 0 <= i < g2.len() implies has_material(pairs, (#[trigger] g2[i]).0) by {
        if i < g.len() {
            assert(g2[i] == g[i]);
            assert(has_material(init, g[i].0));
            let q = choose|q: int| 0 <= q < init.len() && #[trigger] init[q].0 == g[i].0;
            assert(pairs[q] == init[q]);
        } else {
            assert(pairs[pairs.len() - 1].0 == g2[i].0);
        }
    }
    assert forall|q: int| 0 <= q < pairs.len() implies has_material(g2, (#[trigger] pairs[q]).0) by {
        if q < init.len() {
            assert(init[q] == pairs[q]);
            assert(has_material(g, init[q].0));
            let i = choose|i: int| 0 <= i < g.len() && #[trigger] g[i].0 == init[q].0;
            assert(g2[i] == g[i]);
        } else {
            assert(g2[g.len() as int].0 == pairs[q].0);
        }
    }
}

/// Gathering strips by material loses, repeats and reorders nothing: each
/// material gets one primitive, which holds the triangles of that material's
/// strips in their order, and a material gets a primitive exactly when one
/// of the strips has it.
pub proof fn lemma_group_strips(pairs: Seq<(u32, Seq<u32>)>)
    ensures
        grouped_by_material(group_strips(pairs), pairs),
    decreases pairs.len(),
{
    if pairs.len() == 0 {
        let g = group_strips(pairs);
        assert(g =~= Seq::<(u32, Seq<u32>)>::empty());
    } else {
        let init = pairs.drop_last();
        let last = pairs.last();
        assert(pairs =~= init.push(last));
        let g = group_strips(init);
        lemma_group_strips(init);
        lemma_group_index(g, last.0, 0);
        let j = group_index(g, last.0, 0);
        if j >= 0 {
            lemma_add_to_group(g, init, last, j);
        } else {
            lemma_new_group(g, init, last);
        }
    }
}

/// Finds the group of material `id` among `groups`.
fn find_group(groups: &Vec<AmoPrimitive>, id: u32) -> (r: Option<usize>)
    ensures
        match r {
            Some(j) => j < groups@.len() && group_index(groups@.map_values(|p: AmoPrimitive| primitive_view(p)), id, 0) == j,
            None => group_index(groups@.map_values(|p: AmoPrimitive| primitive_view(p)), id, 0) == -1,
        },
{
    let ghost gs = groups@.map_values(|p: AmoPrimitive| primitive_view(p));
    let n: usize = groups.len();
    let mut i: usize = 0;
    while i < n
        invariant
            n == gs.len(),
            gs == groups@.map_values(|p: AmoPrimitive| primitive_view(p)),
            i <= n,
            group_index(gs, id, 0) == group_index(gs, id, i as int),
        decreases n - i,
    {
        if groups[i].material_index == id {
            assert(gs[i as int].0 == id);
            return Some(i);
        }
        assert(gs[i as int].0 != id);
        i = i + 1;
    }
    None
}

/// Adds strip `tris` of material `id` to `groups`.
fn add_to_groups(groups: &mut Vec<AmoPrimitive>, id: u32, tris: Vec<u32>)
    ensures
        final(groups)@.map_values(|p: AmoPrimitive| primitive_view(p)) == add_strip(
            old(groups)@.map_values(|p: AmoPrimitive| primitive_view(p)),
            (id, tris@),
        ),
{
    let ghost gs = groups@.map_values(|p: AmoPrimitive| primitive_view(p));
    match find_group(groups, id) {
        Some(j) => {
            let mut group = AmoPrimitive { material_index: 0, indices: Vec::new() };
            groups.set_and_swap(j, &mut group);
            let mut extra: Vec<u32> = tris;
            let ghost old_indices = group.indices@;
            let ghost extra_v = extra@;
            group.indices.append(&mut extra);
            proof {
                lemma_group_index(gs, id, 0);
            }
            assert(old_indices == gs[j as int].1);
            assert(group.material_index == id);
            groups.set(j, group);
            assert(groups@.map_values(|p: AmoPrimitive| primitive_view(p)) =~= gs.update(
                j as int,
                (id, gs[j as int].1 + extra_v),
            ));
        },
        None => {
            groups.push(AmoPrimitive { material_index: id, indices: tris });
            assert(groups@.map_values(|p: AmoPrimitive| primitive_view(p)) =~= gs.push((id, tris@)));
        },
    }
}

impl<'a> AmoMeshView<'a> {
    /// Whether the strips of the mesh can be gathered by `primitives`.
    pub fn can_group(&self) -> (b: bool)
        ensures
            b == primitives_fit(self@),
    {
        let n1: u64 = if self.indices1_data.len() > 0 {
            if !strips_in_bounds(self.indices1_data, self.indices1_count) {
                return false;
            }
            self.indices1_count as u64
        } else {
            0
        };
        let n2: u64 = if self.indices2_data.len() > 0 {
            if !strips_in_bounds(self.indices2_data, self.indices2_count) {
                return false;
            }
            self.indices2_count as u64
        } else {
            0
        };
        n1 + n2 <= self.material_indices.len() as u64
    }

    /// The triangles of the mesh gathered by material: every strip of the
    /// first index chunk, then of the second (a chunk without payload gives
    /// none), takes the next material index; the strip's triangles go to the
    /// material that the material list holds at that index (0 where it holds
    /// none). One primitive per material, in the order the materials first
    /// come.
    pub fn primitives(&self) -> (r: Vec<AmoPrimitive>)
        requires
            primitives_fit(self@),
        ensures
            r@.map_values(|p: AmoPrimitive| primitive_view(p)) == group_strips(strips_with_materials(self@)),
    {
        let ghost m = self@;
        let ghost pairs = strips_with_materials(m);
        let mut groups: Vec<AmoPrimitive> = Vec::new();
        let mut next_mat: usize = 0;
        let ghost s1 = chunk_strips(m.indices1_data, m.indices1_count);
        let ghost s2 = chunk_strips(m.indices2_data, m.indices2_count);
        let mut chunk: usize = 0;
        let nm: usize = self.material_indices.len();
        proof {
            lemma_grouped_len(m.indices1_data, m.indices1_count as nat);
            lemma_grouped_len(m.indices2_data, m.indices2_count as nat);
        }
        assert(groups@.map_values(|p: AmoPrimitive| primitive_view(p)) =~= group_strips(pairs.take(0)));
        while chunk < 2
            invariant
                m == self@,
                pairs == strips_with_materials(m),
                primitives_fit(m),
                s1 == chunk_strips(m.indices1_data, m.indices1_count),
                s2 == chunk_strips(m.indices2_data, m.indices2_count),
                mesh_strips(m) == s1 + s2,
                s1.len() == if m.indices1_data.len() > 0 { m.indices1_count as int } else { 0 },
                s2.len() == if m.indices2_data.len() > 0 { m.indices2_count as int } else { 0 },
                nm == m.material_indices.len(),
                chunk <= 2,
                next_mat == if chunk == 0 { 0 } else if chunk == 1 { s1.len() as int } else { (s1.len() + s2.len()) as int },
                groups@.map_values(|p: AmoPrimitive| primitive_view(p)) == group_strips(pairs.take(next_mat as int)),
            decreases 2 - chunk,
        {
            let (data, count): (&'a [u8], u32) = if chunk == 0 {
                (self.indices1_data, self.indices1_count)
            } else {
                (self.indices2_data, self.indices2_count)
            };
            let ghost sc = if chunk == 0 { s1 } else { s2 };
            let ghost base = next_mat as int;
            if data.len() != 0 {
                let strips: Vec<Vec<u32>> = decode_amo_indices_grouped(data, count);
                assert(strips@.len() == sc.len());
                assert forall|q: int| 0 <= q < sc.len() implies #[trigger] mesh_strips(m)[base + q] == sc[q] by {
                    if chunk == 0 {
                        assert((s1 + s2)[q] == s1[q]);
                    } else {
                        assert((s1 + s2)[s1.len() + q] == s2[q]);
                    }
                }
                let n: usize = strips.len();
                let mut k: usize = 0;
                while k < n
                    invariant
                        m == self@,
                        pairs == strips_with_materials(m),
                        mesh_strips(m) == s1 + s2,
                        primitives_fit(m),
                        nm == m.material_indices.len(),
                        mesh_strips(m).len() == pairs.len(),
                        n == strips@.len(),
                        n == sc.len(),
                        forall|q: int| 0 <= q < n ==> #[trigger] strips@[q]@ == sc[q],
                        base + n <= m.material_indices.len(),
                        base + n <= pairs.len(),
                        forall|q: int| 0 <= q < n ==> #[trigger] mesh_strips(m)[base + q] == sc[q],
                        k <= n,
                        next_mat == base + k,
                        groups@.map_values(|p: AmoPrimitive| primitive_view(p)) == group_strips(
                            pairs.take(next_mat as int),
                        ),
                    decreases n - k,
                {
                    let local: u32 = self.material_indices[next_mat];
                    let global: u32 = if (local as usize) < self.material_list.len() {
                        self.material_list[local as usize]
                    } else {
                        0
                    };
                    let tris: Vec<u32> = vstd::slice::slice_to_vec(strips[k].as_slice());
                    assert(pairs[next_mat as int] == (global, tris@));
                    assert(pairs.take(next_mat + 1).drop_last() =~= pairs.take(next_mat as int));
                    add_to_groups(&mut groups, global, tris);
                    next_mat = next_mat + 1;
                    k = k + 1;
                }
            }
            chunk = chunk + 1;
        }
        assert(pairs.take(next_mat as int) =~= pairs);
        groups
    }
}

} // verus!
