use mh1tool::text::decimal_string;
use mh1tool::amo::{
    decode_amo_indices, decode_amo_indices_grouped, enumerate_amo, read_head, strips_in_bounds, AmoError,
    AmoMaterialType, AmoMeshView, AmoNode, AmoTextureType, AmoType, AmoView, TextureData,
};

fn chunk(ty: u32, count: u32, payload: &[u8]) -> Vec<u8> {
    let mut out = Vec::new();
    out.extend_from_slice(&ty.to_le_bytes());
    out.extend_from_slice(&count.to_le_bytes());
    out.extend_from_slice(&(12 + payload.len() as u32).to_le_bytes());
    out.extend_from_slice(payload);
    out
}

fn words(ws: &[u32]) -> Vec<u8> {
    let mut out = Vec::new();
    for w in ws {
        out.extend_from_slice(&w.to_le_bytes());
    }
    out
}

fn concat(parts: &[Vec<u8>]) -> Vec<u8> {
    let mut out = Vec::new();
    for p in parts {
        out.extend_from_slice(p);
    }
    out
}

/// Two strips: (0, 1, 2) and (0, 1, 2, 3).
fn two_strips() -> Vec<u8> {
    words(&[3, 0, 1, 2, 4, 0, 1, 2, 3])
}

fn mesh_chunk() -> Vec<u8> {
    let vertices: Vec<u8> = (0..24).collect();
    let tex_coords: Vec<u8> = (100..116).collect();
    let normals = vec![0u8; 20];
    let weight = concat(&[words(&[1, 3]), vec![0, 0, 0x80, 0x3f], words(&[0])]);
    let kids = concat(&[
        chunk(0x70000, 0, &vertices),
        chunk(0xa0000, 0, &tex_coords),
        chunk(0x80000, 0, &normals),
        chunk(0xc0000, 0, &weight),
        chunk(0x50000, 0, &words(&[7, 9])),
        chunk(0x60000, 0, &words(&[1, 0])),
        chunk(0x30000, 2, &two_strips()),
    ]);
    chunk(4, 7, &kids)
}

fn texture_record() -> Vec<u8> {
    let mut rec = words(&[5, 64, 32]);
    rec.resize(0x100, 0);
    rec[0xfc] = 9;
    rec
}

fn material_record() -> Vec<u8> {
    // A chunk-shaped header inside the record must not be read as a chunk.
    let mut rec = chunk(4, 1, &[]);
    rec.resize(0x104, 1);
    rec
}

/// A model with a version chunk, one mesh, one material and one texture.
fn model() -> Vec<u8> {
    let kids = concat(&[
        chunk(0x20000, 0, &words(&[0x102])),
        chunk(2, 1, &mesh_chunk()),
        chunk(9, 1, &chunk(1, 0, &material_record())),
        chunk(0xa, 1, &chunk(0, 0, &texture_record())),
    ]);
    chunk(1, 4, &kids)
}

#[test]
fn try_as_string_names_known_types() {
    assert_eq!(AmoType::try_as_string(4), "Mesh");
    assert_eq!(AmoType::try_as_string(0x20000), "VersionOrSomething");
    assert_eq!(AmoType::try_as_string(0xffff_ffff), "IndexedSubData");
    assert_eq!(AmoType::try_as_string(0x100000), "MatrixList");
}

#[test]
fn try_as_string_writes_unknown_types_in_decimal() {
    assert_eq!(AmoType::try_as_string(0), "0");
    assert_eq!(AmoType::try_as_string(12345), "12345");
    assert_eq!(AmoType::try_as_string(0xd0000), "851968");
    assert_eq!(AmoType::try_as_string(4294967294), "4294967294");
}

#[test]
fn chunk_type_numbers_convert_both_ways() {
    assert_eq!(AmoType::try_from_primitive(-1), Some(AmoType::IndexedSubData));
    assert_eq!(AmoType::try_from_primitive(0xf0000), Some(AmoType::Attribute));
    assert_eq!(AmoType::try_from_primitive(0), None);
    assert_eq!(AmoType::IndexedSubData.as_i32(), -1);
    assert_eq!(AmoType::IndexedSubData.as_u32(), 0xffff_ffff);
    assert_eq!(AmoType::TexCoords.as_u32(), 0xa0000);
    assert_eq!(AmoType::from_ty(0xc0000), Some(AmoType::Weight));
    assert_eq!(AmoType::from_ty(0xd0000), None);
    for t in [AmoType::Start, AmoType::Color, AmoType::MatrixList, AmoType::IndexedSubData] {
        assert_eq!(AmoType::from_ty(t.as_u32()), Some(t));
    }
}

#[test]
fn material_and_texture_types_from_numbers() {
    assert_eq!(AmoMaterialType::try_from_primitive(5), Some(AmoMaterialType::MaterialType5));
    assert_eq!(AmoMaterialType::try_from_primitive(0), Some(AmoMaterialType::MaterialType0));
    assert_eq!(AmoMaterialType::try_from_primitive(3), None);
    assert_eq!(AmoTextureType::try_from_primitive(0), Some(AmoTextureType::TextureType0));
    assert_eq!(AmoTextureType::try_from_primitive(1), None);
}

#[test]
fn read_head_reads_three_words() {
    let data = chunk(0x70000, 3, &[1, 2, 3, 4]);
    let h = read_head(&data, 0);
    assert_eq!((h.ty, h.count, h.size), (0x70000, 3, 16));
}

#[test]
fn from_buf_reads_the_chunk_tree() {
    let data = model();
    let mut offset = 0usize;
    let root = AmoNode::from_buf(&data, &mut offset, None);
    assert_eq!(offset, data.len());
    assert_eq!(root.head.ty, 1);
    assert_eq!(root.head.count, 4);
    assert_eq!(root.children.len(), 4);
    assert_eq!(root.data, &data[12..]);
    let meshes = &root.children[1];
    assert_eq!(meshes.head.ty, 2);
    assert_eq!(meshes.children.len(), 1);
    assert_eq!(meshes.children[0].children.len(), 7);
    // Leaves have no children.
    assert_eq!(root.children[0].children.len(), 0);
    assert_eq!(root.children[0].data, &[0x02, 0x01, 0, 0]);
    // The records under a material head are not read as chunk trees.
    let materials = &root.children[2];
    assert_eq!(materials.children.len(), 1);
    assert_eq!(materials.children[0].children.len(), 0);
    assert_eq!(materials.children[0].data.len(), 0x104);
}

#[test]
fn from_buf_moves_the_offset_past_one_chunk() {
    let data = concat(&[chunk(0x70000, 0, &[1, 2, 3]), chunk(0x80000, 0, &[4])]);
    let mut offset = 0usize;
    let first = AmoNode::from_buf(&data, &mut offset, None);
    assert_eq!(offset, 15);
    assert_eq!(first.data, &[1, 2, 3]);
    let second = AmoNode::from_buf(&data, &mut offset, None);
    assert_eq!(offset, 28);
    assert_eq!(second.head.ty, 0x80000);
}

#[test]
fn from_buf_stops_at_the_end_of_the_payload() {
    // The head announces three children, the payload holds one.
    let data = chunk(2, 3, &chunk(0x70000, 0, &[9]));
    let mut offset = 0usize;
    let node = AmoNode::from_buf(&data, &mut offset, None);
    assert_eq!(node.children.len(), 1);
}

#[test]
fn try_from_buf_refuses_a_chunk_past_the_end() {
    let data = model();
    assert!(AmoNode::try_from_buf(&data[..data.len() - 1], 0, None).is_none());
    assert!(AmoNode::try_from_buf(&data[..8], 0, None).is_none());
    assert!(AmoNode::try_from_buf(&data, 0, None).is_some());
}

#[test]
fn find_node_finds_the_first_chunk_of_a_type() {
    let data = model();
    let root = AmoNode::try_from_buf(&data, 0, None).unwrap();
    let v = root.find_node(AmoType::Vertex).unwrap();
    assert_eq!(v.data.len(), 24);
    assert_eq!(root.find_node(AmoType::Start).unwrap().head.size as usize, data.len());
    assert!(root.find_node(AmoType::Attribute).is_none());
    assert_eq!(root.find_node(AmoType::Indices1).unwrap().head.count, 2);
}

#[test]
fn find_node_idx_looks_under_one_child() {
    let data = model();
    let root = AmoNode::try_from_buf(&data, 0, None).unwrap();
    let meshes = root.find_node(AmoType::Meshes).unwrap();
    assert_eq!(meshes.find_node_idx(AmoType::Mesh, 0).unwrap().head.ty, 4);
    assert!(meshes.find_node_idx(AmoType::Mesh, 1).is_none());
    assert_eq!(root.find_node_idx(AmoType::Start, 0).unwrap().head.ty, 1);
    assert!(root.find_node_idx(AmoType::Mesh, 0).is_none());
    assert!(root.find_node_idx(AmoType::Mesh, 1).is_some());
}

#[test]
fn cast_node_checks_record_sizes() {
    let data = model();
    let root = AmoNode::try_from_buf(&data, 0, None).unwrap();
    assert_eq!(root.cast_node(AmoType::VersionOrSomething, 4), Some(&[0x02u8, 0x01, 0, 0][..]));
    assert_eq!(root.cast_node(AmoType::VersionOrSomething, 8), None);
    assert_eq!(root.cast_node(AmoType::Attribute, 4), None);
    assert_eq!(root.cast_node_slice(AmoType::Vertex, 12).len(), 24);
    assert_eq!(root.cast_node_slice(AmoType::Normal, 12).len(), 0);
    assert_eq!(root.cast_node_slice(AmoType::Attribute, 12).len(), 0);
    let textures = root.cast_node_sub_datas(AmoType::TextureHead, 0x100).unwrap();
    assert_eq!(textures.len(), 1);
    assert_eq!(textures[0], &texture_record()[..]);
    assert!(root.cast_node_sub_datas(AmoType::TextureHead, 0x104).is_none());
    assert!(root.cast_node_sub_datas(AmoType::Attribute, 0x100).is_none());
}

#[test]
fn decode_amo_indices_unrolls_strips() {
    assert_eq!(decode_amo_indices(&two_strips(), 2), vec![0, 1, 2, 0, 1, 2, 1, 3, 2]);
    assert_eq!(decode_amo_indices(&two_strips(), 1), vec![0, 1, 2]);
    assert_eq!(decode_amo_indices(&two_strips(), 0), Vec::<u32>::new());
}

#[test]
fn decode_amo_indices_masks_flags_and_skips_degenerate_triangles() {
    let payload = words(&[0x8000_0005, 0xff00_0004, 4, 0x0100_0004, 6, 7]);
    // Strip 4 4 4 6 7: triangles (4,4,4), (4,4,6) degenerate, then (4,6,7).
    assert_eq!(decode_amo_indices(&payload, 1), vec![4, 6, 7]);
    let odd = words(&[4, 1, 1, 2, 3]);
    // (1,1,2) degenerate; (1,2,3) at an odd position is turned.
    assert_eq!(decode_amo_indices(&odd, 1), vec![1, 3, 2]);
}

#[test]
fn decode_amo_indices_grouped_keeps_one_list_per_strip() {
    let grouped = decode_amo_indices_grouped(&two_strips(), 2);
    assert_eq!(grouped, vec![vec![0, 1, 2], vec![0, 1, 2, 1, 3, 2]]);
    let short = words(&[2, 5, 6]);
    assert_eq!(decode_amo_indices_grouped(&short, 1), vec![Vec::<u32>::new()]);
}

#[test]
fn decoded_triangles_are_whole_and_proper() {
    let payload = words(&[6, 1, 2, 2, 3, 4, 4, 4, 9, 9, 8, 7]);
    let tris = decode_amo_indices(&payload, 2);
    assert_eq!(tris.len() % 3, 0);
    for t in tris.chunks(3) {
        assert!(t[0] != t[1] && t[1] != t[2] && t[0] != t[2]);
    }
}

#[test]
fn strips_in_bounds_checks_the_payload() {
    assert!(strips_in_bounds(&two_strips(), 2));
    assert!(!strips_in_bounds(&two_strips(), 3));
    assert!(!strips_in_bounds(&two_strips()[..30], 2));
    assert!(strips_in_bounds(&[], 0));
}

#[test]
fn mesh_view_reads_the_parts_of_a_mesh() {
    let data = mesh_chunk();
    let node = AmoNode::try_from_buf(&data, 0, None).unwrap();
    let mesh = AmoMeshView::try_from(&node).unwrap();
    assert_eq!(mesh.indices1_count, 2);
    assert_eq!(mesh.indices1_data, &two_strips()[..]);
    assert_eq!(mesh.indices2_count, 0);
    assert_eq!(mesh.indices2_data.len(), 0);
    assert_eq!(mesh.vertices, &(0..24).collect::<Vec<u8>>()[..]);
    assert_eq!(mesh.tex_coords.len(), 16);
    assert_eq!(mesh.normals.len(), 0);
    assert_eq!(mesh.colors.len(), 0);
    assert_eq!(mesh.weights.len(), 2);
    assert_eq!(mesh.weights[0], &[3, 0, 0, 0, 0, 0, 0x80, 0x3f]);
    assert_eq!(mesh.weights[1].len(), 0);
    assert_eq!(mesh.material_list, vec![7, 9]);
    assert_eq!(mesh.material_indices, vec![1, 0]);
    assert_eq!(mesh.matrix_list, Vec::<u32>::new());
}

#[test]
fn mesh_view_refuses_other_chunks() {
    let data = model();
    let root = AmoNode::try_from_buf(&data, 0, None).unwrap();
    assert_eq!(AmoMeshView::try_from(&root).unwrap_err(), AmoError::NotMesh(1));
}

#[test]
fn mesh_view_refuses_truncated_weights() {
    let kids = concat(&[chunk(0x70000, 0, &[0u8; 12]), chunk(0xc0000, 0, &[1, 0])]);
    let data = chunk(4, 2, &kids);
    let node = AmoNode::try_from_buf(&data, 0, None).unwrap();
    assert_eq!(AmoMeshView::try_from(&node).unwrap_err(), AmoError::UnexpectedEnd);
    // A joint list longer than the chunk stops the reader.
    let kids = concat(&[chunk(0x70000, 0, &[0u8; 12]), chunk(0xc0000, 0, &words(&[5]))]);
    let data = chunk(4, 2, &kids);
    let node = AmoNode::try_from_buf(&data, 0, None).unwrap();
    assert!(AmoMeshView::checked_try_from(&node).is_none());
}

#[test]
fn primitives_gather_strips_by_material() {
    let data = mesh_chunk();
    let node = AmoNode::try_from_buf(&data, 0, None).unwrap();
    let mesh = AmoMeshView::try_from(&node).unwrap();
    assert!(mesh.can_group());
    let prims = mesh.primitives();
    assert_eq!(prims.len(), 2);
    assert_eq!(prims[0].material_index, 9);
    assert_eq!(prims[0].indices, vec![0, 1, 2]);
    assert_eq!(prims[1].material_index, 7);
    assert_eq!(prims[1].indices, vec![0, 1, 2, 1, 3, 2]);
}

#[test]
fn primitives_join_strips_of_the_same_material() {
    let strips2 = words(&[3, 4, 5, 6]);
    let kids = concat(&[
        chunk(0x50000, 0, &words(&[7])),
        chunk(0x60000, 0, &words(&[0, 5, 0])),
        chunk(0x30000, 2, &two_strips()),
        chunk(0x40000, 1, &strips2),
    ]);
    let data = chunk(4, 4, &kids);
    let node = AmoNode::try_from_buf(&data, 0, None).unwrap();
    let mesh = AmoMeshView::try_from(&node).unwrap();
    assert!(mesh.can_group());
    let prims = mesh.primitives();
    // Index 5 names no entry of the list: material 0.
    assert_eq!(prims.len(), 2);
    assert_eq!(prims[0].material_index, 7);
    assert_eq!(prims[0].indices, vec![0, 1, 2, 4, 5, 6]);
    assert_eq!(prims[1].material_index, 0);
    assert_eq!(prims[1].indices, vec![0, 1, 2, 1, 3, 2]);
}

#[test]
fn can_group_needs_a_material_index_per_strip() {
    let kids = concat(&[chunk(0x60000, 0, &words(&[0])), chunk(0x30000, 2, &two_strips())]);
    let data = chunk(4, 2, &kids);
    let node = AmoNode::try_from_buf(&data, 0, None).unwrap();
    let mesh = AmoMeshView::try_from(&node).unwrap();
    assert!(!mesh.can_group());
}

#[test]
fn model_view_reads_version_meshes_and_records() {
    let data = model();
    let root = AmoNode::try_from_buf(&data, 0, None).unwrap();
    let view = AmoView::try_from(root).unwrap();
    assert_eq!(view.version, 0x102);
    assert_eq!(view.meshes.len(), 1);
    assert_eq!(view.meshes[0].material_list, vec![7, 9]);
    assert_eq!(view.materials.len(), 1);
    assert_eq!(view.materials[0], &material_record()[..]);
    assert_eq!(view.textures.len(), 1);
    let tex = TextureData::read(view.textures[0]);
    assert_eq!((tex.id, tex.width, tex.height), (5, 64, 32));
    assert_eq!(tex._pad0[60], 9);
}

fn view_error(parts: &[Vec<u8>]) -> AmoError {
    let data = chunk(1, parts.len() as u32, &concat(parts));
    let root = AmoNode::try_from_buf(&data, 0, None).unwrap();
    match AmoView::try_from(root) {
        Ok(_) => panic!("the model was accepted"),
        Err(e) => e,
    }
}

#[test]
fn model_view_reports_what_is_missing() {
    let version = chunk(0x20000, 0, &words(&[1]));
    let meshes = chunk(2, 1, &mesh_chunk());
    let materials = chunk(9, 1, &chunk(1, 0, &material_record()));
    let textures = chunk(0xa, 1, &chunk(0, 0, &texture_record()));
    assert_eq!(
        view_error(&[meshes.clone(), materials.clone(), textures.clone()]),
        AmoError::MissingVersion
    );
    assert_eq!(
        view_error(&[version.clone(), materials.clone(), textures.clone()]),
        AmoError::MissingMeshes
    );
    let two_meshes = chunk(2, 2, &mesh_chunk());
    assert_eq!(
        view_error(&[version.clone(), two_meshes, materials.clone(), textures.clone()]),
        AmoError::MissingMesh(1)
    );
    assert_eq!(
        view_error(&[version.clone(), meshes.clone(), textures.clone()]),
        AmoError::MissingMaterials
    );
    assert_eq!(view_error(&[version, meshes, materials]), AmoError::MissingTextures);
}

#[test]
fn model_view_needs_a_start_chunk() {
    let data = mesh_chunk();
    let node = AmoNode::try_from_buf(&data, 0, None).unwrap();
    assert_eq!(AmoView::try_from(node).err(), Some(AmoError::NotStart(4)));
}

#[test]
fn enumerate_amo_lists_every_chunk() {
    let data = model();
    let (entries, ok) = enumerate_amo(&data, 0, 0, None).unwrap();
    assert!(ok);
    assert_eq!(entries.len(), 15);
    assert_eq!(entries[0].level, 0);
    assert_eq!(entries[0].known, Some(AmoType::Start));
    assert_eq!(entries[0].pos, 0);
    assert_eq!(entries[1].known, Some(AmoType::VersionOrSomething));
    assert_eq!(entries[1].level, 1);
    assert_eq!(entries[1].pos, 12);
    assert_eq!(entries[3].known, Some(AmoType::Mesh));
    assert_eq!(entries[3].level, 2);
    assert_eq!(entries[4].known, Some(AmoType::Vertex));
    assert_eq!(entries[4].level, 3);
    assert_eq!(entries[11].known, Some(AmoType::MaterialHead));
    // Records under material and texture heads are listed without a type.
    assert_eq!(entries[12].known, None);
    assert_eq!(entries[12].head.size, 12 + 0x104);
    assert_eq!(entries[14].known, None);
    assert_eq!(entries[14].level, 2);
}

#[test]
fn enumerate_amo_reports_running_out_of_data() {
    let data = model();
    let (entries, ok) = enumerate_amo(&data[..40], 0, 0, None).unwrap();
    assert!(!ok);
    assert_eq!(entries[0].known, Some(AmoType::Start));
    let (entries, ok) = enumerate_amo(&data[..5], 0, 0, None).unwrap();
    assert!(!ok);
    assert_eq!(entries.len(), 0);
    // An unknown type is listed and not entered.
    let unknown = chunk(0xd0001, 3, &[]);
    let (entries, ok) = enumerate_amo(&unknown, 0, 2, None).unwrap();
    assert!(ok);
    assert_eq!(entries.len(), 1);
    assert_eq!(entries[0].known, None);
    assert_eq!(entries[0].level, 2);
}

#[test]
fn decimal_string_writes_numbers() {
    assert_eq!(decimal_string(0), "0");
    assert_eq!(decimal_string(907), "907");
    assert_eq!(decimal_string(u64::MAX), "18446744073709551615");
}

#[test]
fn leaf_chunks_are_not_entered() {
    // A vertex chunk whose payload looks like a nested chunk.
    let data = chunk(0x70000, 1, &chunk(4, 0, &[]));
    let node = AmoNode::try_from_buf(&data, 0, None).unwrap();
    assert_eq!(node.children.len(), 0);
    assert_eq!(node.data.len(), 12);
    // The same payload under a branch type is read as a child.
    let data = chunk(5, 1, &chunk(4, 0, &[]));
    let node = AmoNode::try_from_buf(&data, 0, None).unwrap();
    assert_eq!(node.children.len(), 1);
    // Under a material head nothing is entered, whatever the type.
    let data = chunk(5, 1, &chunk(4, 0, &[]));
    let node = AmoNode::try_from_buf(&data, 0, Some(9)).unwrap();
    assert_eq!(node.children.len(), 0);
}
