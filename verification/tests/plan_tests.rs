use mh1tool::amo::{AmoNode, AmoView};
use mh1tool::plan::{can_plan, export_names, export_plan};
use mh1tool::text::{after_last_str, replace_str};

fn chunk(ty: u32, count: u32, payload: &[u8]) -> Vec<u8> {
    let mut out = Vec::new();
    out.extend_from_slice(&ty.to_le_bytes());
    out.extend_from_slice(&count.to_le_bytes());
    out.extend_from_slice(&(12 + payload.len() as u32).to_le_bytes());
    out.extend_from_slice(payload);
    out
}

fn words(ws: &[u32]) -> Vec<u8> {
    let mut out = Vec::new();
    for w in ws {
        out.extend_from_slice(&w.to_le_bytes());
    }
    out
}

fn concat(parts: &[Vec<u8>]) -> Vec<u8> {
    let mut out = Vec::new();
    for p in parts {
        out.extend_from_slice(p);
    }
    out
}

fn material_record(texture_id: u32) -> Vec<u8> {
    let mut rec = vec![0u8; 0x100];
    rec.extend_from_slice(&texture_id.to_le_bytes());
    rec
}

fn texture_record(id: u32) -> Vec<u8> {
    let mut rec = words(&[id, 64, 64]);
    rec.resize(0x100, 0);
    rec
}

fn model(meshes: &[Vec<u8>], materials: &[u32], textures: &[u32]) -> Vec<u8> {
    let mat_kids: Vec<Vec<u8>> = materials.iter().map(|&t| chunk(1, 0, &material_record(t))).collect();
    let tex_kids: Vec<Vec<u8>> = textures.iter().map(|&t| chunk(0, 0, &texture_record(t))).collect();
    let kids = concat(&[
        chunk(0x20000, 0, &words(&[1])),
        chunk(2, meshes.len() as u32, &concat(meshes)),
        chunk(9, materials.len() as u32, &concat(&mat_kids)),
        chunk(0xa, textures.len() as u32, &concat(&tex_kids)),
    ]);
    chunk(1, 4, &kids)
}

/// A mesh of two positions whose second strip has too few indices for a
/// triangle, with the given extra chunks.
fn mesh(extra: &[Vec<u8>]) -> Vec<u8> {
    let mut parts = vec![
        chunk(0x70000, 0, &[0u8; 24]),
        chunk(0x50000, 0, &words(&[7, 8])),
        chunk(0x60000, 0, &words(&[0, 1])),
        chunk(0x30000, 2, &words(&[3, 0, 1, 2, 2, 5, 6])),
    ];
    parts.extend_from_slice(extra);
    chunk(4, parts.len() as u32, &concat(&parts))
}

fn view_of(data: &[u8]) -> AmoView<'_> {
    let root = AmoNode::try_from_buf(data, 0, None).unwrap();
    AmoView::try_from(root).unwrap()
}

#[test]
fn export_names_follow_the_output_name() {
    let n = export_names("out/models/em01_amh.bin");
    assert_eq!(n.file_name, "em01_amh.bin");
    assert_eq!(n.clean_name, "em01_amh");
    assert_eq!(n.base_name, "em01");
    assert_eq!(n.stem, "out/models/em01_amh");
    let plain = export_names("model");
    assert_eq!(plain.file_name, "model");
    assert_eq!(plain.base_name, "model");
    assert_eq!(plain.stem, "model");
    let trailing = export_names("dir/");
    assert_eq!(trailing.file_name, "");
}

#[test]
fn replace_str_replaces_every_occurrence() {
    assert_eq!(replace_str("a.bin.bin", ".bin", ""), "a");
    assert_eq!(replace_str("aaa", "aa", "b"), "ba");
    assert_eq!(replace_str("é_amh.x", "_amh", "!"), "é!.x");
    assert_eq!(replace_str("", "x", "y"), "");
    assert_eq!(replace_str("abc", "abcd", "y"), "abc");
}

#[test]
fn after_last_str_takes_the_last_piece() {
    assert_eq!(after_last_str("a/b/c", '/'), "c");
    assert_eq!(after_last_str("abc", '/'), "abc");
    assert_eq!(after_last_str("/", '/'), "");
}

#[test]
fn export_plan_writes_what_each_mesh_has() {
    let with_parts = mesh(&[
        chunk(0xa0000, 0, &[0u8; 16]),
        chunk(0x80000, 0, &[0u8; 24]),
        chunk(0xc0000, 0, &words(&[0, 0])),
    ]);
    let data = model(&[with_parts], &[0, 3], &[5]);
    let view = view_of(&data);
    assert!(can_plan(&view));
    let plan = export_plan(&view, "em01");
    assert_eq!(plan.meshes.len(), 1);
    let m = &plan.meshes[0];
    assert_eq!(m.mesh, 0);
    assert!(m.normals && m.tex_coords && m.skin);
    assert!(!m.colors && !m.color_mismatch);
    // The strip of material 8 has no triangle: only material 7 is written.
    assert_eq!(m.primitives.len(), 1);
    assert_eq!(m.primitives[0].material_index, 7);
    assert_eq!(m.primitives[0].indices, vec![0, 1, 2]);
    assert_eq!(plan.materials, vec![Some(0), None]);
    assert_eq!(plan.textures.len(), 1);
    assert_eq!(plan.textures[0].id, 5);
    assert_eq!(plan.textures[0].image_name, "em01_tex.5.0.png");
}

#[test]
fn export_plan_skips_meshes_without_positions() {
    let empty = chunk(4, 1, &chunk(0x50000, 0, &words(&[7])));
    let colored = mesh(&[chunk(0xb0000, 0, &[0u8; 16])]);
    let data = model(&[empty, colored], &[], &[]);
    let view = view_of(&data);
    let plan = export_plan(&view, "x");
    assert_eq!(plan.meshes.len(), 1);
    assert_eq!(plan.meshes[0].mesh, 1);
    // One colour for two positions: the colours are left out.
    assert!(!plan.meshes[0].colors);
    assert!(plan.meshes[0].color_mismatch);
    assert!(!plan.meshes[0].normals && !plan.meshes[0].tex_coords && !plan.meshes[0].skin);
}

#[test]
fn export_plan_writes_matching_colours() {
    let colored = mesh(&[chunk(0xb0000, 0, &[0u8; 32])]);
    let data = model(&[colored], &[], &[]);
    let plan = export_plan(&view_of(&data), "x");
    assert!(plan.meshes[0].colors);
    assert!(!plan.meshes[0].color_mismatch);
}

#[test]
fn can_plan_needs_a_material_index_per_strip() {
    let parts = [
        chunk(0x70000, 0, &[0u8; 12]),
        chunk(0x60000, 0, &words(&[0])),
        chunk(0x30000, 2, &words(&[3, 0, 1, 2, 3, 0, 1, 2])),
    ];
    let bad = chunk(4, 3, &concat(&parts));
    let data = model(&[bad], &[], &[]);
    assert!(!can_plan(&view_of(&data)));
}
