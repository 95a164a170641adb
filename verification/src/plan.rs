//! What a binary glTF export of a model holds, as plain values: the meshes
//! that are written and which vertex attributes each one carries, the
//! primitives of each mesh, the texture of each material and the image file
//! of each texture. The floating-point data itself is copied by the caller.

use crate::bytes::{le32, u32_at};
use crate::mesh::{
    group_strips, primitive_view, primitives_fit, strips_with_materials, AmoMeshSpec, AmoMeshView, AmoPrimitive,
    AmoView,
};
use crate::text::{after_last, after_last_str, decimal, decimal_string, replace_all, replace_str};
use vstd::prelude::*;

verus! {

/// A mesh as it is written: its index among the model's meshes, which of its
/// optional attributes are written, whether its colours are left out for
/// not matching its positions, and its primitives.
pub struct MeshPlan {
    pub mesh: usize,
    pub normals: bool,
    pub tex_coords: bool,
    /// Joints and weights, written together.
    pub skin: bool,
    pub colors: bool,
    pub color_mismatch: bool,
    pub primitives: Vec<AmoPrimitive>,
}

/// A mesh plan as values.
pub struct MeshPlanView {
    pub mesh: usize,
    pub normals: bool,
    pub tex_coords: bool,
    pub skin: bool,
    pub colors: bool,
    pub color_mismatch: bool,
    pub primitives: Seq<(u32, Seq<u32>)>,
}

impl View for MeshPlan {
    type V = MeshPlanView;

    open spec fn view(&self) -> MeshPlanView {
        MeshPlanView {
            mesh: self.mesh,
            normals: self.normals,
            tex_coords: self.tex_coords,
            skin: self.skin,
            colors: self.colors,
            color_mismatch: self.color_mismatch,
            primitives: self.primitives@.map_values(|p: AmoPrimitive| primitive_view(p)),
        }
    }
}

/// A texture as it is written: its id and the image file it points to.
pub struct TexturePlan {
    pub id: u32,
    pub image_name: String,
}

/// What an export holds.
pub struct ExportPlan {
    pub meshes: Vec<MeshPlan>,
    /// For each material, the texture it shows, where it names one.
    pub materials: Vec<Option<usize>>,
    pub textures: Vec<TexturePlan>,
}

/// The groups of `gs` that hold triangles, in order.
pub open spec fn nonempty_groups(gs: Seq<(u32, Seq<u32>)>) -> Seq<(u32, Seq<u32>)>
    decreases gs.len(),
{
    if gs.len() == 0 {
        Seq::empty()
    } else {
        nonempty_groups(gs.drop_last()) + if gs.last().1.len() > 0 {
            seq![gs.last()]
        } else {
            Seq::empty()
        }
    }
}

/// How mesh `i` of a model is written: not at all where it has no positions
/// or no primitives; else with normals, texture coordinates and joint
/// weights where it has them, with colours where it has as many as
/// positions, and with its primitives that hold triangles.
pub open spec fn mesh_plan(i: int, m: AmoMeshSpec) -> Option<MeshPlanView> {
    let groups = group_strips(strips_with_materials(m));
    if m.vertices.len() == 0 || groups.len() == 0 {
        None
    } else {
        let matching = m.colors.len() / 16 == m.vertices.len() / 12;
        Some(
            MeshPlanView {
                mesh: i as usize,
                normals: m.normals.len() > 0,
                tex_coords: m.tex_coords.len() > 0,
                skin: m.weights.len() > 0,
                colors: m.colors.len() > 0 && matching,
                color_mismatch: m.colors.len() > 0 && !matching,
                primitives: nonempty_groups(groups),
            },
        )
    }
}

/// The meshes of `ms` that are written, in order.
pub open spec fn mesh_plans(ms: Seq<AmoMeshSpec>) -> Seq<MeshPlanView>
    decreases ms.len(),
{
    if ms.len() == 0 {
        Seq::empty()
    } else {
        mesh_plans(ms.drop_last()) + match mesh_plan(ms.len() - 1, ms.last()) {
            Some(p) => seq![p],
            None => Seq::empty(),
        }
    }
}

/// The texture that a material record shows: the one its texture id (its
/// last word) names, where there are that many textures.
pub open spec fn material_texture(rec: Seq<u8>, textures: int) -> Option<usize> {
    let id = le32(rec, 0x100);
    if id < textures {
        Some(id as usize)
    } else {
        None
    }
}

/// The image file of texture `id` of a model whose file is named `base`.
pub open spec fn image_name(base: Seq<char>, id: u32) -> Seq<char> {
    base + "_tex."@ + decimal(id as nat) + ".0.png"@
}

/// Whether a model can be planned: every mesh's strips can be grouped and
/// every material and texture record has its size.
pub open spec fn plannable(v: AmoView) -> bool {
    &&& forall|i: int| 0 <= i < v.meshes@.len() ==> primitives_fit((#[trigger] v.meshes@[i])@)
    &&& forall|i: int| 0 <= i < v.materials@.len() ==> (#[trigger] v.materials@[i])@.len() == 0x104
    &&& forall|i: int| 0 <= i < v.textures@.len() ==> (#[trigger] v.textures@[i])@.len() == 0x100
}

/// Whether a mesh is written: it has positions and at least one group of
/// strips.
pub open spec fn written(m: AmoMeshSpec) -> bool {
    m.vertices.len() > 0 && group_strips(strips_with_materials(m)).len() > 0
}

proof fn lemma_nonempty_is_filter(gs: Seq<(u32, Seq<u32>)>)
    ensures
        nonempty_groups(gs) == gs.filter(|g: (u32, Seq<u32>)| g.1.len() > 0),
    decreases gs.len(),
{
    reveal(Seq::filter);
    if gs.len() > 0 {
        lemma_nonempty_is_filter(gs.drop_last());
        let f = |g: (u32, Seq<u32>)| g.1.len() > 0;
        let sub = gs.drop_last().filter(f);
        if gs.last().1.len() > 0 {
            assert(sub + seq![gs.last()] =~= sub.push(gs.last()));
        } else {
            assert(sub + Seq::<(u32, Seq<u32>)>::empty() =~= sub);
        }
    }
}

/// The meshes an export writes are exactly those with positions and at
/// least one group of strips, in the order of the model, each once; each
/// carries normals, texture coordinates and joint weights where it has
/// them, colours where it has as many as positions (and is flagged where it
/// has a different number), and its groups that hold triangles, in order.
pub proof fn lemma_plan_meshes(ms: Seq<AmoMeshSpec>)
    requires
        ms.len() <= usize::MAX,
    ensures
        forall|j: int|
            0 <= j < mesh_plans(ms).len() ==> {
                let p = #[trigger] mesh_plans(ms)[j];
                let i = p.mesh as int;
                let m = ms[i];
                &&& 0 <= i < ms.len()
                &&& written(m)
                &&& p.normals == (m.normals.len() > 0)
                &&& p.tex_coords == (m.tex_coords.len() > 0)
                &&& p.skin == (m.weights.len() > 0)
                &&& p.colors == (m.colors.len() > 0 && m.colors.len() / 16 == m.vertices.len() / 12)
                &&& p.color_mismatch == (m.colors.len() > 0 && m.colors.len() / 16 != m.vertices.len() / 12)
                &&& p.primitives == group_strips(strips_with_materials(m)).filter(
                    |g: (u32, Seq<u32>)| g.1.len() > 0,
                )
            },
        forall|j1: int, j2: int|
            0 <= j1 < j2 < mesh_plans(ms).len() ==> (#[trigger] mesh_plans(ms)[j1]).mesh < (
            #[trigger] mesh_plans(ms)[j2]).mesh,
        forall|i: int|
            0 <= i < ms.len() && #[trigger] written(ms[i]) ==> exists|j: int|
                0 <= j < mesh_plans(ms).len() && (#[trigger] mesh_plans(ms)[j]).mesh == i,
    decreases ms.len(),
{
    if ms.len() > 0 {
        let init = ms.drop_last();
        let last = ms.last();
        let n = ms.len() - 1;
        lemma_plan_meshes(init);
        let pi = mesh_plans(init);
        let ps = mesh_plans(ms);
        let tail = match mesh_plan(n, last) {
            Some(p) => seq![p],
            None => Seq::<MeshPlanView>::empty(),
        };
        assert(ps == pi + tail);
        lemma_nonempty_is_filter(group_strips(strips_with_materials(last)));
        assert forall|j: int| 0 <= j < ps.len() implies {
            let p = #[trigger] ps[j];
            let i = p.mesh as int;
            let m = ms[i];
            &&& 0 <= i < ms.len()
            &&& written(m)
            &&& p.normals == (m.normals.len() > 0)
            &&& p.tex_coords == (m.tex_coords.len() > 0)
            &&& p.skin == (m.weights.len() > 0)
            &&& p.colors == (m.colors.len() > 0 && m.colors.len() / 16 == m.vertices.len() / 12)
            &&& p.color_mismatch == (m.colors.len() > 0 && m.colors.len() / 16 != m.vertices.len() / 12)
            &&& p.primitives == group_strips(strips_with_materials(m)).filter(|g: (u32, Seq<u32>)| g.1.len() > 0)
        } by {
            if j < pi.len() {
                assert(ps[j] == pi[j]);
                assert(ms[pi[j].mesh as int] == init[pi[j].mesh as int]);
            } else {
                assert(ps[j] == tail[0]);
                assert(ms[n] == last);
            }
        }
        assert forall|j1: int, j2: int| 0 <= j1 < j2 < ps.len() implies (#[trigger] ps[j1]).mesh < (
        #[trigger] ps[j2]).mesh by {
            assert(ps[j1] == pi[j1]);
            if j2 < pi.len() {
                assert(ps[j2] == pi[j2]);
            } else {
                assert(ps[j2] == tail[0]);
            }
        }
        assert forall|i: int| 0 <= i < ms.len() && #[trigger] written(ms[i]) implies exists|j: int|
            0 <= j < ps.len() && (#[trigger] ps[j]).mesh == i by {
            if i < n {
                assert(init[i] == ms[i]);
                assert(written(init[i]));
                let j = choose|j: int| 0 <= j < pi.len() && (#[trigger] pi[j]).mesh == i;
                assert(ps[j] == pi[j]);
            } else {
                assert(ms[i] == last);
                assert(ps[pi.len() as int] == tail[0]);
            }
        }
    }
}

/// Copies the triangles of a group.
fn copy_group(p: &AmoPrimitive) -> (r: AmoPrimitive)
    ensures
        primitive_view(r) == primitive_view(*p),
{
    AmoPrimitive { material_index: p.material_index, indices: vstd::slice::slice_to_vec(p.indices.as_slice()) }
}

/// Plans mesh `i`.
fn plan_mesh(i: usize, m: &AmoMeshView) -> (r: Option<MeshPlan>)
    requires
        primitives_fit(m@),
    ensures
        match r {
            Some(p) => mesh_plan(i as int, m@) == Some(p@),
            None => mesh_plan(i as int, m@) is None,
        },
{
    let groups: Vec<AmoPrimitive> = m.primitives();
    let ghost gs = groups@.map_values(|p: AmoPrimitive| primitive_view(p));
    if m.vertices.len() == 0 || groups.len() == 0 {
        return None;
    }
    let mut prims: Vec<AmoPrimitive> = Vec::new();
    let n: usize = groups.len();
    let mut k: usize = 0;
    while k < n
        invariant
            n == groups@.len(),
            gs == groups@.map_values(|p: AmoPrimitive| primitive_view(p)),
            k <= n,
            prims@.map_values(|p: AmoPrimitive| primitive_view(p)) == nonempty_groups(gs.take(k as int)),
        decreases n - k,
    {
        let ghost before = prims@.map_values(|p: AmoPrimitive| primitive_view(p));
        assert(gs.take(k + 1).drop_last() =~= gs.take(k as int));
        assert(gs.take(k + 1).last() == gs[k as int]);
        if groups[k].indices.len() > 0 {
            let c = copy_group(&groups[k]);
            prims.push(c);
            assert(prims@.map_values(|p: AmoPrimitive| primitive_view(p)) =~= before + seq![gs[k as int]]);
        } else {
            assert(before + Seq::<(u32, Seq<u32>)>::empty() =~= before);
        }
        k = k + 1;
    }
    assert(gs.take(n as int) =~= gs);
    let verts: usize = m.vertices.len() / 12;
    let matching: bool = m.colors.len() / 16 == verts;
    let has_colors: bool = m.colors.len() > 0;
    let plan = MeshPlan {
        mesh: i,
        normals: m.normals.len() > 0,
        tex_coords: m.tex_coords.len() > 0,
        skin: m.weights.len() > 0,
        colors: has_colors && matching,
        color_mismatch: has_colors && !matching,
        primitives: prims,
    };
    assert(plan@.primitives == nonempty_groups(gs));
    Some(plan)
}

/// The image file of texture `id` under the base name `base`.
fn image_file(base: &str, id: u32) -> (s: String)
    ensures
        s@ == image_name(base@, id),
{
    let mut s = String::from_str(base);
    s.append("_tex.");
    let digits = decimal_string(id as u64);
    s.append(digits.as_str());
    s.append(".0.png");
    s
}

/// Whether a model can be planned by `export_plan`.
pub fn can_plan(view: &AmoView) -> (b: bool)
    ensures
        b == plannable(*view),
{
    let n: usize = view.meshes.len();
    let mut i: usize = 0;
    while i < n
        invariant
            n == view.meshes@.len(),
            i <= n,
            forall|k: int| 0 <= k < i ==> primitives_fit((#[trigger] view.meshes@[k])@),
        decreases n - i,
    {
        if !view.meshes[i].can_group() {
            return false;
        }
        i = i + 1;
    }
    let n: usize = view.materials.len();
    let mut i: usize = 0;
    while i < n
        invariant
            n == view.materials@.len(),
            i <= n,
            forall|k: int| 0 <= k < i ==> (#[trigger] view.materials@[k])@.len() == 0x104,
        decreases n - i,
    {
        if view.materials[i].len() != 0x104 {
            return false;
        }
        i = i + 1;
    }
    let n: usize = view.textures.len();
    let mut i: usize = 0;
    while i < n
        invariant
            n == view.textures@.len(),
            i <= n,
            forall|k: int| 0 <= k < i ==> (#[trigger] view.textures@[k])@.len() == 0x100,
        decreases n - i,
    {
        if view.textures[i].len() != 0x100 {
            return false;
        }
        i = i + 1;
    }
    true
}

/// Plans the export of a model whose file is named `base`: the meshes
/// written, in order, each as `mesh_plan` says; for each material the
/// texture it shows; for each texture its id and image file.
pub fn export_plan(view: &AmoView, base: &str) -> (r: ExportPlan)
    requires
        plannable(*view),
    ensures
        r.meshes@.map_values(|p: MeshPlan| p@) == mesh_plans(view.meshes@.map_values(|m: AmoMeshView| m@)),
        r.materials@.len() == view.materials@.len(),
        forall|i: int|
            0 <= i < r.materials@.len() ==> #[trigger] r.materials@[i] == material_texture(
                view.materials@[i]@,
                view.textures@.len() as int,
            ),
        r.textures@.len() == view.textures@.len(),
        forall|i: int|
            0 <= i < r.textures@.len() ==> (#[trigger] r.textures@[i]).id == le32(view.textures@[i]@, 0)
                && r.textures@[i].image_name@ == image_name(base@, r.textures@[i].id),
{
    let ghost ms = view.meshes@.map_values(|m: AmoMeshView| m@);
    let mut meshes: Vec<MeshPlan> = Vec::new();
    let n: usize = view.meshes.len();
    let mut i: usize = 0;
    while i < n
        invariant
            n == view.meshes@.len(),
            ms == view.meshes@.map_values(|m: AmoMeshView| m@),
            plannable(*view),
            i <= n,
            meshes@.map_values(|p: MeshPlan| p@) == mesh_plans(ms.take(i as int)),
        decreases n - i,
    {
        let ghost before = meshes@.map_values(|p: MeshPlan| p@);
        assert(ms.take(i + 1).drop_last() =~= ms.take(i as int));
        assert(ms.take(i + 1).last() == view.meshes@[i as int]@);
        assert(primitives_fit(view.meshes@[i as int]@));
        match plan_mesh(i, &view.meshes[i]) {
            Some(p) => {
                let ghost pv = p@;
                meshes.push(p);
                assert(meshes@.map_values(|p: MeshPlan| p@) =~= before + seq![pv]);
            },
            None => {
                assert(before + Seq::<MeshPlanView>::empty() =~= before);
            },
        }
        i = i + 1;
    }
    assert(ms.take(n as int) =~= ms);
    let nt: usize = view.textures.len();
    let mut materials: Vec<Option<usize>> = Vec::new();
    let nm: usize = view.materials.len();
    let mut i: usize = 0;
    while i < nm
        invariant
            nm == view.materials@.len(),
            nt == view.textures@.len(),
            plannable(*view),
            i <= nm,
            materials@.len() == i,
            forall|k: int|
                0 <= k < i ==> #[trigger] materials@[k] == material_texture(view.materials@[k]@, nt as int),
        decreases nm - i,
    {
        let rec: &[u8] = view.materials[i];
        assert(rec@.len() == 0x104);
        let id: u32 = u32_at(rec, 0x100);
        if (id as usize) < nt {
            materials.push(Some(id as usize));
        } else {
            materials.push(None);
        }
        i = i + 1;
    }
    let mut textures: Vec<TexturePlan> = Vec::new();
    let mut i: usize = 0;
    while i < nt
        invariant
            nt == view.textures@.len(),
            plannable(*view),
            i <= nt,
            textures@.len() == i,
            forall|k: int|
                0 <= k < i ==> (#[trigger] textures@[k]).id == le32(view.textures@[k]@, 0)
                    && textures@[k].image_name@ == image_name(base@, textures@[k].id),
        decreases nt - i,
    {
        let rec: &[u8] = view.textures[i];
        assert(rec@.len() == 0x100);
        let id: u32 = u32_at(rec, 0);
        textures.push(TexturePlan { id, image_name: image_file(base, id) });
        i = i + 1;
    }
    ExportPlan { meshes, materials, textures }
}

/// The names an export of a model is written under, taken from the name of
/// the output.
pub struct ExportNames {
    /// The last part of the output name's path.
    pub file_name: String,
    /// The file name without ".bin": the name of the scene's root node.
    pub clean_name: String,
    /// The clean name without "_amh": what texture image files start with.
    pub base_name: String,
    /// The output name without ".bin": the file written is this with ".glb".
    pub stem: String,
}

/// Takes the names of an export from the name of the output: its last path
/// part, that part without ".bin", that again without "_amh", and the whole
/// name without ".bin", each occurrence removed.
pub fn export_names(output_name: &str) -> (r: ExportNames)
    ensures
        r.file_name@ == after_last(output_name@, '/'),
        r.clean_name@ == replace_all(r.file_name@, ".bin"@, ""@),
        r.base_name@ == replace_all(r.clean_name@, "_amh"@, ""@),
        r.stem@ == replace_all(output_name@, ".bin"@, ""@),
{
    proof {
        reveal_strlit(".bin");
        reveal_strlit("_amh");
    }
    let file_name = after_last_str(output_name, '/');
    let clean_name = replace_str(file_name.as_str(), ".bin", "");
    let base_name = replace_str(clean_name.as_str(), "_amh", "");
    let stem = replace_str(output_name, ".bin", "");
    ExportNames { file_name, clean_name, base_name, stem }
}

} // verus!
