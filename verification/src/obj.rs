//! Meshes as index lists: which triangles a mesh holds, where their corners
//! are found, and which material a mesh is drawn with.

use vstd::prelude::*;
use crate::mtl::{find, find_material, views, MtlInfo, MtlInfoView};

verus! {

/// A corner of a triangle: the number of its vertex, and whether the mesh
/// holds texture coordinates for that vertex.
///
/// The position and the normal of vertex `v` stand at the places `3 * v`,
/// `3 * v + 1` and `3 * v + 2` of their lists, its texture coordinates at
/// `2 * v` and `2 * v + 1`.
#[derive(Clone, Copy, Debug, PartialEq, Eq, Structural)]
pub struct Corner {
    pub vertex: u32,
    pub has_uv: bool,
}

/// Whether a position and a normal can be looked up for vertex `v`.
pub open spec fn vertex_ok(v: u32, positions_len: usize, normals_len: usize) -> bool {
    3 * v + 2 < positions_len && 3 * v + 2 < normals_len
}

/// Whether the list of texture coordinates reaches vertex `v`.
pub open spec fn vertex_has_uv(v: u32, texcoords_len: usize) -> bool {
    texcoords_len >= 2 * v + 2
}

/// The number of triangles that a list of indices starts: one for every
/// three indices, and one more for what is left over.
pub open spec fn triangle_count(indices: Seq<u32>) -> int {
    (indices.len() as int + 2) / 3
}

/// Whether triangle `t` can be put together: it has three indices, and a
/// position and a normal for each.
pub open spec fn triangle_ok(
    indices: Seq<u32>,
    t: int,
    positions_len: usize,
    normals_len: usize,
) -> bool {
    &&& 3 * t + 2 < indices.len()
    &&& vertex_ok(indices[3 * t], positions_len, normals_len)
    &&& vertex_ok(indices[3 * t + 1], positions_len, normals_len)
    &&& vertex_ok(indices[3 * t + 2], positions_len, normals_len)
}

/// The corner that an index stands for.
pub open spec fn corner_of(v: u32, texcoords_len: usize) -> Corner {
    Corner { vertex: v, has_uv: vertex_has_uv(v, texcoords_len) }
}

fn check_vertex(v: u32, positions_len: usize, normals_len: usize) -> (ok: bool)
    ensures
        ok == vertex_ok(v, positions_len, normals_len),
{
    let last: u64 = 3 * (v as u64) + 2;
    last < positions_len as u64 && last < normals_len as u64
}

/// The corners of the triangles of a mesh, three for each triangle, in the
/// order of the indices.
///
/// The answer is `Err(t)` where triangle number `t` is the first that
/// cannot be put together: the indices end before its third corner, or
/// one of its corners has no position or no normal.
pub fn mesh_corners(
    indices: &Vec<u32>,
    positions_len: usize,
    texcoords_len: usize,
    normals_len: usize,
) -> (r: Result<Vec<Corner>, usize>)
    ensures
        match r {
            Ok(corners) => {
                &&& forall|t: int|
                    0 <= t < triangle_count(indices@) ==> triangle_ok(
                        indices@,
                        t,
                        positions_len,
                        normals_len,
                    )
                &&& corners@ == indices@.map_values(|v: u32| corner_of(v, texcoords_len))
            },
            Err(t) => {
                &&& t < triangle_count(indices@)
                &&& !triangle_ok(indices@, t as int, positions_len, normals_len)
                &&& forall|u: int|
                    0 <= u < t ==> triangle_ok(indices@, u, positions_len, normals_len)
            },
        },
{
    let mut corners: Vec<Corner> = Vec::new();
    let mut t: usize = 0;
    let len = indices.len();
    while t < len / 3
        invariant
            t <= len / 3,
            len == indices.len(),
            forall|u: int| 0 <= u < t ==> triangle_ok(indices@, u, positions_len, normals_len),
            corners@ == indices@.take(3 * t).map_values(|v: u32| corner_of(v, texcoords_len)),
        decreases len / 3 - t,
    {
        let mut j: usize = 0;
        let ghost before = corners@;
        while j < 3
            invariant
                j <= 3,
                t < len / 3,
                len == indices.len(),
                forall|u: int| 0 <= u < t ==> triangle_ok(indices@, u, positions_len, normals_len),
                forall|k: int| 0 <= k < j ==> vertex_ok(#[trigger] indices@[3 * t + k], positions_len, normals_len),
                corners@ == indices@.take(3 * t + j).map_values(
                    |v: u32| corner_of(v, texcoords_len),
                ),
            decreases 3 - j,
        {
            let v = indices[3 * t + j];
            if !check_vertex(v, positions_len, normals_len) {
                assert(j == 0 || j == 1 || j == 2);
                assert(!triangle_ok(indices@, t as int, positions_len, normals_len));
                return Err(t);
            }
            let has_uv = texcoords_len as u64 >= 2 * (v as u64) + 2;
            corners.push(Corner { vertex: v, has_uv });
            assert(indices@.take(3 * t + j + 1) =~= indices@.take(3 * t + j).push(v));
            assert(corners@ =~= indices@.take(3 * t + j + 1).map_values(
                |v: u32| corner_of(v, texcoords_len),
            ));
            j += 1;
        }
        assert(vertex_ok(indices@[3 * t + 0], positions_len, normals_len));
        assert(vertex_ok(indices@[3 * t + 1], positions_len, normals_len));
        assert(vertex_ok(indices@[3 * t + 2], positions_len, normals_len));
        t += 1;
    }
    if len % 3 != 0 {
        return Err(t);
    }
    assert(indices@.take(3 * t) =~= indices@);
    Ok(corners)
}

/// The place, among the materials of a library, of the material that a
/// mesh names, or `None` where the mesh names none, names one that the
/// scene does not list, or names one that the library does not define.
pub open spec fn spec_resolve_material(
    material_id: Option<usize>,
    names: Seq<String>,
    materials: Seq<MtlInfoView>,
) -> Option<int> {
    match material_id {
        Some(id) => if id < names.len() && find(materials, names[id as int]@, 0) < materials.len() {
            Some(find(materials, names[id as int]@, 0))
        } else {
            None
        },
        None => None,
    }
}

/// Finds the material of a mesh in a material library.
///
/// `material_id` is the number of the mesh's material among the materials
/// of the scene, whose names are `names`. The answer is the place of the
/// first material of that name in `materials`, or `None` where the
/// default material is to be used.
pub fn resolve_material(
    material_id: Option<usize>,
    names: &Vec<String>,
    materials: &Vec<MtlInfo>,
) -> (r: Option<usize>)
    ensures
        match r {
            Some(at) => spec_resolve_material(material_id, names@, views(materials@)) == Some(
                at as int,
            ),
            None => spec_resolve_material(material_id, names@, views(materials@)) is None,
        },
{
    match material_id {
        Some(id) => {
            if id < names.len() {
                find_material(materials, &names[id])
            } else {
                None
            }
        },
        None => None,
    }
}

} // verus!
