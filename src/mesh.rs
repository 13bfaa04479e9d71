use vstd::prelude::*;

verus! {

/// The corners of the `t`-th triangle listed in `indices`.
pub open spec fn corners(indices: Seq<u32>, t: int) -> [usize; 3] {
    [indices[3 * t] as usize, indices[3 * t + 1] as usize, indices[3 * t + 2] as usize]
}

/// Every corner of every complete group of three in `indices` names one of
/// `point_count` points.
pub open spec fn corners_in_range(indices: Seq<u32>, point_count: nat) -> bool {
    forall|q: int| 0 <= q < indices.len() / 3 * 3 ==> #[trigger] indices[q] < point_count
}

/// The triangles of a mesh whose corner indices are listed three at a time, as a
/// triangulated OBJ mesh lists them; a trailing incomplete group is dropped.
/// `None` when a corner names no point among the first `point_count`.
pub fn mesh_triangles(indices: &Vec<u32>, point_count: usize) -> (r: Option<Vec<[usize; 3]>>)
    ensures
        r is None <==> !corners_in_range(indices@, point_count as nat),
        r matches Some(tris) ==> {
            &&& tris.len() == indices.len() / 3
            &&& forall|t: int| 0 <= t < tris.len() ==> #[trigger] tris@[t] == corners(indices@, t)
        },
{
    let count = indices.len() / 3;
    let mut tris: Vec<[usize; 3]> = Vec::new();
    let mut t: usize = 0;
    while t < count
        invariant
            count == indices.len() / 3,
            t <= count,
            tris.len() == t,
            forall|s: int| 0 <= s < t ==> #[trigger] tris@[s] == corners(indices@, s),
            forall|q: int| 0 <= q < 3 * t ==> #[trigger] indices@[q] < point_count,
        decreases count - t,
    {
        let a = indices[3 * t];
        let b = indices[3 * t + 1];
        let c = indices[3 * t + 2];
        if a as usize >= point_count || b as usize >= point_count || c as usize >= point_count {
            proof {
                assert(3 * t + 2 < count * 3);
            }
            return None;
        }
        tris.push([a as usize, b as usize, c as usize]);
        t = t + 1;
    }
    Some(tris)
}

} // verus!
