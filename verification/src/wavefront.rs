//! Meshes as a loader hands them over: vertices, and triangles that index them.

use vstd::prelude::*;
use crate::material::SMaterial;
use crate::vector3::SVector3;

verus! {

/// A mesh of triangles over a vertex array, all of one material. Nothing is
/// assumed of the winding.
pub struct Mesh {
    pub vertices: Vec<SVector3>,
    pub triangles: Vec<(u32, u32, u32)>,
    pub material: SMaterial,
}

impl Mesh {
    /// Whether every index of every triangle names a vertex.
    pub open spec fn wf(self) -> bool {
        forall|i: int|
            0 <= i < self.triangles.len() ==> {
                let t = #[trigger] self.triangles[i];
                t.0 < self.vertices.len() && t.1 < self.vertices.len() && t.2
                    < self.vertices.len()
            }
    }

    /// Returns whether every index of every triangle names a vertex.
    pub fn is_well_formed(&self) -> (r: bool)
        ensures
            r == self.wf(),
    {
        let mut i: usize = 0;
        while i < self.triangles.len()
            invariant
                i <= self.triangles.len(),
                forall|j: int|
                    0 <= j < i ==> {
                        let t = #[trigger] self.triangles[j];
                        t.0 < self.vertices.len() && t.1 < self.vertices.len() && t.2
                            < self.vertices.len()
                    },
            decreases self.triangles.len() - i,
        {
            let t = self.triangles[i];
            if t.0 as usize >= self.vertices.len() || t.1 as usize >= self.vertices.len()
                || t.2 as usize >= self.vertices.len() {
                return false;
            }
            i += 1;
        }
        true
    }
}

} // verus!
