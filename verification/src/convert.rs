//! Conversions between meshes: to a mesh of lower dimension, which drops the
//! simplices above, and between meshes that do and do not allow a face on two
//! tetrahedra.

use vstd::prelude::*;
use crate::simplex::{EdgeKey, TriKey, TetKey};
use crate::mesh::Mesh;

verus! {

impl<V, E, F, T, const MWB: bool> Mesh<V, E, F, T, MWB> {
    /// The mesh without its tetrahedra, as a mesh whose tetrahedra may have
    /// another payload and another rule for faces. Vertices, edges and
    /// triangles stay as they are.
    pub fn without_tets<U, const M: bool>(self) -> (m: Mesh<V, E, F, U, M>)
        requires
            self.wf(),
        ensures
            m.wf(),
            m@.tets == Map::<TetKey, U>::empty(),
            m@.tris == self@.tris,
            m@.edges == self@.edges,
            m@.vertices == self@.vertices,
            m@.targets == self@.targets,
            m@.sources == self@.sources,
            m@.tri_opps == self@.tri_opps,
            m@.next_id == self@.next_id,
    {
        let mut mesh = self;
        mesh.clear_tets();
        mesh.retyped()
    }

    /// The mesh without its triangles and tetrahedra, as a mesh whose
    /// triangles and tetrahedra may have other payloads. Vertices and edges
    /// stay as they are.
    pub fn without_tris<G, U, const M: bool>(self) -> (m: Mesh<V, E, G, U, M>)
        requires
            self.wf(),
        ensures
            m.wf(),
            m@.tets == Map::<TetKey, U>::empty(),
            m@.tris == Map::<TriKey, G>::empty(),
            m@.edges == self@.edges,
            m@.vertices == self@.vertices,
            m@.targets == self@.targets,
            m@.sources == self@.sources,
            m@.next_id == self@.next_id,
    {
        let mut mesh = self;
        mesh.clear_tris();
        mesh.retyped_tris()
    }

    /// The mesh without its edges, triangles and tetrahedra, as a mesh
    /// whose edges, triangles and tetrahedra may have other payloads.
    /// Vertices stay as they are.
    pub fn without_edges<D, G, U, const M: bool>(self) -> (m: Mesh<V, D, G, U, M>)
        requires
            self.wf(),
        ensures
            m.wf(),
            m@.tets == Map::<TetKey, U>::empty(),
            m@.tris == Map::<TriKey, G>::empty(),
            m@.edges == Map::<EdgeKey, D>::empty(),
            m@.vertices == self@.vertices,
            m@.next_id == self@.next_id,
    {
        let mut mesh = self;
        mesh.clear_edges();
        mesh.retyped_edges()
    }
}

impl<V, E, F, T> Mesh<V, E, F, T, true> {
    /// The same mesh as one in which a face may belong to many tetrahedra.
    pub fn into_general(self) -> (m: Mesh<V, E, F, T, false>)
        requires
            self.wf(),
        ensures
            m.wf(),
            m@ == self@,
    {
        self.relaxed()
    }
}

} // verus!
