//! Walkers: places in a mesh from which one steps to what lies next.
//!
//! A triangle walker stands on a directed edge of a triangle, a tetrahedron
//! walker on a directed edge of a face of a tetrahedron. A walker holds
//! vertex numbers only; the steps that look at the mesh take it as an
//! argument, and hold of a walker that stands on a simplex of that mesh.

use vstd::prelude::*;
use crate::ring::{succ, pred};
use crate::simplex::{
    TriKey, TetKey, canon_tri, canon_tet, distinct4, canon3, canon4, lemma_canon_tet,
    lemma_canon_tet_even,
};
use crate::ids::{VertexId, EdgeId, TriId, TetId};
use crate::mesh::Mesh;

verus! {

/// A place on a triangle: the directed edge from the first to the second
/// vertex, and the third vertex opposite it.
#[derive(Clone, Copy, Debug)]
pub struct TriWalker {
    a: u32,
    b: u32,
    c: u32,
}

/// A place on a tetrahedron: the directed edge from the first to the second
/// vertex, the face that the third vertex makes with it, and the fourth
/// vertex opposite that face.
#[derive(Clone, Copy, Debug)]
pub struct TetWalker {
    a: u32,
    b: u32,
    c: u32,
    d: u32,
}

impl View for TriWalker {
    type V = TriKey;

    closed spec fn view(&self) -> TriKey {
        (self.a, self.b, self.c)
    }
}

impl View for TetWalker {
    type V = TetKey;

    closed spec fn view(&self) -> TetKey {
        (self.a, self.b, self.c, self.d)
    }
}

/// The place across the edge: on the twin of the edge, on the other face of
/// the same tetrahedron that has the edge.
pub open spec fn across(w: TetKey) -> TetKey {
    (w.1, w.0, w.3, w.2)
}

/// The place over the tetrahedron: on the twin of the opposite edge, on the
/// face that the second vertex makes with it.
pub open spec fn over(w: TetKey) -> TetKey {
    (w.3, w.2, w.1, w.0)
}

/// Whether the last vertex of the tetrahedron's canonical form is the
/// second or the fourth vertex of the place `w`.
pub open spec fn last_at_even(w: TetKey) -> bool {
    let last = canon_tet(w.0, w.1, w.2, w.3).3;
    w.1 == last || w.3 == last
}

/// The next face of the same tetrahedron from the place `w`: over the
/// tetrahedron where the last vertex of its canonical form is the second or
/// the fourth vertex of `w`, across the edge else.
pub open spec fn next_face(w: TetKey) -> TetKey {
    if last_at_even(w) {
        over(w)
    } else {
        across(w)
    }
}

/// The previous face of the same tetrahedron from the place `w`: the step
/// that `next_face` does not take.
pub open spec fn prev_face(w: TetKey) -> TetKey {
    if last_at_even(w) {
        across(w)
    } else {
        over(w)
    }
}

/// The steps to the next and to the previous face undo each other, two
/// steps lead to the opposite edge, and four steps lead around the four faces
/// and back.
pub proof fn lemma_face_steps(w: TetKey)
    requires
        distinct4(w.0, w.1, w.2, w.3),
    ensures
        prev_face(next_face(w)) == w,
        next_face(prev_face(w)) == w,
        next_face(next_face(w)) == (w.2, w.3, w.0, w.1),
        next_face(next_face(next_face(next_face(w)))) == w,
        canon_tet(next_face(w).0, next_face(w).1, next_face(w).2, next_face(w).3) == canon_tet(
            w.0,
            w.1,
            w.2,
            w.3,
        ),
        next_face(w).3 != w.3,
        next_face(next_face(w)).3 != w.3,
        next_face(next_face(next_face(w))).3 != w.3,
        next_face(w).3 != next_face(next_face(w)).3,
        next_face(w).3 != next_face(next_face(next_face(w))).3,
{
    lemma_canon_tet_even(w.0, w.1, w.2, w.3);
    lemma_canon_tet(w.0, w.1, w.2, w.3);
}

impl TriWalker {
    /// Whether the walker stands on a triangle of the mesh.
    pub open spec fn on<V, E, F, T, const MWB: bool>(&self, mesh: &Mesh<V, E, F, T, MWB>) -> bool {
        mesh@.tris.contains_key(canon_tri(self@.0, self@.1, self@.2))
    }

    /// The vertex the edge leaves.
    pub fn first(&self) -> (v: VertexId)
        ensures
            v.0 == self@.0,
    {
        VertexId(self.a)
    }

    /// The vertex the edge reaches.
    pub fn second(&self) -> (v: VertexId)
        ensures
            v.0 == self@.1,
    {
        VertexId(self.b)
    }

    /// The vertex opposite the edge.
    pub fn third(&self) -> (v: VertexId)
        ensures
            v.0 == self@.2,
    {
        VertexId(self.c)
    }

    /// The edge.
    pub fn edge(&self) -> (e: EdgeId)
        ensures
            e@ == (self@.0, self@.1),
    {
        EdgeId([VertexId(self.a), VertexId(self.b)])
    }

    /// The triangle, in canonical form.
    pub fn tri(&self) -> (t: TriId)
        ensures
            t@ == canon_tri(self@.0, self@.1, self@.2),
    {
        let t = canon3(self.a, self.b, self.c);
        TriId([VertexId(t.0), VertexId(t.1), VertexId(t.2)])
    }

    /// The place on the next edge of the same triangle.
    pub fn next_edge(self) -> (w: TriWalker)
        ensures
            w@ == (self@.1, self@.2, self@.0),
    {
        TriWalker { a: self.b, b: self.c, c: self.a }
    }

    /// The place on the previous edge of the same triangle.
    pub fn prev_edge(self) -> (w: TriWalker)
        ensures
            w@ == (self@.2, self@.0, self@.1),
    {
        TriWalker { a: self.c, b: self.a, c: self.b }
    }

    /// The place on the same edge of the next triangle in the ring around
    /// the edge.
    pub fn next_opp<V, E, F, T, const MWB: bool>(self, mesh: &Mesh<V, E, F, T, MWB>) -> (w:
        TriWalker)
        requires
            mesh.wf(),
            self.on(mesh),
        ensures
            w.on(mesh),
            w@.0 == self@.0,
            w@.1 == self@.1,
            forall|i: int|
                #![trigger mesh@.tri_opps[(self@.0, self@.1)][i]]
                0 <= i < mesh@.tri_opps[(self@.0, self@.1)].len() && mesh@.tri_opps[(
                    self@.0,
                    self@.1,
                )][i] == self@.2 ==> w@.2 == mesh@.tri_opps[(self@.0, self@.1)][succ(
                    i,
                    mesh@.tri_opps[(self@.0, self@.1)].len() as int,
                )],
    {
        let c: u32 = mesh.edge_ring_step(self.a, self.b, self.c, true);
        TriWalker { a: self.a, b: self.b, c }
    }

    /// The place on the same edge of the previous triangle in the ring
    /// around the edge.
    pub fn prev_opp<V, E, F, T, const MWB: bool>(self, mesh: &Mesh<V, E, F, T, MWB>) -> (w:
        TriWalker)
        requires
            mesh.wf(),
            self.on(mesh),
        ensures
            w.on(mesh),
            w@.0 == self@.0,
            w@.1 == self@.1,
            forall|i: int|
                #![trigger mesh@.tri_opps[(self@.0, self@.1)][i]]
                0 <= i < mesh@.tri_opps[(self@.0, self@.1)].len() && mesh@.tri_opps[(
                    self@.0,
                    self@.1,
                )][i] == self@.2 ==> w@.2 == mesh@.tri_opps[(self@.0, self@.1)][pred(
                    i,
                    mesh@.tri_opps[(self@.0, self@.1)].len() as int,
                )],
    {
        let c: u32 = mesh.edge_ring_step(self.a, self.b, self.c, false);
        TriWalker { a: self.a, b: self.b, c }
    }

    /// The place on the twin of the edge, on the triangle that leads the
    /// ring around the twin; none where the twin edge has no triangle.
    pub fn on_twin_edge<V, E, F, T, const MWB: bool>(self, mesh: &Mesh<V, E, F, T, MWB>) -> (r:
        Option<TriWalker>)
        requires
            mesh.wf(),
        ensures
            r is Some <==> mesh@.tri_opps[(self@.1, self@.0)].len() > 0,
            r is Some ==> r->0@ == (self@.1, self@.0, mesh@.tri_opps[(self@.1, self@.0)][0])
                && r->0.on(mesh),
    {
        match mesh.edge_vertex_opp(EdgeId([VertexId(self.b), VertexId(self.a)])) {
            Some(c) => {
                proof {
                    let ring = mesh@.tri_opps[(self.b, self.a)];
                    assert(ring.contains(ring[0]));
                }
                Some(TriWalker { a: self.b, b: self.a, c: c.0 })
            },
            None => None,
        }
    }

    /// The place on the twin of the edge on the twin of the triangle; none
    /// where the mesh does not have the twin triangle.
    pub fn twin<V, E, F, T, const MWB: bool>(self, mesh: &Mesh<V, E, F, T, MWB>) -> (r: Option<
        TriWalker,
    >)
        ensures
            r is Some <==> mesh@.tris.contains_key(canon_tri(self@.1, self@.0, self@.2)),
            r is Some ==> r->0@ == (self@.1, self@.0, self@.2),
    {
        if mesh.has_tri(canon3(self.b, self.a, self.c)) {
            Some(TriWalker { a: self.b, b: self.a, c: self.c })
        } else {
            None
        }
    }
}

impl TetWalker {
    /// Whether the walker stands on a tetrahedron of the mesh.
    pub open spec fn on<V, E, F, T, const MWB: bool>(&self, mesh: &Mesh<V, E, F, T, MWB>) -> bool {
        mesh@.tets.contains_key(canon_tet(self@.0, self@.1, self@.2, self@.3))
    }

    /// The vertex the edge leaves.
    pub fn first(&self) -> (v: VertexId)
        ensures
            v.0 == self@.0,
    {
        VertexId(self.a)
    }

    /// The vertex the edge reaches.
    pub fn second(&self) -> (v: VertexId)
        ensures
            v.0 == self@.1,
    {
        VertexId(self.b)
    }

    /// The vertex that makes the face with the edge.
    pub fn third(&self) -> (v: VertexId)
        ensures
            v.0 == self@.2,
    {
        VertexId(self.c)
    }

    /// The vertex opposite the face.
    pub fn fourth(&self) -> (v: VertexId)
        ensures
            v.0 == self@.3,
    {
        VertexId(self.d)
    }

    /// The edge.
    pub fn edge(&self) -> (e: EdgeId)
        ensures
            e@ == (self@.0, self@.1),
    {
        EdgeId([VertexId(self.a), VertexId(self.b)])
    }

    /// The edge from the third to the fourth vertex, opposite the edge.
    pub fn opp_edge(&self) -> (e: EdgeId)
        ensures
            e@ == (self@.2, self@.3),
    {
        EdgeId([VertexId(self.c), VertexId(self.d)])
    }

    /// The face, in canonical form.
    pub fn tri(&self) -> (t: TriId)
        ensures
            t@ == canon_tri(self@.0, self@.1, self@.2),
    {
        let t = canon3(self.a, self.b, self.c);
        TriId([VertexId(t.0), VertexId(t.1), VertexId(t.2)])
    }

    /// The tetrahedron, in canonical form.
    pub fn tet(&self) -> (t: TetId)
        ensures
            t@ == canon_tet(self@.0, self@.1, self@.2, self@.3),
    {
        let t = canon4(self.a, self.b, self.c, self.d);
        TetId([VertexId(t.0), VertexId(t.1), VertexId(t.2), VertexId(t.3)])
    }

    /// The place on the next edge of the same face.
    pub fn next_edge(self) -> (w: TetWalker)
        ensures
            w@ == (self@.1, self@.2, self@.0, self@.3),
    {
        TetWalker { a: self.b, b: self.c, c: self.a, d: self.d }
    }

    /// The place on the previous edge of the same face.
    pub fn prev_edge(self) -> (w: TetWalker)
        ensures
            w@ == (self@.2, self@.0, self@.1, self@.3),
    {
        TetWalker { a: self.c, b: self.a, c: self.b, d: self.d }
    }

    /// The place on the next face of the same tetrahedron. Four such steps
    /// lead around the four faces and back.
    pub fn next_tri(self) -> (w: TetWalker)
        ensures
            w@ == next_face(self@),
    {
        let t = canon4(self.a, self.b, self.c, self.d);
        if self.b == t.3 || self.d == t.3 {
            TetWalker { a: self.d, b: self.c, c: self.b, d: self.a }
        } else {
            TetWalker { a: self.b, b: self.a, c: self.d, d: self.c }
        }
    }

    /// The place on the previous face of the same tetrahedron.
    pub fn prev_tri(self) -> (w: TetWalker)
        ensures
            w@ == prev_face(self@),
    {
        let t = canon4(self.a, self.b, self.c, self.d);
        if self.b == t.3 || self.d == t.3 {
            TetWalker { a: self.b, b: self.a, c: self.d, d: self.c }
        } else {
            TetWalker { a: self.d, b: self.c, c: self.b, d: self.a }
        }
    }

    /// The place on the opposite edge, on the face that the first vertex
    /// makes with it.
    pub fn flip_tri(self) -> (w: TetWalker)
        ensures
            w@ == (self@.2, self@.3, self@.0, self@.1),
    {
        TetWalker { a: self.c, b: self.d, c: self.a, d: self.b }
    }

    /// The place on the same edge and face of the next tetrahedron in the
    /// ring around the face.
    pub fn next_opp<V, E, F, T, const MWB: bool>(self, mesh: &Mesh<V, E, F, T, MWB>) -> (w:
        TetWalker)
        requires
            mesh.wf(),
            self.on(mesh),
        ensures
            w.on(mesh),
            w@.0 == self@.0,
            w@.1 == self@.1,
            w@.2 == self@.2,
            forall|i: int|
                #![trigger mesh@.tet_opps[canon_tri(self@.0, self@.1, self@.2)][i]]
                0 <= i < mesh@.tet_opps[canon_tri(self@.0, self@.1, self@.2)].len()
                    && mesh@.tet_opps[canon_tri(self@.0, self@.1, self@.2)][i] == self@.3 ==> w@.3
                    == mesh@.tet_opps[canon_tri(self@.0, self@.1, self@.2)][succ(
                    i,
                    mesh@.tet_opps[canon_tri(self@.0, self@.1, self@.2)].len() as int,
                )],
    {
        proof {
            self.lemma_on_ring(mesh);
        }
        let f = canon3(self.a, self.b, self.c);
        let d: u32 = mesh.tri_ring_step(f, self.d, true);
        let w = TetWalker { a: self.a, b: self.b, c: self.c, d };
        proof {
            w.lemma_ring_on(mesh);
        }
        w
    }

    /// The place on the same edge and face of the previous tetrahedron in
    /// the ring around the face.
    pub fn prev_opp<V, E, F, T, const MWB: bool>(self, mesh: &Mesh<V, E, F, T, MWB>) -> (w:
        TetWalker)
        requires
            mesh.wf(),
            self.on(mesh),
        ensures
            w.on(mesh),
            w@.0 == self@.0,
            w@.1 == self@.1,
            w@.2 == self@.2,
            forall|i: int|
                #![trigger mesh@.tet_opps[canon_tri(self@.0, self@.1, self@.2)][i]]
                0 <= i < mesh@.tet_opps[canon_tri(self@.0, self@.1, self@.2)].len()
                    && mesh@.tet_opps[canon_tri(self@.0, self@.1, self@.2)][i] == self@.3 ==> w@.3
                    == mesh@.tet_opps[canon_tri(self@.0, self@.1, self@.2)][pred(
                    i,
                    mesh@.tet_opps[canon_tri(self@.0, self@.1, self@.2)].len() as int,
                )],
    {
        proof {
            self.lemma_on_ring(mesh);
        }
        let f = canon3(self.a, self.b, self.c);
        let d: u32 = mesh.tri_ring_step(f, self.d, false);
        let w = TetWalker { a: self.a, b: self.b, c: self.c, d };
        proof {
            w.lemma_ring_on(mesh);
        }
        w
    }

    /// The place on the twin of the edge and of the face, on the
    /// tetrahedron that leads the ring around the twin face; none where the
    /// twin face has no tetrahedron.
    pub fn on_twin_tri<V, E, F, T, const MWB: bool>(self, mesh: &Mesh<V, E, F, T, MWB>) -> (r:
        Option<TetWalker>)
        requires
            mesh.wf(),
        ensures
            r is Some <==> mesh@.tet_opps[canon_tri(self@.1, self@.0, self@.2)].len() > 0,
            r is Some ==> r->0@ == (
                self@.1,
                self@.0,
                self@.2,
                mesh@.tet_opps[canon_tri(self@.1, self@.0, self@.2)][0],
            ) && r->0.on(mesh),
    {
        let f = TriId([VertexId(self.b), VertexId(self.a), VertexId(self.c)]);
        match mesh.tri_vertex_opp(f) {
            Some(d) => {
                let w = TetWalker { a: self.b, b: self.a, c: self.c, d: d.0 };
                proof {
                    let ring = mesh@.tet_opps[canon_tri(self.b, self.a, self.c)];
                    assert(ring.contains(ring[0]));
                    w.lemma_ring_on(mesh);
                }
                Some(w)
            },
            None => None,
        }
    }

    /// The place on the twin of the edge on the twin of the tetrahedron;
    /// none where the mesh does not have the twin tetrahedron.
    pub fn twin<V, E, F, T, const MWB: bool>(self, mesh: &Mesh<V, E, F, T, MWB>) -> (r: Option<
        TetWalker,
    >)
        ensures
            r is Some <==> mesh@.tets.contains_key(canon_tet(self@.1, self@.0, self@.2, self@.3)),
            r is Some ==> r->0@ == (self@.1, self@.0, self@.2, self@.3),
    {
        if mesh.has_tet(canon4(self.b, self.a, self.c, self.d)) {
            Some(TetWalker { a: self.b, b: self.a, c: self.c, d: self.d })
        } else {
            None
        }
    }

    // A walker on a tetrahedron of the mesh has its fourth vertex in the
    // ring around its face.
    proof fn lemma_on_ring<V, E, F, T, const MWB: bool>(&self, mesh: &Mesh<V, E, F, T, MWB>)
        requires
            mesh.wf(),
            self.on(mesh),
        ensures
            mesh@.tet_opps[canon_tri(self@.0, self@.1, self@.2)].contains(self@.3),
    {
        let t = canon_tet(self.a, self.b, self.c, self.d);
        crate::simplex::lemma_canon_tet_fixed(t);
        crate::simplex::lemma_walker_face(self.a, self.b, self.c, self.d);
    }

    // A walker whose fourth vertex is in the ring around its face stands on
    // a tetrahedron of the mesh.
    proof fn lemma_ring_on<V, E, F, T, const MWB: bool>(&self, mesh: &Mesh<V, E, F, T, MWB>)
        requires
            mesh.wf(),
            mesh@.tet_opps[canon_tri(self@.0, self@.1, self@.2)].contains(self@.3),
        ensures
            self.on(mesh),
    {
        let f = canon_tri(self.a, self.b, self.c);
        mesh@.lemma_tet_ring_base(f, self.d, MWB);
        crate::simplex::lemma_walker_face(self.a, self.b, self.c, self.d);
    }
}

impl<V, E, F, T, const MWB: bool> Mesh<V, E, F, T, MWB> {
    /// A walker on the edge `e`, on the triangle that leads the ring around
    /// it; none where the edge has no triangle.
    pub fn tri_walker_from_edge(&self, e: EdgeId) -> (r: Option<TriWalker>)
        requires
            self.wf(),
        ensures
            r is Some <==> self@.tri_opps[e@].len() > 0,
            r is Some ==> r->0@ == (e@.0, e@.1, self@.tri_opps[e@][0]) && r->0.on(self),
    {
        match self.edge_vertex_opp(e) {
            Some(c) => {
                proof {
                    let ring = self@.tri_opps[e@];
                    assert(ring.contains(ring[0]));
                }
                Some(TriWalker { a: e.0[0].0, b: e.0[1].0, c: c.0 })
            },
            None => None,
        }
    }

    /// A walker on the edge `e` of the triangle that `v` makes with it.
    pub fn tri_walker_from_edge_vertex(&self, e: EdgeId, v: VertexId) -> (w: TriWalker)
        requires
            self@.tris.contains_key(canon_tri(e@.0, e@.1, v.0)),
        ensures
            w@ == (e@.0, e@.1, v.0),
            w.on(self),
    {
        TriWalker { a: e.0[0].0, b: e.0[1].0, c: v.0 }
    }

    /// A walker on the first edge of the triangle `tri`, on the tetrahedron
    /// that leads the ring around it; none where the triangle has no
    /// tetrahedron.
    pub fn tet_walker_from_tri(&self, tri: TriId) -> (r: Option<TetWalker>)
        requires
            self.wf(),
        ensures
            r is Some <==> self@.tet_opps[tri.key()].len() > 0,
            r is Some ==> r->0@ == (tri@.0, tri@.1, tri@.2, self@.tet_opps[tri.key()][0])
                && r->0.on(self),
    {
        match self.tri_vertex_opp(tri) {
            Some(d) => {
                let w = TetWalker { a: tri.0[0].0, b: tri.0[1].0, c: tri.0[2].0, d: d.0 };
                proof {
                    let ring = self@.tet_opps[tri.key()];
                    assert(ring.contains(ring[0]));
                    w.lemma_ring_on(self);
                }
                Some(w)
            },
            None => None,
        }
    }

    /// A walker on the edge `e` of the tetrahedron that the edge `opp`
    /// makes with it.
    pub fn tet_walker_from_edge_edge(&self, e: EdgeId, opp: EdgeId) -> (w: TetWalker)
        requires
            self@.tets.contains_key(canon_tet(e@.0, e@.1, opp@.0, opp@.1)),
        ensures
            w@ == (e@.0, e@.1, opp@.0, opp@.1),
            w.on(self),
    {
        TetWalker { a: e.0[0].0, b: e.0[1].0, c: opp.0[0].0, d: opp.0[1].0 }
    }
}

} // verus!
