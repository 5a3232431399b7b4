//! Incidence queries: what lies around a vertex, an edge or a triangle.
//!
//! Each query walks one or more rings and hands back what it met, in ring
//! order.

use vstd::prelude::*;
use crate::simplex::{
    EdgeKey, TriKey, TetKey, canon_tri, canon_tet, tet_face, tet_vertex, tri_has_edge,
    tet_has_face, canon3, canon4, lemma_canon_tri, lemma_face_gives_tet, lemma_tet_by_face,
    lemma_canon_tri_same,
};
use crate::ids::{
    VertexId, EdgeId, TriId, TetId, holds_edge, holds_tri, holds_tet, distinct_edges,
    distinct_tris, distinct_tets,
};
use crate::mesh::Mesh;

verus! {

// The vertices with the given numbers.
fn to_ids(ring: Vec<u32>) -> (r: Vec<VertexId>)
    ensures
        r.len() == ring.len(),
        forall|i: int| 0 <= i < r.len() ==> (#[trigger] r[i]).0 == ring[i],
{
    let mut r: Vec<VertexId> = Vec::new();
    let mut i: usize = 0;
    while i < ring.len()
        invariant
            0 <= i <= ring.len(),
            r.len() == i,
            forall|j: int| 0 <= j < i ==> (#[trigger] r[j]).0 == ring[j],
        decreases ring.len() - i,
    {
        r.push(VertexId(ring[i]));
        i = i + 1;
    }
    r
}

impl<V, E, F, T, const MWB: bool> Mesh<V, E, F, T, MWB> {
    /// The targets of the edges that leave `v`, in ring order.
    pub fn vertex_targets(&self, v: VertexId) -> (r: Vec<VertexId>)
        requires
            self.wf(),
        ensures
            r.len() == self@.targets[v.0].len(),
            forall|i: int| 0 <= i < r.len() ==> (#[trigger] r[i]).0 == self@.targets[v.0][i],
    {
        if self.has_vertex(v.0) {
            to_ids(self.out_ring(v.0))
        } else {
            proof {
                let ring = self@.targets[v.0];
                if ring.len() > 0 {
                    assert(ring.contains(ring[0]));
                    assert(self@.edges.contains_key((v.0, ring[0])));
                }
            }
            Vec::new()
        }
    }

    /// The sources of the edges that reach `v`, in ring order.
    pub fn vertex_sources(&self, v: VertexId) -> (r: Vec<VertexId>)
        requires
            self.wf(),
        ensures
            r.len() == self@.sources[v.0].len(),
            forall|i: int| 0 <= i < r.len() ==> (#[trigger] r[i]).0 == self@.sources[v.0][i],
    {
        if self.has_vertex(v.0) {
            to_ids(self.in_ring(v.0))
        } else {
            proof {
                let ring = self@.sources[v.0];
                if ring.len() > 0 {
                    assert(ring.contains(ring[0]));
                    assert(self@.edges.contains_key((ring[0], v.0)));
                }
            }
            Vec::new()
        }
    }

    /// The vertices opposite the edge `e` in the triangles around it, in
    /// ring order.
    pub fn edge_vertex_opps(&self, e: EdgeId) -> (r: Vec<VertexId>)
        requires
            self.wf(),
        ensures
            r.len() == self@.tri_opps[e@].len(),
            forall|i: int| 0 <= i < r.len() ==> (#[trigger] r[i]).0 == self@.tri_opps[e@][i],
    {
        let a: u32 = e.0[0].0;
        let b: u32 = e.0[1].0;
        if self.has_edge(a, b) {
            to_ids(self.tri_ring(a, b))
        } else {
            proof {
                let ring = self@.tri_opps[(a, b)];
                if ring.len() > 0 {
                    assert(ring.contains(ring[0]));
                    self@.lemma_tri_ring_base(a, b, ring[0], MWB);
                }
            }
            Vec::new()
        }
    }

    /// The vertices opposite the triangle `tri` in the tetrahedra around it,
    /// in ring order.
    pub fn tri_vertex_opps(&self, tri: TriId) -> (r: Vec<VertexId>)
        requires
            self.wf(),
        ensures
            r.len() == self@.tet_opps[tri.key()].len(),
            forall|i: int| 0 <= i < r.len() ==> (#[trigger] r[i]).0 == self@.tet_opps[tri.key()][i],
    {
        let t = canon3(tri.0[0].0, tri.0[1].0, tri.0[2].0);
        if self.has_tri(t) {
            to_ids(self.tet_ring(t))
        } else {
            proof {
                let ring = self@.tet_opps[t];
                if ring.len() > 0 {
                    assert(ring.contains(ring[0]));
                    self@.lemma_tet_ring_base(t, ring[0], MWB);
                }
            }
            Vec::new()
        }
    }

    /// The vertex opposite the edge `e` in the triangle that leads the ring
    /// around it, if there is a triangle on the edge.
    pub fn edge_vertex_opp(&self, e: EdgeId) -> (r: Option<VertexId>)
        requires
            self.wf(),
        ensures
            r is Some <==> self@.tri_opps[e@].len() > 0,
            r is Some ==> r.unwrap()@ == self@.tri_opps[e@][0],
    {
        let a: u32 = e.0[0].0;
        let b: u32 = e.0[1].0;
        if self.has_edge(a, b) {
            match self.edge_hint(a, b) {
                Some(c) => Some(VertexId(c)),
                None => None,
            }
        } else {
            proof {
                let ring = self@.tri_opps[(a, b)];
                if ring.len() > 0 {
                    assert(ring.contains(ring[0]));
                    self@.lemma_tri_ring_base(a, b, ring[0], MWB);
                }
            }
            None
        }
    }

    /// The vertex opposite the triangle `tri` in the tetrahedron that leads
    /// the ring around it, if there is a tetrahedron on the triangle.
    pub fn tri_vertex_opp(&self, tri: TriId) -> (r: Option<VertexId>)
        requires
            self.wf(),
        ensures
            r is Some <==> self@.tet_opps[tri.key()].len() > 0,
            r is Some ==> r.unwrap()@ == self@.tet_opps[tri.key()][0],
    {
        let t = canon3(tri.0[0].0, tri.0[1].0, tri.0[2].0);
        if self.has_tri(t) {
            match self.tri_hint(t) {
                Some(d) => Some(VertexId(d)),
                None => None,
            }
        } else {
            proof {
                let ring = self@.tet_opps[t];
                if ring.len() > 0 {
                    assert(ring.contains(ring[0]));
                    self@.lemma_tet_ring_base(t, ring[0], MWB);
                }
            }
            None
        }
    }

    /// The edges that leave `v`, in ring order: exactly the edges of the
    /// mesh with source `v`, each once.
    pub fn vertex_edges_out(&self, v: VertexId) -> (r: Vec<EdgeId>)
        requires
            self.wf(),
        ensures
            r.len() == self@.targets[v.0].len(),
            forall|i: int| 0 <= i < r.len() ==> (#[trigger] r[i])@ == (v.0, self@.targets[v.0][i]),
            distinct_edges(r@),
            forall|e: EdgeKey|
                #![trigger self@.edges.contains_key(e)]
                #![trigger holds_edge(r@, e)]
                holds_edge(r@, e) <==> self@.edges.contains_key(e) && e.0 == v.0,
    {
        let ring = self.vertex_targets(v);
        let mut r: Vec<EdgeId> = Vec::new();
        let mut i: usize = 0;
        while i < ring.len()
            invariant
                0 <= i <= ring.len(),
                r.len() == i,
                forall|j: int| 0 <= j < i ==> (#[trigger] r[j])@ == (v.0, ring[j].0),
            decreases ring.len() - i,
        {
            r.push(EdgeId([v, ring[i]]));
            i = i + 1;
        }
        proof {
            let s = self@.targets[v.0];
            assert forall|e: EdgeKey|
                #![trigger self@.edges.contains_key(e)]
                #![trigger holds_edge(r@, e)]
                holds_edge(r@, e) <==> self@.edges.contains_key(e) && e.0 == v.0 by {
                if holds_edge(r@, e) {
                    let i = choose|i: int| 0 <= i < r.len() && r[i]@ == e;
                    assert(s.contains(s[i]));
                    assert(self@.edges.contains_key((v.0, s[i])));
                }
                if self@.edges.contains_key(e) && e.0 == v.0 {
                    assert(self@.edges.contains_key((v.0, e.1)));
                    assert(s.contains(e.1));
                    let i = choose|i: int| 0 <= i < s.len() && s[i] == e.1;
                    assert(r[i]@ == e);
                }
            }
        }
        r
    }

    /// The edges that reach `v`, in ring order: exactly the edges of the
    /// mesh with target `v`, each once.
    pub fn vertex_edges_in(&self, v: VertexId) -> (r: Vec<EdgeId>)
        requires
            self.wf(),
        ensures
            r.len() == self@.sources[v.0].len(),
            forall|i: int| 0 <= i < r.len() ==> (#[trigger] r[i])@ == (self@.sources[v.0][i], v.0),
            distinct_edges(r@),
            forall|e: EdgeKey|
                #![trigger self@.edges.contains_key(e)]
                #![trigger holds_edge(r@, e)]
                holds_edge(r@, e) <==> self@.edges.contains_key(e) && e.1 == v.0,
    {
        let ring = self.vertex_sources(v);
        let mut r: Vec<EdgeId> = Vec::new();
        let mut i: usize = 0;
        while i < ring.len()
            invariant
                0 <= i <= ring.len(),
                r.len() == i,
                forall|j: int| 0 <= j < i ==> (#[trigger] r[j])@ == (ring[j].0, v.0),
            decreases ring.len() - i,
        {
            r.push(EdgeId([ring[i], v]));
            i = i + 1;
        }
        proof {
            let s = self@.sources[v.0];
            assert forall|e: EdgeKey|
                #![trigger self@.edges.contains_key(e)]
                #![trigger holds_edge(r@, e)]
                holds_edge(r@, e) <==> self@.edges.contains_key(e) && e.1 == v.0 by {
                if holds_edge(r@, e) {
                    let i = choose|i: int| 0 <= i < r.len() && r[i]@ == e;
                    assert(s.contains(s[i]));
                    assert(self@.edges.contains_key((s[i], v.0)));
                }
                if self@.edges.contains_key(e) && e.1 == v.0 {
                    assert(self@.edges.contains_key((e.0, v.0)));
                    assert(s.contains(e.0));
                    let i = choose|i: int| 0 <= i < s.len() && s[i] == e.0;
                    assert(r[i]@ == e);
                }
            }
        }
        r
    }

    /// The triangles around the edge `e`, in ring order: exactly the
    /// triangles of the mesh that have `e` among their directed edges, each
    /// once.
    pub fn edge_tris(&self, e: EdgeId) -> (r: Vec<TriId>)
        requires
            self.wf(),
        ensures
            r.len() == self@.tri_opps[e@].len(),
            forall|i: int|
                0 <= i < r.len() ==> (#[trigger] r[i])@ == canon_tri(
                    e@.0,
                    e@.1,
                    self@.tri_opps[e@][i],
                ),
            distinct_tris(r@),
            forall|t: TriKey|
                #![trigger self@.tris.contains_key(t)]
                #![trigger holds_tri(r@, t)]
                holds_tri(r@, t) <==> self@.tris.contains_key(t) && tri_has_edge(t, e@),
    {
        let a: u32 = e.0[0].0;
        let b: u32 = e.0[1].0;
        let ring = self.edge_vertex_opps(e);
        let ghost s = self@.tri_opps[(a, b)];
        let mut r: Vec<TriId> = Vec::new();
        let mut i: usize = 0;
        while i < ring.len()
            invariant
                0 <= i <= ring.len(),
                r.len() == i,
                self.wf(),
                s == self@.tri_opps[(a, b)],
                ring.len() == s.len(),
                forall|j: int| 0 <= j < ring.len() ==> (#[trigger] ring[j]).0 == s[j],
                forall|j: int| 0 <= j < i ==> (#[trigger] r[j])@ == canon_tri(a, b, s[j]),
            decreases ring.len() - i,
        {
            let c: u32 = ring[i].0;
            let t = canon3(a, b, c);
            r.push(TriId([VertexId(t.0), VertexId(t.1), VertexId(t.2)]));
            i = i + 1;
        }
        proof {
            assert forall|i: int, j: int| 0 <= i < j < r.len() implies r[i]@ != r[j]@ by {
                assert(s.contains(s[i]));
                self@.lemma_tri_ring_base(a, b, s[i], MWB);
                if r[i]@ == r[j]@ {
                    lemma_canon_tri_same(a, b, s[i], a, b, s[j]);
                }
            }
            assert forall|t: TriKey|
                #![trigger self@.tris.contains_key(t)]
                #![trigger holds_tri(r@, t)]
                holds_tri(r@, t) <==> self@.tris.contains_key(t) && tri_has_edge(t, (a, b)) by {
                if holds_tri(r@, t) {
                    let i = choose|i: int| 0 <= i < r.len() && r[i]@ == t;
                    assert(s.contains(s[i]));
                    self@.lemma_tri_ring_base(a, b, s[i], MWB);
                    lemma_canon_tri(a, b, s[i]);
                }
                if self@.tris.contains_key(t) && tri_has_edge(t, (a, b)) {
                    lemma_canon_tri(t.0, t.1, t.2);
                    let c = if (a, b) == (t.0, t.1) {
                        t.2
                    } else if (a, b) == (t.1, t.2) {
                        t.0
                    } else {
                        t.1
                    };
                    assert(canon_tri(a, b, c) == t);
                    assert(s.contains(c));
                    let i = choose|i: int| 0 <= i < s.len() && s[i] == c;
                    assert(r[i]@ == t);
                }
            }
        }
        r
    }

    /// The tetrahedra around the triangle `tri`, in ring order: exactly the
    /// tetrahedra of the mesh that have `tri` among their oriented faces,
    /// each once.
    pub fn tri_tets(&self, tri: TriId) -> (r: Vec<TetId>)
        requires
            self.wf(),
            tri.valid(),
        ensures
            r.len() == self@.tet_opps[tri.key()].len(),
            forall|i: int|
                0 <= i < r.len() ==> (#[trigger] r[i])@ == canon_tet(
                    tri.key().0,
                    tri.key().1,
                    tri.key().2,
                    self@.tet_opps[tri.key()][i],
                ),
            distinct_tets(r@),
            forall|t: TetKey|
                #![trigger self@.tets.contains_key(t)]
                #![trigger holds_tet(r@, t)]
                holds_tet(r@, t) <==> self@.tets.contains_key(t) && tet_has_face(t, tri.key()),
    {
        let f = canon3(tri.0[0].0, tri.0[1].0, tri.0[2].0);
        let ring = self.tri_vertex_opps(tri);
        let ghost s = self@.tet_opps[f];
        let mut r: Vec<TetId> = Vec::new();
        let mut i: usize = 0;
        while i < ring.len()
            invariant
                0 <= i <= ring.len(),
                r.len() == i,
                ring.len() == s.len(),
                forall|j: int| 0 <= j < ring.len() ==> (#[trigger] ring[j]).0 == s[j],
                forall|j: int| 0 <= j < i ==> (#[trigger] r[j])@ == canon_tet(f.0, f.1, f.2, s[j]),
            decreases ring.len() - i,
        {
            let d: u32 = ring[i].0;
            let t = canon4(f.0, f.1, f.2, d);
            r.push(TetId([VertexId(t.0), VertexId(t.1), VertexId(t.2), VertexId(t.3)]));
            i = i + 1;
        }
        proof {
            lemma_canon_tri(tri@.0, tri@.1, tri@.2);
            assert forall|i: int, j: int| 0 <= i < j < r.len() implies r[i]@ != r[j]@ by {
                assert(s.contains(s[i]));
                assert(s.contains(s[j]));
                self@.lemma_tet_ring_base(f, s[i], MWB);
                self@.lemma_tet_ring_base(f, s[j], MWB);
                if r[i]@ == r[j]@ {
                    lemma_tet_by_face(r[i]@, f, s[i]);
                    lemma_tet_by_face(r[i]@, f, s[j]);
                    let p = choose|p: int| 0 <= p < 4 && tet_face(r[i]@, p) == f && tet_vertex(r[i]@, p) == s[i];
                    let q = choose|q: int| 0 <= q < 4 && tet_face(r[i]@, q) == f && tet_vertex(r[i]@, q) == s[j];
                    lemma_face_gives_tet(r[i]@, p);
                    assert(p == q);
                }
            }
            assert forall|t: TetKey|
                #![trigger self@.tets.contains_key(t)]
                #![trigger holds_tet(r@, t)]
                holds_tet(r@, t) <==> self@.tets.contains_key(t) && tet_has_face(t, f) by {
                if holds_tet(r@, t) {
                    let i = choose|i: int| 0 <= i < r.len() && r[i]@ == t;
                    assert(s.contains(s[i]));
                    self@.lemma_tet_ring_base(f, s[i], MWB);
                    lemma_tet_by_face(t, f, s[i]);
                }
                if self@.tets.contains_key(t) && tet_has_face(t, f) {
                    let p: int = if f == tet_face(t, 0) {
                        0
                    } else if f == tet_face(t, 1) {
                        1
                    } else if f == tet_face(t, 2) {
                        2
                    } else {
                        3
                    };
                    lemma_face_gives_tet(t, p);
                    let d = tet_vertex(t, p);
                    assert(canon_tet(f.0, f.1, f.2, d) == t);
                    assert(s.contains(d));
                    let i = choose|i: int| 0 <= i < s.len() && s[i] == d;
                    assert(r[i]@ == t);
                }
            }
        }
        r
    }
}

} // verus!
