//! Adding vertices, edges, triangles and tetrahedra to a mesh.

use vstd::prelude::*;
use crate::simplex::{
    EdgeKey, TriKey, TetKey, canon_tet, is_canon_tri, is_canon_tet, tet_face, tet_vertex,
    tri_has_edge, tet_has_face, tet_has_edge, collides, canon3, canon4, face, lemma_canon_tri,
    lemma_canon_tet, lemma_face_gives_tet, lemma_face_vertices,
};
use crate::ids::{VertexId, EdgeId, TriId, TetId};
use crate::mesh::Mesh;
use crate::view::MeshView;

verus! {

impl<V, E, F, T, const MWB: bool> Mesh<V, E, F, T, MWB> {
    /// Adds a vertex, which gets the next number.
    pub fn add_vertex(&mut self, value: V) -> (id: VertexId)
        requires
            old(self).wf(),
            old(self)@.next_id < u32::MAX,
        ensures
            final(self).wf(),
            id.0 == old(self)@.next_id,
            final(self)@ == old(self)@.add_vertex(value),
    {
        proof {
            let id = self@.next_id;
            if self@.targets[id].len() > 0 {
                assert(self@.targets[id].contains(self@.targets[id][0]));
                assert(self@.edges.contains_key((id, self@.targets[id][0])));
            }
            if self@.sources[id].len() > 0 {
                assert(self@.sources[id].contains(self@.sources[id][0]));
                assert(self@.edges.contains_key((self@.sources[id][0], id)));
            }
            self@.lemma_add_vertex(value, MWB);
        }
        let id: u32 = self.vertex_new(value);
        VertexId(id)
    }

    /// Replaces the payload of the vertex `v` and returns the payload that
    /// was replaced; where the vertex is not in the mesh, nothing changes.
    pub fn set_vertex(&mut self, v: VertexId, value: V) -> (r: Option<V>)
        requires
            old(self).wf(),
        ensures
            final(self).wf(),
            r == old(self)@.vertices.get(v.0),
            final(self)@ == if old(self)@.vertices.contains_key(v.0) {
                MeshView { vertices: old(self)@.vertices.insert(v.0, value), ..old(self)@ }
            } else {
                old(self)@
            },
    {
        if self.has_vertex(v.0) {
            let x = self.vertex_swap(v.0, value);
            proof {
                assert(self@.vertices.dom() =~= old(self)@.vertices.dom());
                old(self)@.lemma_same_shape(self@, MWB);
            }
            Some(x)
        } else {
            None
        }
    }

    // Puts a new edge into the store and into the rings at its two ends.
    pub(crate) fn link_edge(&mut self, a: u32, b: u32, value: E)
        requires
            old(self).wf(),
            a != b,
            old(self)@.vertices.contains_key(a),
            old(self)@.vertices.contains_key(b),
            !old(self)@.edges.contains_key((a, b)),
        ensures
            final(self).wf(),
            final(self)@ == old(self)@.add_edge((a, b), value),
    {
        proof {
            assert(!self@.targets[a].contains(b));
            assert(!self@.sources[b].contains(a));
            if self@.tri_opps[(a, b)].len() > 0 {
                let c = self@.tri_opps[(a, b)][0];
                assert(self@.tri_opps[(a, b)].contains(c));
                self@.lemma_tri_ring_base(a, b, c, MWB);
            }
        }
        self.out_add(a, b);
        self.in_add(b, a);
        self.edge_put(a, b, value);
        proof {
            old(self)@.lemma_add_edge((a, b), value, MWB);
        }
    }

    /// Adds the edge `e` with the payload `value`, or replaces the payload
    /// where the edge is there. Returns the payload that was replaced.
    pub fn add_edge(&mut self, e: EdgeId, value: E) -> (r: Option<E>)
        requires
            old(self).wf(),
            e.valid(),
            old(self)@.vertices.contains_key(e@.0),
            old(self)@.vertices.contains_key(e@.1),
        ensures
            final(self).wf(),
            r == old(self)@.edges.get(e@),
            final(self)@ == old(self)@.put_edge(e@, value),
    {
        let a: u32 = e.0[0].0;
        let b: u32 = e.0[1].0;
        if self.has_edge(a, b) {
            let x = self.edge_swap(a, b, value);
            proof {
                assert(self@.edges.dom() =~= old(self)@.edges.dom());
                old(self)@.lemma_same_shape(self@, MWB);
            }
            Some(x)
        } else {
            self.link_edge(a, b, value);
            None
        }
    }

    // Adds the edge from `a` to `b` with a default payload unless it is there.
    pub(crate) fn ensure_edge<D: Fn() -> E>(&mut self, a: u32, b: u32, default_edge: &D)
        requires
            old(self).wf(),
            a != b,
            old(self)@.vertices.contains_key(a),
            old(self)@.vertices.contains_key(b),
            call_requires(*default_edge, ()),
        ensures
            final(self).wf(),
            final(self)@.edges.contains_key((a, b)),
            old(self)@.edges.contains_key((a, b)) ==> final(self)@ == old(self)@,
            !old(self)@.edges.contains_key((a, b)) ==> final(self)@ == old(self)@.add_edge(
                (a, b),
                final(self)@.edges[(a, b)],
            ) && call_ensures(*default_edge, (), final(self)@.edges[(a, b)]),
    {
        if !self.has_edge(a, b) {
            let value = default_edge();
            self.link_edge(a, b, value);
        }
    }

    /// Adds the triangle `tri` with the payload `value`, or replaces the
    /// payload where the triangle is there; returns the payload that was
    /// replaced. Edges of the triangle that are missing are added first, each
    /// with a payload that `default_edge` makes.
    pub fn add_tri<D: Fn() -> E>(&mut self, tri: TriId, value: F, default_edge: D) -> (r: Option<F>)
        requires
            old(self).wf(),
            tri.valid(),
            old(self)@.vertices.contains_key(tri@.0),
            old(self)@.vertices.contains_key(tri@.1),
            old(self)@.vertices.contains_key(tri@.2),
            call_requires(default_edge, ()),
        ensures
            final(self).wf(),
            r == old(self)@.tris.get(tri.key()),
            old(self)@.tri_put(final(self)@, tri.key(), value),
            forall|e: EdgeKey|
                final(self)@.edges.contains_key(e) && !old(self)@.edges.contains_key(e)
                    ==> call_ensures(default_edge, (), #[trigger] final(self)@.edges[e]),
    {
        let t = canon3(tri.0[0].0, tri.0[1].0, tri.0[2].0);
        self.put_tri(t, value, &default_edge)
    }

    // `add_tri` on a canonical triple.
    pub(crate) fn put_tri<D: Fn() -> E>(&mut self, t: (u32, u32, u32), value: F, default_edge: &D) -> (r:
        Option<F>)
        requires
            old(self).wf(),
            is_canon_tri(t),
            old(self)@.vertices.contains_key(t.0),
            old(self)@.vertices.contains_key(t.1),
            old(self)@.vertices.contains_key(t.2),
            call_requires(*default_edge, ()),
        ensures
            final(self).wf(),
            r == old(self)@.tris.get(t),
            old(self)@.tri_put(final(self)@, t, value),
            forall|e: EdgeKey|
                final(self)@.edges.contains_key(e) && !old(self)@.edges.contains_key(e)
                    ==> call_ensures(*default_edge, (), #[trigger] final(self)@.edges[e]),
    {
        let a: u32 = t.0;
        let b: u32 = t.1;
        let c: u32 = t.2;
        if self.has_tri(t) {
            let x = self.tri_swap(t, value);
            proof {
                let v0 = old(self)@;
                assert(v0.tris.contains_key(t));
                assert(self@.tris.dom() =~= v0.tris.dom());
                v0.lemma_same_shape(self@, MWB);
                assert(v0.edges.contains_key((t.0, t.1)));
                assert(v0.edges.contains_key((t.1, t.2)));
                assert(v0.edges.contains_key((t.2, t.0)));
                assert(self@.targets =~= v0.targets.insert(t.0, v0.targets_with(t.0, t.1)).insert(
                    t.1,
                    v0.targets_with(t.1, t.2),
                ).insert(t.2, v0.targets_with(t.2, t.0)));
                assert(self@.sources =~= v0.sources.insert(t.1, v0.sources_with(t.0, t.1)).insert(
                    t.2,
                    v0.sources_with(t.1, t.2),
                ).insert(t.0, v0.sources_with(t.2, t.0)));
            }
            return Some(x);
        }
        self.ensure_edge(a, b, default_edge);
        let ghost v1 = self@;
        self.ensure_edge(b, c, default_edge);
        let ghost v2 = self@;
        self.ensure_edge(c, a, default_edge);
        let ghost v3 = self@;
        proof {
            assert(!v3.tris.contains_key(t));
            if v3.tet_opps[t].len() > 0 {
                let d = v3.tet_opps[t][0];
                assert(v3.tet_opps[t].contains(d));
                v3.lemma_tet_ring_base(t, d, MWB);
            }
        }
        self.tri_put(t, value);
        proof {
            lemma_canon_tri(a, b, c);
            assert(!v3.tri_opps[(a, b)].contains(c));
            assert(!v3.tri_opps[(b, c)].contains(a));
            assert(!v3.tri_opps[(c, a)].contains(b));
        }
        self.edge_ring_add(a, b, c);
        self.edge_ring_add(b, c, a);
        self.edge_ring_add(c, a, b);
        proof {
            let v0 = old(self)@;
            assert(self@.tri_opps =~= v3.add_tri(t, value).tri_opps);
            assert(self@ == v3.add_tri(t, value));
            v3.lemma_add_tri(t, value, MWB);
            assert(v0.tri_opps == v3.tri_opps);
            assert(v1.targets =~= v0.targets.insert(a, v0.targets_with(a, b)));
            assert(v1.sources =~= v0.sources.insert(b, v0.sources_with(a, b)));
            assert(v1.edges.contains_key((b, c)) == v0.edges.contains_key((b, c)));
            assert(v1.edges.contains_key((c, a)) == v0.edges.contains_key((c, a)));
            assert(v2.targets =~= v1.targets.insert(b, v1.targets_with(b, c)));
            assert(v2.sources =~= v1.sources.insert(c, v1.sources_with(b, c)));
            assert(v2.edges.contains_key((c, a)) == v0.edges.contains_key((c, a)));
            assert(v3.targets =~= v2.targets.insert(c, v2.targets_with(c, a)));
            assert(v3.sources =~= v2.sources.insert(a, v2.sources_with(c, a)));
            assert(self@.targets =~= v0.targets.insert(a, v0.targets_with(a, b)).insert(
                b,
                v0.targets_with(b, c),
            ).insert(c, v0.targets_with(c, a)));
            assert(self@.sources =~= v0.sources.insert(b, v0.sources_with(a, b)).insert(
                c,
                v0.sources_with(b, c),
            ).insert(a, v0.sources_with(c, a)));
        }
        None
    }

    // Adds the canonical triangle `f` with default payloads unless it is there.
    pub(crate) fn ensure_tri<D: Fn() -> E, G: Fn() -> F>(
        &mut self,
        f: (u32, u32, u32),
        default_edge: &D,
        default_tri: &G,
    )
        requires
            old(self).wf(),
            is_canon_tri(f),
            old(self)@.vertices.contains_key(f.0),
            old(self)@.vertices.contains_key(f.1),
            old(self)@.vertices.contains_key(f.2),
            call_requires(*default_edge, ()),
            call_requires(*default_tri, ()),
        ensures
            final(self).wf(),
            final(self)@.vertices == old(self)@.vertices,
            final(self)@.tets == old(self)@.tets,
            final(self)@.tet_opps == old(self)@.tet_opps,
            final(self)@.next_id == old(self)@.next_id,
            forall|g: TriKey| #[trigger]
                final(self)@.tris.contains_key(g) <==> old(self)@.tris.contains_key(g) || g == f,
            forall|g: TriKey| #[trigger]
                old(self)@.tris.contains_key(g) ==> final(self)@.tris[g] == old(self)@.tris[g],
            !old(self)@.tris.contains_key(f) ==> call_ensures(
                *default_tri,
                (),
                final(self)@.tris[f],
            ),
            forall|e: EdgeKey| #[trigger]
                final(self)@.edges.contains_key(e) <==> old(self)@.edges.contains_key(e) || (
                tri_has_edge(f, e)),
            forall|e: EdgeKey| #[trigger]
                old(self)@.edges.contains_key(e) ==> final(self)@.edges[e] == old(self)@.edges[e],
            forall|e: EdgeKey|
                final(self)@.edges.contains_key(e) && !old(self)@.edges.contains_key(e)
                    ==> call_ensures(*default_edge, (), #[trigger] final(self)@.edges[e]),
            final(self)@ == old(self)@.close_tri(f, final(self)@.tris, final(self)@.edges),
    {
        if !self.has_tri(f) {
            let value = default_tri();
            self.put_tri(f, value, default_edge);
            proof {
                old(self)@.lemma_tri_put_closes(self@, f, value);
            }
        } else {
            proof {
                assert(self@.edges.contains_key((f.0, f.1)));
                assert(self@.edges.contains_key((f.1, f.2)));
                assert(self@.edges.contains_key((f.2, f.0)));
            }
        }
    }

    // Adds the faces of the canonical tetrahedron `t` that are missing.
    pub(crate) fn ensure_faces<D: Fn() -> E, G: Fn() -> F>(
        &mut self,
        t: (u32, u32, u32, u32),
        default_edge: &D,
        default_tri: &G,
    )
        requires
            old(self).wf(),
            is_canon_tet(t),
            old(self)@.vertices.contains_key(t.0),
            old(self)@.vertices.contains_key(t.1),
            old(self)@.vertices.contains_key(t.2),
            old(self)@.vertices.contains_key(t.3),
            call_requires(*default_edge, ()),
            call_requires(*default_tri, ()),
        ensures
            final(self).wf(),
            final(self)@.vertices == old(self)@.vertices,
            final(self)@.tets == old(self)@.tets,
            final(self)@.tet_opps == old(self)@.tet_opps,
            final(self)@.next_id == old(self)@.next_id,
            forall|g: TriKey| #[trigger]
                final(self)@.tris.contains_key(g) <==> old(self)@.tris.contains_key(g)
                    || tet_has_face(t, g),
            forall|g: TriKey| #[trigger]
                old(self)@.tris.contains_key(g) ==> final(self)@.tris[g] == old(self)@.tris[g],
            forall|g: TriKey|
                final(self)@.tris.contains_key(g) && !old(self)@.tris.contains_key(g)
                    ==> call_ensures(*default_tri, (), #[trigger] final(self)@.tris[g]),
            forall|e: EdgeKey| #[trigger]
                final(self)@.edges.contains_key(e) <==> old(self)@.edges.contains_key(e)
                    || tet_has_edge(t, e),
            forall|e: EdgeKey| #[trigger]
                old(self)@.edges.contains_key(e) ==> final(self)@.edges[e] == old(self)@.edges[e],
            forall|e: EdgeKey|
                final(self)@.edges.contains_key(e) && !old(self)@.edges.contains_key(e)
                    ==> call_ensures(*default_edge, (), #[trigger] final(self)@.edges[e]),
            final(self)@ == old(self)@.close_tet(t, final(self)@.tris, final(self)@.edges),
    {
        let f0 = face(t, 0);
        let f1 = face(t, 1);
        let f2 = face(t, 2);
        let f3 = face(t, 3);
        proof {
            lemma_face_gives_tet(t, 0);
            lemma_face_gives_tet(t, 1);
            lemma_face_gives_tet(t, 2);
            lemma_face_gives_tet(t, 3);
            lemma_face_vertices(t, 0);
            lemma_face_vertices(t, 1);
            lemma_face_vertices(t, 2);
            lemma_face_vertices(t, 3);
        }
        self.ensure_tri(f0, default_edge, default_tri);
        let ghost v1 = self@;
        self.ensure_tri(f1, default_edge, default_tri);
        let ghost v2 = self@;
        self.ensure_tri(f2, default_edge, default_tri);
        let ghost v3 = self@;
        self.ensure_tri(f3, default_edge, default_tri);
        proof {
            let v0 = old(self)@;
            let v4 = self@;
            assert(v1.tris.contains_key(f0) && v2.tris.contains_key(f0) && v3.tris.contains_key(f0));
            assert(v2.tris.contains_key(f1) && v3.tris.contains_key(f1));
            assert(v3.tris.contains_key(f2));
            assert forall|e: EdgeKey| #[trigger] v1.edges.contains_key(e) implies v4.edges[e]
                == v1.edges[e] by {
                assert(v2.edges.contains_key(e));
                assert(v3.edges.contains_key(e));
            }
            assert forall|e: EdgeKey| #[trigger] v2.edges.contains_key(e) implies v4.edges[e]
                == v2.edges[e] by {
                assert(v3.edges.contains_key(e));
            }
            assert(v1.edges.contains_key((f0.0, f0.1)) && v1.edges.contains_key((f0.1, f0.2))
                && v1.edges.contains_key((f0.2, f0.0)));
            assert(v2.edges.contains_key((f1.0, f1.1)) && v2.edges.contains_key((f1.1, f1.2))
                && v2.edges.contains_key((f1.2, f1.0)));
            assert(v3.edges.contains_key((f2.0, f2.1)) && v3.edges.contains_key((f2.1, f2.2))
                && v3.edges.contains_key((f2.2, f2.0)));
            v0.lemma_close_tri_donors(f0, v1.tris, v1.edges, v4.tris, v4.edges);
            v1.lemma_close_tri_donors(f1, v2.tris, v2.edges, v4.tris, v4.edges);
            v2.lemma_close_tri_donors(f2, v3.tris, v3.edges, v4.tris, v4.edges);
            assert(v1 == v0.close_tri(f0, v4.tris, v4.edges));
            assert(v2 == v1.close_tri(f1, v4.tris, v4.edges));
            assert(v3 == v2.close_tri(f2, v4.tris, v4.edges));
            assert(v4 == v3.close_tri(f3, v4.tris, v4.edges));
            assert forall|g: TriKey| #[trigger] old(self)@.tris.contains_key(g) implies self@.tris[g]
                == old(self)@.tris[g] by {
                assert(v1.tris.contains_key(g));
                assert(v2.tris.contains_key(g));
                assert(v3.tris.contains_key(g));
            }
            assert forall|e: EdgeKey| #[trigger] old(self)@.edges.contains_key(e) implies self@.edges[e]
                == old(self)@.edges[e] by {
                assert(v1.edges.contains_key(e));
                assert(v2.edges.contains_key(e));
                assert(v3.edges.contains_key(e));
            }
            assert forall|g: TriKey|
                self@.tris.contains_key(g) && !old(self)@.tris.contains_key(g) implies call_ensures(
                *default_tri,
                (),
                #[trigger] self@.tris[g],
            ) by {
                if v1.tris.contains_key(g) {
                    assert(v2.tris.contains_key(g));
                    assert(v3.tris.contains_key(g));
                } else if v2.tris.contains_key(g) {
                    assert(v3.tris.contains_key(g));
                } else if v3.tris.contains_key(g) {
                }
            }
            assert forall|e: EdgeKey|
                self@.edges.contains_key(e) && !old(self)@.edges.contains_key(e) implies call_ensures(
                *default_edge,
                (),
                #[trigger] self@.edges[e],
            ) by {
                if v1.edges.contains_key(e) {
                    assert(v2.edges.contains_key(e));
                    assert(v3.edges.contains_key(e));
                } else if v2.edges.contains_key(e) {
                    assert(v3.edges.contains_key(e));
                } else if v3.edges.contains_key(e) {
                }
            }
            assert forall|e: EdgeKey| #[trigger]
                self@.edges.contains_key(e) <==> old(self)@.edges.contains_key(e) || tet_has_edge(
                    t,
                    e,
                ) by {
                if tet_has_edge(t, e) {
                    self@.lemma_tet_edges(t, MWB);
                }
            }
        }
    }

    // Removes the tetrahedra that have a face of the canonical tetrahedron
    // `t`, whose faces are in the mesh.
    pub(crate) fn free_faces(&mut self, t: (u32, u32, u32, u32))
        requires
            old(self).wf(),
            is_canon_tet(t),
            forall|i: int| 0 <= i < 4 ==> old(self)@.tris.contains_key(#[trigger] tet_face(t, i)),
        ensures
            final(self).wf(),
            final(self)@.vertices == old(self)@.vertices,
            final(self)@.edges == old(self)@.edges,
            final(self)@.tris == old(self)@.tris,
            final(self)@.next_id == old(self)@.next_id,
            final(self)@.tets =~= old(self)@.tets.filter_keys(|x: TetKey| !collides(x, t)),
            final(self)@.targets == old(self)@.targets,
            final(self)@.sources == old(self)@.sources,
            final(self)@.tri_opps == old(self)@.tri_opps,
            forall|i: int| 0 <= i < 4 ==> final(self)@.tet_opps[#[trigger] tet_face(t, i)].len() == 0,
    {
        let f0 = face(t, 0);
        let f1 = face(t, 1);
        let f2 = face(t, 2);
        let f3 = face(t, 3);
        proof {
            assert(self@.tris.contains_key(tet_face(t, 0)));
            assert(self@.tris.contains_key(tet_face(t, 1)));
            assert(self@.tris.contains_key(tet_face(t, 2)));
            assert(self@.tris.contains_key(tet_face(t, 3)));
        }
        self.drop_tets_around(f0);
        self.drop_tets_around(f1);
        self.drop_tets_around(f2);
        self.drop_tets_around(f3);
        proof {
            let w = self@;
            assert forall|i: int| 0 <= i < 4 implies w.tet_opps[#[trigger] tet_face(t, i)].len()
                == 0 by {
                let f = tet_face(t, i);
                if w.tet_opps[f].len() > 0 {
                    let d = w.tet_opps[f][0];
                    assert(w.tet_opps[f].contains(d));
                    assert(w.tets.contains_key(canon_tet(f.0, f.1, f.2, d)));
                    let x = canon_tet(f.0, f.1, f.2, d);
                    crate::simplex::lemma_tet_gives_face(f, d);
                    w.lemma_tet_ring_base(f, d, MWB);
                    assert(tet_has_face(x, f));
                }
            }
        }
    }

    // Puts a new canonical tetrahedron into the store and into the rings
    // around its faces.
    pub(crate) fn link_tet(&mut self, t: (u32, u32, u32, u32), value: T)
        requires
            old(self).wf(),
            is_canon_tet(t),
            forall|i: int| 0 <= i < 4 ==> old(self)@.tris.contains_key(#[trigger] tet_face(t, i)),
            !old(self)@.tets.contains_key(t),
            MWB ==> forall|i: int|
                0 <= i < 4 ==> old(self)@.tet_opps[#[trigger] tet_face(t, i)].len() == 0,
        ensures
            final(self).wf(),
            final(self)@ == old(self)@.add_tet(t, value),
    {
        let f0 = face(t, 0);
        let f1 = face(t, 1);
        let f2 = face(t, 2);
        let f3 = face(t, 3);
        proof {
            lemma_face_gives_tet(t, 0);
            lemma_face_gives_tet(t, 1);
            lemma_face_gives_tet(t, 2);
            lemma_face_gives_tet(t, 3);
            assert(self@.tris.contains_key(tet_face(t, 0)));
            assert(self@.tris.contains_key(tet_face(t, 1)));
            assert(self@.tris.contains_key(tet_face(t, 2)));
            assert(self@.tris.contains_key(tet_face(t, 3)));
            assert(tet_vertex(t, 0) == t.0 && tet_vertex(t, 1) == t.1 && tet_vertex(t, 2) == t.2
                && tet_vertex(t, 3) == t.3);
            assert(!self@.tet_opps[f0].contains(t.0)) by {
                assert(canon_tet(f0.0, f0.1, f0.2, t.0) == t);
            }
            assert(!self@.tet_opps[f1].contains(t.1)) by {
                assert(canon_tet(f1.0, f1.1, f1.2, t.1) == t);
            }
            assert(!self@.tet_opps[f2].contains(t.2)) by {
                assert(canon_tet(f2.0, f2.1, f2.2, t.2) == t);
            }
            assert(!self@.tet_opps[f3].contains(t.3)) by {
                assert(canon_tet(f3.0, f3.1, f3.2, t.3) == t);
            }
        }
        self.tet_put(t, value);
        self.tri_ring_add(f0, t.0);
        self.tri_ring_add(f1, t.1);
        self.tri_ring_add(f2, t.2);
        self.tri_ring_add(f3, t.3);
        proof {
            assert(self@.tet_opps =~= old(self)@.add_tet(t, value).tet_opps);
            old(self)@.lemma_add_tet(t, value, MWB);
        }
    }

    // `add_tet` on a canonical quadruple.
    pub(crate) fn put_tet<D: Fn() -> E, G: Fn() -> F>(
        &mut self,
        t: (u32, u32, u32, u32),
        value: T,
        default_edge: &D,
        default_tri: &G,
    ) -> (r: Option<T>)
        requires
            old(self).wf(),
            is_canon_tet(t),
            old(self)@.vertices.contains_key(t.0),
            old(self)@.vertices.contains_key(t.1),
            old(self)@.vertices.contains_key(t.2),
            old(self)@.vertices.contains_key(t.3),
            call_requires(*default_edge, ()),
            call_requires(*default_tri, ()),
        ensures
            final(self).wf(),
            r == old(self)@.tets.get(t),
            old(self)@.tet_put(final(self)@, t, value, MWB),
            forall|e: EdgeKey|
                final(self)@.edges.contains_key(e) && !old(self)@.edges.contains_key(e)
                    ==> call_ensures(*default_edge, (), #[trigger] final(self)@.edges[e]),
            forall|g: TriKey|
                final(self)@.tris.contains_key(g) && !old(self)@.tris.contains_key(g)
                    ==> call_ensures(*default_tri, (), #[trigger] final(self)@.tris[g]),
    {
        if self.has_tet(t) {
            let x = self.tet_take(t);
            self.tet_put(t, value);
            proof {
                let v0 = old(self)@;
                assert(self@.tets =~= v0.tets.insert(t, value));
                assert(self@.tets.dom() =~= v0.tets.dom());
                v0.lemma_same_shape(self@, MWB);
                v0.lemma_tet_edges(t, MWB);
                assert(v0.tris.contains_key(tet_face(t, 0)) && v0.tris.contains_key(tet_face(t, 1))
                    && v0.tris.contains_key(tet_face(t, 2)) && v0.tris.contains_key(
                    tet_face(t, 3),
                ));
                assert(v0.close_tet(t, self@.tris, self@.edges) == v0);
                if MWB {
                    assert forall|y: TetKey| v0.tets.contains_key(y) && collides(y, t) implies y
                        == t by {
                        v0.lemma_exclusive(y, t);
                    }
                }
                assert(self@.tets =~= v0.tets_put(t, value, MWB));
            }
            return Some(x);
        }
        self.ensure_faces(t, default_edge, default_tri);
        let ghost v1 = self@;
        if MWB {
            self.free_faces(t);
        }
        let ghost v2 = self@;
        self.link_tet(t, value);
        proof {
            let v0 = old(self)@;
            lemma_face_gives_tet(t, 0);
            lemma_face_gives_tet(t, 1);
            lemma_face_gives_tet(t, 2);
            lemma_face_gives_tet(t, 3);
            assert(self@ == v2.add_tet(t, value));
            assert(self@.tets =~= v0.tets_put(t, value, MWB));
            assert(v1 == v0.close_tet(t, v1.tris, v1.edges));
            assert(self@.tris == v1.tris && self@.edges == v1.edges);
            crate::ring::lemma_added(v2.tet_opps[tet_face(t, 0)], t.0, true);
            crate::ring::lemma_added(v2.tet_opps[tet_face(t, 1)], t.1, true);
            crate::ring::lemma_added(v2.tet_opps[tet_face(t, 2)], t.2, true);
            crate::ring::lemma_added(v2.tet_opps[tet_face(t, 3)], t.3, true);
        }
        None
    }

    /// Adds the tetrahedron `tet` with the payload `value`, or replaces the
    /// payload where the tetrahedron is there; returns the payload that was
    /// replaced. Faces and edges that are missing are added first, with
    /// payloads that `default_tri` and `default_edge` make. Where no face may
    /// belong to two tetrahedra, those that have a face of the new one are
    /// removed first.
    pub fn add_tet<D: Fn() -> E, G: Fn() -> F>(
        &mut self,
        tet: TetId,
        value: T,
        default_edge: D,
        default_tri: G,
    ) -> (r: Option<T>)
        requires
            old(self).wf(),
            tet.valid(),
            old(self)@.vertices.contains_key(tet@.0),
            old(self)@.vertices.contains_key(tet@.1),
            old(self)@.vertices.contains_key(tet@.2),
            old(self)@.vertices.contains_key(tet@.3),
            call_requires(default_edge, ()),
            call_requires(default_tri, ()),
        ensures
            final(self).wf(),
            r == old(self)@.tets.get(tet.key()),
            old(self)@.tet_put(final(self)@, tet.key(), value, MWB),
            forall|e: EdgeKey|
                final(self)@.edges.contains_key(e) && !old(self)@.edges.contains_key(e)
                    ==> call_ensures(default_edge, (), #[trigger] final(self)@.edges[e]),
            forall|g: TriKey|
                final(self)@.tris.contains_key(g) && !old(self)@.tris.contains_key(g)
                    ==> call_ensures(default_tri, (), #[trigger] final(self)@.tris[g]),
    {
        proof {
            lemma_canon_tet(tet@.0, tet@.1, tet@.2, tet@.3);
        }
        let t = canon4(tet.0[0].0, tet.0[1].0, tet.0[2].0, tet.0[3].0);
        self.put_tet(t, value, &default_edge, &default_tri)
    }
}

} // verus!
