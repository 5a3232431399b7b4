//! Removing tetrahedra, triangles, edges and vertices from a mesh, each with
//! everything that rests on it.

use vstd::prelude::*;
use crate::ring::{dropped, lemma_dropped};
use crate::simplex::{
    EdgeKey, TriKey, TetKey, canon_tri, canon_tet, tet_face, tet_vertex, tri_has_edge,
    tri_has_vertex, tet_has_face, tet_has_edge, tet_has_vertex, canon3, canon4, face,
    lemma_canon_tri, lemma_face_gives_tet, lemma_tet_by_face, lemma_face_vertices,
    lemma_tet_edge_on_face,
};
use crate::ids::{VertexId, EdgeId, TriId, TetId};
use crate::mesh::Mesh;

verus! {

impl<V, E, F, T, const MWB: bool> Mesh<V, E, F, T, MWB> {
    // Takes a tetrahedron out of the rings around its faces and out of the
    // store.
    pub(crate) fn unlink_tet(&mut self, t: (u32, u32, u32, u32)) -> (r: T)
        requires
            old(self).wf(),
            old(self)@.tets.contains_key(t),
        ensures
            final(self).wf(),
            r == old(self)@.tets[t],
            final(self)@ == old(self)@.remove_tet(t),
    {
        let f0 = face(t, 0);
        let f1 = face(t, 1);
        let f2 = face(t, 2);
        let f3 = face(t, 3);
        proof {
            lemma_face_gives_tet(t, 0);
            lemma_face_gives_tet(t, 1);
            lemma_face_gives_tet(t, 2);
            lemma_face_gives_tet(t, 3);
            assert(tet_vertex(t, 0) == t.0 && tet_vertex(t, 1) == t.1 && tet_vertex(t, 2) == t.2
                && tet_vertex(t, 3) == t.3);
            assert(self@.tet_opps[f0].contains(t.0)) by {
                assert(canon_tet(f0.0, f0.1, f0.2, t.0) == t);
            }
            assert(self@.tet_opps[f1].contains(t.1)) by {
                assert(canon_tet(f1.0, f1.1, f1.2, t.1) == t);
            }
            assert(self@.tet_opps[f2].contains(t.2)) by {
                assert(canon_tet(f2.0, f2.1, f2.2, t.2) == t);
            }
            assert(self@.tet_opps[f3].contains(t.3)) by {
                assert(canon_tet(f3.0, f3.1, f3.2, t.3) == t);
            }
        }
        self.tri_ring_del(f0, t.0);
        self.tri_ring_del(f1, t.1);
        self.tri_ring_del(f2, t.2);
        self.tri_ring_del(f3, t.3);
        let r = self.tet_take(t);
        proof {
            assert(self@.tet_opps =~= old(self)@.remove_tet(t).tet_opps);
            old(self)@.lemma_remove_tet(t, MWB);
        }
        r
    }

    /// Removes the tetrahedron `tet` and returns its payload, if it is there.
    pub fn remove_tet(&mut self, tet: TetId) -> (r: Option<T>)
        requires
            old(self).wf(),
            tet.valid(),
        ensures
            final(self).wf(),
            r == old(self)@.tets.get(tet.key()),
            final(self)@ == if old(self)@.tets.contains_key(tet.key()) {
                old(self)@.remove_tet(tet.key())
            } else {
                old(self)@
            },
    {
        let t = canon4(tet.0[0].0, tet.0[1].0, tet.0[2].0, tet.0[3].0);
        if self.has_tet(t) {
            Some(self.unlink_tet(t))
        } else {
            None
        }
    }

    // Takes a triangle that is a face of no tetrahedron out of the rings
    // around its edges and out of the store.
    pub(crate) fn unlink_tri(&mut self, t: (u32, u32, u32)) -> (r: F)
        requires
            old(self).wf(),
            old(self)@.tris.contains_key(t),
            old(self)@.tet_opps[t].len() == 0,
        ensures
            final(self).wf(),
            r == old(self)@.tris[t],
            final(self)@ == old(self)@.remove_tri(t),
    {
        proof {
            lemma_canon_tri(t.0, t.1, t.2);
            assert(self@.tri_opps[(t.0, t.1)].contains(t.2)) by {
                assert(canon_tri(t.0, t.1, t.2) == t);
            }
            assert(self@.tri_opps[(t.1, t.2)].contains(t.0)) by {
                assert(canon_tri(t.1, t.2, t.0) == t);
            }
            assert(self@.tri_opps[(t.2, t.0)].contains(t.1)) by {
                assert(canon_tri(t.2, t.0, t.1) == t);
            }
        }
        self.edge_ring_del(t.0, t.1, t.2);
        self.edge_ring_del(t.1, t.2, t.0);
        self.edge_ring_del(t.2, t.0, t.1);
        let r = self.tri_take(t);
        proof {
            assert(self@.tri_opps =~= old(self)@.remove_tri(t).tri_opps);
            old(self)@.lemma_remove_tri(t, MWB);
        }
        r
    }

    // Removes the tetrahedron that `d` makes with the canonical triangle `t`.
    pub(crate) fn drop_tet_at(&mut self, t: (u32, u32, u32), d: u32)
        requires
            old(self).wf(),
            old(self)@.tet_opps[t].contains(d),
        ensures
            final(self).wf(),
            old(self)@.tets.contains_key(canon_tet(t.0, t.1, t.2, d)),
            tet_has_face(canon_tet(t.0, t.1, t.2, d), t),
            final(self)@ == old(self)@.remove_tet(canon_tet(t.0, t.1, t.2, d)),
            final(self)@.tet_opps[t] == dropped(old(self)@.tet_opps[t], d),
            old(self)@.order_kept(final(self)@),
    {
        proof {
            self@.lemma_tet_ring_base(t, d, MWB);
        }
        let x = canon4(t.0, t.1, t.2, d);
        self.unlink_tet(x);
        proof {
            old(self)@.lemma_order_remove_tet(x);
            lemma_tet_by_face(x, t, d);
            lemma_face_gives_tet(x, 0);
            lemma_face_gives_tet(x, 1);
            lemma_face_gives_tet(x, 2);
            lemma_face_gives_tet(x, 3);
        }
    }

    // Removes the tetrahedra around a triangle of the mesh.
    pub(crate) fn drop_tets_around(&mut self, t: (u32, u32, u32))
        requires
            old(self).wf(),
            old(self)@.tris.contains_key(t),
        ensures
            final(self).wf(),
            final(self)@.tet_opps[t].len() == 0,
            final(self)@.vertices == old(self)@.vertices,
            final(self)@.edges == old(self)@.edges,
            final(self)@.tris == old(self)@.tris,
            final(self)@.next_id == old(self)@.next_id,
            final(self)@.targets == old(self)@.targets,
            final(self)@.sources == old(self)@.sources,
            final(self)@.tri_opps == old(self)@.tri_opps,
            final(self)@.tets == old(self)@.tets.filter_keys(|x: TetKey| !tet_has_face(x, t)),
            old(self)@.order_kept(final(self)@),
    {
        let opps = self.tet_ring(t);
        let mut i: usize = 0;
        proof {
            assert(opps@.subrange(0, opps.len() as int) =~= opps@);
            self@.lemma_order_same();
        }
        while i < opps.len()
            invariant
                0 <= i <= opps.len(),
                opps@.no_duplicates(),
                self.wf(),
                old(self)@.order_kept(self@),
                self@.vertices == old(self)@.vertices,
                self@.edges == old(self)@.edges,
                self@.tris == old(self)@.tris,
                self@.next_id == old(self)@.next_id,
                self@.targets == old(self)@.targets,
                self@.sources == old(self)@.sources,
                self@.tri_opps == old(self)@.tri_opps,
                forall|x: TetKey| #[trigger]
                    self@.tets.contains_key(x) ==> old(self)@.tets.contains_key(x) && self@.tets[x]
                        == old(self)@.tets[x],
                forall|x: TetKey|
                    old(self)@.tets.contains_key(x) && !tet_has_face(x, t)
                        ==> #[trigger] self@.tets.contains_key(x),
                forall|d: u32| #[trigger]
                    self@.tet_opps[t].contains(d) <==> opps@.subrange(i as int, opps.len() as int).contains(d),
            decreases opps.len() - i,
        {
            let d: u32 = opps[i];
            let ghost before = self@;
            let ghost rest = opps@.subrange(i as int, opps.len() as int);
            proof {
                assert(rest[0] == d);
                assert(rest.contains(d));
            }
            self.drop_tet_at(t, d);
            proof {
                old(self)@.lemma_order_chain(before, self@);
                lemma_dropped(before.tet_opps[t], d);
                let rest2 = opps@.subrange(i + 1, opps.len() as int);
                assert forall|d2: u32| rest2.contains(d2) <==> rest.contains(d2) && d2 != d by {
                    if rest2.contains(d2) {
                        let j = choose|j: int| 0 <= j < rest2.len() && rest2[j] == d2;
                        assert(rest[j + 1] == d2);
                        assert(opps@[i + 1 + j] == d2);
                    }
                    if rest.contains(d2) && d2 != d {
                        let j = choose|j: int| 0 <= j < rest.len() && rest[j] == d2;
                        assert(j != 0);
                        assert(rest2[j - 1] == d2);
                    }
                }
            }
            i = i + 1;
        }
        proof {
            assert(self@.tet_opps[t].len() == 0) by {
                if self@.tet_opps[t].len() > 0 {
                    assert(self@.tet_opps[t].contains(self@.tet_opps[t][0]));
                    let e = opps@.subrange(i as int, opps.len() as int);
                    assert(e.len() == 0);
                }
            }
            let keep = |x: TetKey| !tet_has_face(x, t);
            let mid = self@;
            assert forall|x: TetKey| mid.tets.contains_key(x) implies keep(x) by {
                if tet_has_face(x, t) {
                    let i0: int = if t == tet_face(x, 0) {
                        0
                    } else if t == tet_face(x, 1) {
                        1
                    } else if t == tet_face(x, 2) {
                        2
                    } else {
                        3
                    };
                    lemma_face_gives_tet(x, i0);
                    assert(mid.tets.contains_key(canon_tet(t.0, t.1, t.2, tet_vertex(x, i0))));
                    assert(mid.tet_opps[t].contains(tet_vertex(x, i0)));
                }
            }
            assert(self@.tets =~= old(self)@.tets.filter_keys(keep));
        }
    }

    // Removes a triangle that is in the mesh, after the tetrahedra around it.
    pub(crate) fn drop_tri(&mut self, t: (u32, u32, u32)) -> (r: F)
        requires
            old(self).wf(),
            old(self)@.tris.contains_key(t),
        ensures
            final(self).wf(),
            r == old(self)@.tris[t],
            old(self)@.tri_gone(final(self)@, t),
    {
        self.drop_tets_around(t);
        let ghost mid = self@;
        let r = self.unlink_tri(t);
        proof {
            mid.lemma_order_remove_tri(t);
            old(self)@.lemma_order_chain(mid, self@);
        }
        r
    }

    /// Removes the triangle `tri` and returns its payload, if it is there.
    /// Every tetrahedron of which it is a face goes first.
    pub fn remove_tri(&mut self, tri: TriId) -> (r: Option<F>)
        requires
            old(self).wf(),
            tri.valid(),
        ensures
            final(self).wf(),
            r == old(self)@.tris.get(tri.key()),
            old(self)@.tris.contains_key(tri.key()) ==> old(self)@.tri_gone(final(self)@, tri.key()),
            !old(self)@.tris.contains_key(tri.key()) ==> final(self)@ == old(self)@,
    {
        let t = canon3(tri.0[0].0, tri.0[1].0, tri.0[2].0);
        if self.has_tri(t) {
            Some(self.drop_tri(t))
        } else {
            None
        }
    }

    // Takes an edge that lies on no triangle out of the rings at its ends
    // and out of the store.
    pub(crate) fn unlink_edge(&mut self, a: u32, b: u32) -> (r: E)
        requires
            old(self).wf(),
            old(self)@.edges.contains_key((a, b)),
            old(self)@.tri_opps[(a, b)].len() == 0,
        ensures
            final(self).wf(),
            r == old(self)@.edges[(a, b)],
            final(self)@ == old(self)@.remove_edge((a, b)),
    {
        proof {
            assert(self@.targets[a].contains(b));
            assert(self@.sources[b].contains(a));
        }
        self.out_del(a, b);
        self.in_del(b, a);
        let r = self.edge_take(a, b);
        proof {
            old(self)@.lemma_remove_edge((a, b), MWB);
        }
        r
    }

    // Removes the triangle that `c` makes with the edge from `a` to `b`.
    pub(crate) fn drop_tri_at(&mut self, a: u32, b: u32, c: u32)
        requires
            old(self).wf(),
            old(self)@.tri_opps[(a, b)].contains(c),
        ensures
            final(self).wf(),
            old(self)@.tris.contains_key(canon_tri(a, b, c)),
            tri_has_edge(canon_tri(a, b, c), (a, b)),
            old(self)@.tri_gone(final(self)@, canon_tri(a, b, c)),
            final(self)@.tri_opps[(a, b)] == dropped(old(self)@.tri_opps[(a, b)], c),
    {
        proof {
            self@.lemma_tri_ring_base(a, b, c, MWB);
            lemma_canon_tri(a, b, c);
        }
        let k = canon3(a, b, c);
        self.drop_tri(k);
    }

    // Removes the triangles around an edge of the mesh.
    pub(crate) fn drop_tris_around(&mut self, a: u32, b: u32)
        requires
            old(self).wf(),
            old(self)@.edges.contains_key((a, b)),
        ensures
            final(self).wf(),
            final(self)@.tri_opps[(a, b)].len() == 0,
            final(self)@.vertices == old(self)@.vertices,
            final(self)@.edges == old(self)@.edges,
            final(self)@.next_id == old(self)@.next_id,
            final(self)@.targets == old(self)@.targets,
            final(self)@.sources == old(self)@.sources,
            final(self)@.tris == old(self)@.tris.filter_keys(|t: TriKey| !tri_has_edge(t, (a, b))),
            final(self)@.tets == old(self)@.tets.filter_keys(|x: TetKey| !tet_has_edge(x, (a, b))),
            old(self)@.order_kept(final(self)@),
    {
        let opps = self.tri_ring(a, b);
        let mut i: usize = 0;
        proof {
            assert(opps@.subrange(0, opps.len() as int) =~= opps@);
            self@.lemma_order_same();
        }
        while i < opps.len()
            invariant
                0 <= i <= opps.len(),
                opps@.no_duplicates(),
                self.wf(),
                old(self)@.order_kept(self@),
                self@.vertices == old(self)@.vertices,
                self@.edges == old(self)@.edges,
                self@.next_id == old(self)@.next_id,
                self@.targets == old(self)@.targets,
                self@.sources == old(self)@.sources,
                forall|t: TriKey| #[trigger]
                    self@.tris.contains_key(t) ==> old(self)@.tris.contains_key(t) && self@.tris[t]
                        == old(self)@.tris[t],
                forall|t: TriKey|
                    old(self)@.tris.contains_key(t) && !tri_has_edge(t, (a, b))
                        ==> #[trigger] self@.tris.contains_key(t),
                forall|x: TetKey| #[trigger]
                    self@.tets.contains_key(x) ==> old(self)@.tets.contains_key(x) && self@.tets[x]
                        == old(self)@.tets[x],
                forall|x: TetKey|
                    old(self)@.tets.contains_key(x) && !tet_has_edge(x, (a, b))
                        ==> #[trigger] self@.tets.contains_key(x),
                forall|c: u32| #[trigger]
                    self@.tri_opps[(a, b)].contains(c) <==> opps@.subrange(
                        i as int,
                        opps.len() as int,
                    ).contains(c),
            decreases opps.len() - i,
        {
            let c: u32 = opps[i];
            let ghost before = self@;
            let ghost rest = opps@.subrange(i as int, opps.len() as int);
            proof {
                assert(rest[0] == c);
                assert(rest.contains(c));
            }
            self.drop_tri_at(a, b, c);
            proof {
                let k = canon_tri(a, b, c);
                old(self)@.lemma_order_chain(before, self@);
                lemma_dropped(before.tri_opps[(a, b)], c);
                let rest2 = opps@.subrange(i + 1, opps.len() as int);
                assert forall|d2: u32| rest2.contains(d2) <==> rest.contains(d2) && d2 != c by {
                    if rest2.contains(d2) {
                        let j = choose|j: int| 0 <= j < rest2.len() && rest2[j] == d2;
                        assert(rest[j + 1] == d2);
                        assert(opps@[i + 1 + j] == d2);
                    }
                    if rest.contains(d2) && d2 != c {
                        let j = choose|j: int| 0 <= j < rest.len() && rest[j] == d2;
                        assert(j != 0);
                        assert(rest2[j - 1] == d2);
                    }
                }
                assert forall|x: TetKey|
                    old(self)@.tets.contains_key(x) && !tet_has_edge(x, (a, b))
                        implies #[trigger] self@.tets.contains_key(x) by {
                    assert(before.tets.contains_key(x));
                    if tet_has_face(x, k) {
                        let i0: int = if k == tet_face(x, 0) {
                            0
                        } else if k == tet_face(x, 1) {
                            1
                        } else if k == tet_face(x, 2) {
                            2
                        } else {
                            3
                        };
                        lemma_face_vertices(x, i0);
                        assert(tri_has_vertex(k, a) && tri_has_vertex(k, b));
                    }
                }
            }
            i = i + 1;
        }
        proof {
            let mid = self@;
            assert(mid.tri_opps[(a, b)].len() == 0) by {
                if mid.tri_opps[(a, b)].len() > 0 {
                    assert(mid.tri_opps[(a, b)].contains(mid.tri_opps[(a, b)][0]));
                    let e = opps@.subrange(i as int, opps.len() as int);
                    assert(e.len() == 0);
                }
            }
            let keep3 = |t: TriKey| !tri_has_edge(t, (a, b));
            assert forall|t: TriKey| mid.tris.contains_key(t) implies keep3(t) by {
                if tri_has_edge(t, (a, b)) {
                    lemma_canon_tri(t.0, t.1, t.2);
                    let c = if (a, b) == (t.0, t.1) {
                        t.2
                    } else if (a, b) == (t.1, t.2) {
                        t.0
                    } else {
                        t.1
                    };
                    assert(canon_tri(a, b, c) == t);
                    assert(mid.tri_opps[(a, b)].contains(c));
                }
            }
            assert(mid.tris =~= old(self)@.tris.filter_keys(keep3));
            let keep4 = |x: TetKey| !tet_has_edge(x, (a, b));
            assert forall|x: TetKey| mid.tets.contains_key(x) implies keep4(x) by {
                if tet_has_edge(x, (a, b)) {
                    lemma_tet_edge_on_face(x, (a, b));
                    let j = choose|j: int| 0 <= j < 4 && tri_has_edge(tet_face(x, j), (a, b));
                    assert(mid.tris.contains_key(tet_face(x, j)));
                }
            }
            assert(mid.tets =~= old(self)@.tets.filter_keys(keep4));
        }
    }

    // Removes an edge that is in the mesh, after the triangles around it.
    pub(crate) fn drop_edge(&mut self, a: u32, b: u32) -> (r: E)
        requires
            old(self).wf(),
            old(self)@.edges.contains_key((a, b)),
        ensures
            final(self).wf(),
            r == old(self)@.edges[(a, b)],
            old(self)@.edge_gone(final(self)@, (a, b)),
    {
        self.drop_tris_around(a, b);
        let ghost mid = self@;
        let r = self.unlink_edge(a, b);
        proof {
            mid.lemma_order_remove_edge((a, b), a);
            old(self)@.lemma_order_chain(mid, self@);
        }
        r
    }

    /// Removes the edge `e` and returns its payload, if it is there. Every
    /// triangle on which it lies goes first, and with each the tetrahedra of
    /// which it is a face.
    pub fn remove_edge(&mut self, e: EdgeId) -> (r: Option<E>)
        requires
            old(self).wf(),
        ensures
            final(self).wf(),
            r == old(self)@.edges.get(e@),
            old(self)@.edges.contains_key(e@) ==> old(self)@.edge_gone(final(self)@, e@),
            !old(self)@.edges.contains_key(e@) ==> final(self)@ == old(self)@,
    {
        let a: u32 = e.0[0].0;
        let b: u32 = e.0[1].0;
        if self.has_edge(a, b) {
            Some(self.drop_edge(a, b))
        } else {
            None
        }
    }

    // Removes the edges that leave a vertex of the mesh, and with them every
    // triangle and tetrahedron at the vertex.
    pub(crate) fn drop_edges_out(&mut self, v: u32)
        requires
            old(self).wf(),
            old(self)@.vertices.contains_key(v),
        ensures
            final(self).wf(),
            final(self)@.targets[v].len() == 0,
            final(self)@.vertices == old(self)@.vertices,
            final(self)@.next_id == old(self)@.next_id,
            final(self)@.edges == old(self)@.edges.filter_keys(|e: EdgeKey| e.0 != v),
            final(self)@.tris == old(self)@.tris.filter_keys(|t: TriKey| !tri_has_vertex(t, v)),
            final(self)@.tets == old(self)@.tets.filter_keys(|x: TetKey| !tet_has_vertex(x, v)),
            old(self)@.order_kept(final(self)@),
    {
        let outs = self.out_ring(v);
        let mut i: usize = 0;
        proof {
            assert(outs@.subrange(0, outs.len() as int) =~= outs@);
            self@.lemma_order_same();
        }
        while i < outs.len()
            invariant
                0 <= i <= outs.len(),
                outs@.no_duplicates(),
                self.wf(),
                old(self)@.order_kept(self@),
                self@.vertices == old(self)@.vertices,
                self@.next_id == old(self)@.next_id,
                forall|e: EdgeKey| #[trigger]
                    self@.edges.contains_key(e) ==> old(self)@.edges.contains_key(e)
                        && self@.edges[e] == old(self)@.edges[e],
                forall|e: EdgeKey|
                    old(self)@.edges.contains_key(e) && e.0 != v ==> #[trigger] self@.edges.contains_key(
                        e,
                    ),
                forall|t: TriKey| #[trigger]
                    self@.tris.contains_key(t) ==> old(self)@.tris.contains_key(t) && self@.tris[t]
                        == old(self)@.tris[t],
                forall|t: TriKey|
                    old(self)@.tris.contains_key(t) && !tri_has_vertex(t, v)
                        ==> #[trigger] self@.tris.contains_key(t),
                forall|x: TetKey| #[trigger]
                    self@.tets.contains_key(x) ==> old(self)@.tets.contains_key(x) && self@.tets[x]
                        == old(self)@.tets[x],
                forall|x: TetKey|
                    old(self)@.tets.contains_key(x) && !tet_has_vertex(x, v)
                        ==> #[trigger] self@.tets.contains_key(x),
                forall|b: u32| #[trigger]
                    self@.targets[v].contains(b) <==> outs@.subrange(
                        i as int,
                        outs.len() as int,
                    ).contains(b),
            decreases outs.len() - i,
        {
            let b: u32 = outs[i];
            let ghost before = self@;
            let ghost rest = outs@.subrange(i as int, outs.len() as int);
            proof {
                assert(rest[0] == b);
                assert(rest.contains(b));
                assert(before.targets[v].contains(b));
                assert(before.edges.contains_key((v, b)));
            }
            self.drop_edge(v, b);
            proof {
                old(self)@.lemma_order_chain(before, self@);
                lemma_dropped(before.targets[v], b);
                let rest2 = outs@.subrange(i + 1, outs.len() as int);
                assert forall|d2: u32| rest2.contains(d2) <==> rest.contains(d2) && d2 != b by {
                    if rest2.contains(d2) {
                        let j = choose|j: int| 0 <= j < rest2.len() && rest2[j] == d2;
                        assert(rest[j + 1] == d2);
                        assert(outs@[i + 1 + j] == d2);
                    }
                    if rest.contains(d2) && d2 != b {
                        let j = choose|j: int| 0 <= j < rest.len() && rest[j] == d2;
                        assert(j != 0);
                        assert(rest2[j - 1] == d2);
                    }
                }
            }
            i = i + 1;
        }
        proof {
            let mid = self@;
            assert(mid.targets[v].len() == 0) by {
                if mid.targets[v].len() > 0 {
                    assert(mid.targets[v].contains(mid.targets[v][0]));
                    let e = outs@.subrange(i as int, outs.len() as int);
                    assert(e.len() == 0);
                }
            }
            let keep2 = |e: EdgeKey| e.0 != v;
            assert forall|e: EdgeKey| mid.edges.contains_key(e) implies keep2(e) by {
                if e.0 == v {
                    assert(mid.edges.contains_key((v, e.1)));
                    assert(mid.targets[v].contains(e.1));
                }
            }
            assert(mid.edges =~= old(self)@.edges.filter_keys(keep2));
            let keep3 = |t: TriKey| !tri_has_vertex(t, v);
            assert forall|t: TriKey| mid.tris.contains_key(t) implies keep3(t) by {
                if tri_has_vertex(t, v) {
                    assert(mid.edges.contains_key((t.0, t.1)));
                    assert(mid.edges.contains_key((t.1, t.2)));
                    assert(mid.edges.contains_key((t.2, t.0)));
                }
            }
            assert(mid.tris =~= old(self)@.tris.filter_keys(keep3));
            let keep4 = |x: TetKey| !tet_has_vertex(x, v);
            assert forall|x: TetKey| mid.tets.contains_key(x) implies keep4(x) by {
                if tet_has_vertex(x, v) {
                    let j: int = if x.0 == v {
                        1
                    } else {
                        0
                    };
                    lemma_face_vertices(x, j);
                    assert(tri_has_vertex(tet_face(x, j), v));
                    assert(mid.tris.contains_key(tet_face(x, j)));
                }
            }
            assert(mid.tets =~= old(self)@.tets.filter_keys(keep4));
        }
    }

    // Removes the edges that reach a vertex which no edge leaves.
    pub(crate) fn drop_edges_in(&mut self, v: u32)
        requires
            old(self).wf(),
            old(self)@.vertices.contains_key(v),
            old(self)@.targets[v].len() == 0,
        ensures
            final(self).wf(),
            final(self)@.targets[v].len() == 0,
            final(self)@.sources[v].len() == 0,
            final(self)@.vertices == old(self)@.vertices,
            final(self)@.next_id == old(self)@.next_id,
            final(self)@.edges == old(self)@.edges.filter_keys(|e: EdgeKey| e.1 != v),
            final(self)@.tris == old(self)@.tris,
            final(self)@.tets == old(self)@.tets,
            old(self)@.order_kept(final(self)@),
    {
        let ins = self.in_ring(v);
        let mut i: usize = 0;
        proof {
            assert(ins@.subrange(0, ins.len() as int) =~= ins@);
            self@.lemma_order_same();
            assert forall|t: TriKey| self@.tris.contains_key(t) implies !tri_has_vertex(t, v) by {
                if tri_has_vertex(t, v) {
                    assert(self@.edges.contains_key((t.0, t.1)));
                    assert(self@.edges.contains_key((t.1, t.2)));
                    assert(self@.edges.contains_key((t.2, t.0)));
                    assert(self@.targets[t.0].contains(t.1));
                    assert(self@.targets[t.1].contains(t.2));
                    assert(self@.targets[t.2].contains(t.0));
                }
            }
        }
        while i < ins.len()
            invariant
                0 <= i <= ins.len(),
                ins@.no_duplicates(),
                self.wf(),
                old(self)@.order_kept(self@),
                self@.vertices == old(self)@.vertices,
                self@.next_id == old(self)@.next_id,
                self@.tris == old(self)@.tris,
                self@.tets == old(self)@.tets,
                self@.targets[v].len() == 0,
                forall|t: TriKey| self@.tris.contains_key(t) ==> !tri_has_vertex(t, v),
                forall|e: EdgeKey| #[trigger]
                    self@.edges.contains_key(e) ==> old(self)@.edges.contains_key(e)
                        && self@.edges[e] == old(self)@.edges[e],
                forall|e: EdgeKey|
                    old(self)@.edges.contains_key(e) && e.1 != v ==> #[trigger] self@.edges.contains_key(
                        e,
                    ),
                forall|a: u32| #[trigger]
                    self@.sources[v].contains(a) <==> ins@.subrange(
                        i as int,
                        ins.len() as int,
                    ).contains(a),
            decreases ins.len() - i,
        {
            let a: u32 = ins[i];
            let ghost before = self@;
            let ghost rest = ins@.subrange(i as int, ins.len() as int);
            proof {
                assert(rest[0] == a);
                assert(rest.contains(a));
                assert(before.sources[v].contains(a));
                assert(before.edges.contains_key((a, v)));
            }
            self.drop_edge(a, v);
            proof {
                old(self)@.lemma_order_chain(before, self@);
                lemma_dropped(before.sources[v], a);
                let rest2 = ins@.subrange(i + 1, ins.len() as int);
                assert forall|d2: u32| rest2.contains(d2) <==> rest.contains(d2) && d2 != a by {
                    if rest2.contains(d2) {
                        let j = choose|j: int| 0 <= j < rest2.len() && rest2[j] == d2;
                        assert(rest[j + 1] == d2);
                        assert(ins@[i + 1 + j] == d2);
                    }
                    if rest.contains(d2) && d2 != a {
                        let j = choose|j: int| 0 <= j < rest.len() && rest[j] == d2;
                        assert(j != 0);
                        assert(rest2[j - 1] == d2);
                    }
                }
                assert(self@.tris =~= before.tris);
                assert(self@.tets =~= before.tets) by {
                    assert forall|x: TetKey| before.tets.contains_key(x) implies !tet_has_edge(
                        x,
                        (a, v),
                    ) by {
                        if tet_has_vertex(x, v) {
                            let j: int = if x.0 == v {
                                1
                            } else {
                                0
                            };
                            lemma_face_vertices(x, j);
                            assert(tri_has_vertex(tet_face(x, j), v));
                            assert(before.tris.contains_key(tet_face(x, j)));
                        }
                    }
                }
                assert(a != v);
                assert(self@.targets[v] == before.targets[v]);
            }
            i = i + 1;
        }
        proof {
            let mid = self@;
            assert(mid.sources[v].len() == 0) by {
                if mid.sources[v].len() > 0 {
                    assert(mid.sources[v].contains(mid.sources[v][0]));
                    let e = ins@.subrange(i as int, ins.len() as int);
                    assert(e.len() == 0);
                }
            }
            let keep2 = |e: EdgeKey| e.1 != v;
            assert forall|e: EdgeKey| mid.edges.contains_key(e) implies keep2(e) by {
                if e.1 == v {
                    assert(mid.edges.contains_key((e.0, v)));
                    assert(mid.sources[v].contains(e.0));
                }
            }
            assert(mid.edges =~= old(self)@.edges.filter_keys(keep2));
        }
    }

    /// Removes the vertex `v` and returns its payload, if it is there. Every
    /// edge at the vertex goes first, and with each the triangles and
    /// tetrahedra that rest on it.
    pub fn remove_vertex(&mut self, v: VertexId) -> (r: Option<V>)
        requires
            old(self).wf(),
        ensures
            final(self).wf(),
            r == old(self)@.vertices.get(v.0),
            old(self)@.vertices.contains_key(v.0) ==> old(self)@.vertex_gone(final(self)@, v.0),
            !old(self)@.vertices.contains_key(v.0) ==> final(self)@ == old(self)@,
    {
        if self.has_vertex(v.0) {
            self.remove_vertex_higher(v);
            let ghost mid = self@;
            proof {
                mid.lemma_remove_vertex(v.0, MWB);
                mid.lemma_order_remove_edge((v.0, v.0), v.0);
            }
            let r = self.vertex_take(v.0);
            proof {
                old(self)@.lemma_order_chain(mid, self@);
            }
            Some(r)
        } else {
            None
        }
    }

    /// Removes the edge `e` if it lies on no triangle, and returns its
    /// payload then.
    pub fn prune_edge(&mut self, e: EdgeId) -> (r: Option<E>)
        requires
            old(self).wf(),
        ensures
            final(self).wf(),
            final(self)@ == old(self)@.prune_edge(e@),
            r == if old(self)@.edges.contains_key(e@) && old(self)@.tri_opps[e@].len() == 0 {
                Some(old(self)@.edges[e@])
            } else {
                None
            },
            final(self)@.vertices == old(self)@.vertices,
            final(self)@.tris == old(self)@.tris,
            final(self)@.tets == old(self)@.tets,
            final(self)@.tri_opps == old(self)@.tri_opps,
            final(self)@.tet_opps == old(self)@.tet_opps,
            final(self)@.next_id == old(self)@.next_id,
            forall|x: EdgeKey| #[trigger]
                final(self)@.edges.contains_key(x) ==> old(self)@.edges.contains_key(x)
                    && final(self)@.edges[x] == old(self)@.edges[x],
            forall|x: EdgeKey|
                old(self)@.edges.contains_key(x) && x != e@ ==> #[trigger] final(self)@.edges.contains_key(x),
    {
        let a: u32 = e.0[0].0;
        let b: u32 = e.0[1].0;
        if self.has_edge(a, b) {
            match self.edge_hint(a, b) {
                Some(_) => None,
                None => Some(self.unlink_edge(a, b)),
            }
        } else {
            None
        }
    }

    // `prune_tri` on a canonical triple.
    pub(crate) fn prune_tri_key(&mut self, t: (u32, u32, u32)) -> (r: Option<F>)
        requires
            old(self).wf(),
        ensures
            final(self).wf(),
            final(self)@ == old(self)@.prune_tri(t),
            r == if old(self)@.tris.contains_key(t) && old(self)@.tet_opps[t].len() == 0 {
                Some(old(self)@.tris[t])
            } else {
                None
            },
            final(self)@.vertices == old(self)@.vertices,
            final(self)@.tets == old(self)@.tets,
            final(self)@.tet_opps == old(self)@.tet_opps,
            final(self)@.next_id == old(self)@.next_id,
            forall|g: TriKey| #[trigger]
                final(self)@.tris.contains_key(g) ==> old(self)@.tris.contains_key(g)
                    && final(self)@.tris[g] == old(self)@.tris[g],
            forall|g: TriKey|
                old(self)@.tris.contains_key(g) && g != t ==> #[trigger] final(self)@.tris.contains_key(g),
            forall|x: EdgeKey| #[trigger]
                final(self)@.edges.contains_key(x) ==> old(self)@.edges.contains_key(x)
                    && final(self)@.edges[x] == old(self)@.edges[x],
            forall|x: EdgeKey|
                old(self)@.edges.contains_key(x) && !tri_has_edge(t, x) ==> #[trigger] final(self)@.edges.contains_key(x),
    {
        if self.has_tri(t) {
            match self.tri_hint(t) {
                Some(_) => None,
                None => {
                    let r = self.unlink_tri(t);
                    let ghost v0 = self@;
                    self.prune_edge(EdgeId([VertexId(t.0), VertexId(t.1)]));
                    let ghost v1 = self@;
                    self.prune_edge(EdgeId([VertexId(t.1), VertexId(t.2)]));
                    let ghost v2 = self@;
                    self.prune_edge(EdgeId([VertexId(t.2), VertexId(t.0)]));
                    proof {
                        assert forall|x: EdgeKey| #[trigger] self@.edges.contains_key(x) implies old(self)@.edges.contains_key(x) && self@.edges[x] == old(self)@.edges[x] by {
                            assert(v2.edges.contains_key(x));
                            assert(v1.edges.contains_key(x));
                            assert(v0.edges.contains_key(x));
                        }
                        assert forall|x: EdgeKey|
                            old(self)@.edges.contains_key(x) && !tri_has_edge(
                                t,
                                x,
                            ) implies #[trigger] self@.edges.contains_key(x) by {
                            assert(v0.edges.contains_key(x));
                            assert(v1.edges.contains_key(x));
                            assert(v2.edges.contains_key(x));
                        }
                    }
                    Some(r)
                },
            }
        } else {
            None
        }
    }

    /// Removes the triangle `tri` if it is a face of no tetrahedron, and
    /// returns its payload then. Those of its edges that are left on no
    /// triangle go with it.
    pub fn prune_tri(&mut self, tri: TriId) -> (r: Option<F>)
        requires
            old(self).wf(),
        ensures
            final(self).wf(),
            final(self)@ == old(self)@.prune_tri(tri.key()),
            r == if old(self)@.tris.contains_key(tri.key()) && old(self)@.tet_opps[tri.key()].len()
                == 0 {
                Some(old(self)@.tris[tri.key()])
            } else {
                None
            },
    {
        let t = canon3(tri.0[0].0, tri.0[1].0, tri.0[2].0);
        self.prune_tri_key(t)
    }

    // `remove_tet_pruning` on a canonical quadruple of the mesh.
    pub(crate) fn prune_tet_key(&mut self, t: (u32, u32, u32, u32)) -> (r: T)
        requires
            old(self).wf(),
            old(self)@.tets.contains_key(t),
        ensures
            final(self).wf(),
            final(self)@ == old(self)@.prune_tet(t),
            r == old(self)@.tets[t],
            final(self)@.tets == old(self)@.tets.remove(t),
            final(self)@.vertices == old(self)@.vertices,
            final(self)@.next_id == old(self)@.next_id,
            forall|g: TriKey| #[trigger]
                final(self)@.tris.contains_key(g) ==> old(self)@.tris.contains_key(g)
                    && final(self)@.tris[g] == old(self)@.tris[g],
            forall|x: EdgeKey| #[trigger]
                final(self)@.edges.contains_key(x) ==> old(self)@.edges.contains_key(x)
                    && final(self)@.edges[x] == old(self)@.edges[x],
    {
        let r = self.unlink_tet(t);
        let ghost v0 = self@;
        self.prune_tri_key(face(t, 0));
        let ghost v1 = self@;
        self.prune_tri_key(face(t, 1));
        let ghost v2 = self@;
        self.prune_tri_key(face(t, 2));
        let ghost v3 = self@;
        self.prune_tri_key(face(t, 3));
        proof {
            assert(v0 == old(self)@.remove_tet(t));
            assert(v1 == v0.prune_tri(tet_face(t, 0)));
            assert(v2 == v1.prune_tri(tet_face(t, 1)));
            assert(v3 == v2.prune_tri(tet_face(t, 2)));
            assert(self@ == v3.prune_tri(tet_face(t, 3)));
            assert forall|g: TriKey| #[trigger] self@.tris.contains_key(g) implies old(self)@.tris.contains_key(g) && self@.tris[g] == old(self)@.tris[g] by {
                assert(v3.tris.contains_key(g));
                assert(v2.tris.contains_key(g));
                assert(v1.tris.contains_key(g));
                assert(v0.tris.contains_key(g));
            }
            assert forall|x: EdgeKey| #[trigger] self@.edges.contains_key(x) implies old(self)@.edges.contains_key(x) && self@.edges[x] == old(self)@.edges[x] by {
                assert(v3.edges.contains_key(x));
                assert(v2.edges.contains_key(x));
                assert(v1.edges.contains_key(x));
                assert(v0.edges.contains_key(x));
            }
        }
        r
    }

    // `prune_tet_key` for callers that ask for the tetrahedra only.
    pub(crate) fn discard_tet(&mut self, t: (u32, u32, u32, u32))
        requires
            old(self).wf(),
        ensures
            final(self).wf(),
            final(self)@ == old(self)@.without_tet(t),
            final(self)@.tets == old(self)@.tets.remove(t),
            final(self)@.vertices == old(self)@.vertices,
            final(self)@.next_id == old(self)@.next_id,
            forall|g: TriKey| #[trigger]
                final(self)@.tris.contains_key(g) ==> old(self)@.tris.contains_key(g)
                    && final(self)@.tris[g] == old(self)@.tris[g],
            forall|x: EdgeKey| #[trigger]
                final(self)@.edges.contains_key(x) ==> old(self)@.edges.contains_key(x)
                    && final(self)@.edges[x] == old(self)@.edges[x],
    {
        if self.has_tet(t) {
            self.prune_tet_key(t);
        } else {
            proof {
                assert(self@.tets =~= old(self)@.tets.remove(t));
            }
        }
    }

    /// Removes the tetrahedron `tet` and returns its payload, if it is
    /// there. Those of its faces that are left without a tetrahedron go with
    /// it, and those of their edges that are left without a triangle.
    pub fn remove_tet_pruning(&mut self, tet: TetId) -> (r: Option<T>)
        requires
            old(self).wf(),
            tet.valid(),
        ensures
            final(self).wf(),
            r == old(self)@.tets.get(tet.key()),
            final(self)@ == old(self)@.without_tet(tet.key()),
    {
        let t = canon4(tet.0[0].0, tet.0[1].0, tet.0[2].0, tet.0[3].0);
        if self.has_tet(t) {
            Some(self.prune_tet_key(t))
        } else {
            None
        }
    }

    // Removes the canonical triangle `t` with the tetrahedra on it, then
    // prunes its edges.
    pub(crate) fn drop_tri_pruning(&mut self, t: (u32, u32, u32)) -> (r: Option<F>)
        requires
            old(self).wf(),
        ensures
            final(self).wf(),
            r == old(self)@.tris.get(t),
            !old(self)@.tris.contains_key(t) ==> final(self)@ == old(self)@,
            old(self)@.tris.contains_key(t) ==> {
                let w = old(self)@.remove_tri(t).prune_edge((t.0, t.1)).prune_edge(
                    (t.1, t.2),
                ).prune_edge((t.2, t.0));
                &&& final(self)@.tets =~= old(self)@.tets.filter_keys(
                    |x: TetKey| !tet_has_face(x, t),
                )
                &&& final(self)@.tris == w.tris
                &&& final(self)@.edges == w.edges
                &&& final(self)@.vertices == w.vertices
                &&& final(self)@.targets == w.targets
                &&& final(self)@.sources == w.sources
                &&& final(self)@.tri_opps == w.tri_opps
                &&& final(self)@.next_id == w.next_id
                &&& old(self)@.order_kept(final(self)@)
            },
    {
        if self.has_tri(t) {
            let r = self.drop_tri(t);
            let ghost m0 = self@;
            self.prune_edge(EdgeId([VertexId(t.0), VertexId(t.1)]));
            let ghost m1 = self@;
            self.prune_edge(EdgeId([VertexId(t.1), VertexId(t.2)]));
            let ghost m2 = self@;
            self.prune_edge(EdgeId([VertexId(t.2), VertexId(t.0)]));
            proof {
                m0.lemma_order_prune_edge((t.0, t.1));
                m1.lemma_order_prune_edge((t.1, t.2));
                m2.lemma_order_prune_edge((t.2, t.0));
                old(self)@.lemma_order_chain(m0, m1);
                old(self)@.lemma_order_chain(m1, m2);
                old(self)@.lemma_order_chain(m2, self@);
            }
            Some(r)
        } else {
            None
        }
    }

    /// Removes what rests on the triangle `tri`: every tetrahedron of which
    /// it is a face. The triangle stays.
    pub fn remove_tri_higher(&mut self, tri: TriId)
        requires
            old(self).wf(),
        ensures
            final(self).wf(),
            final(self)@.tet_opps[tri.key()].len() == 0,
            final(self)@.tets =~= old(self)@.tets.filter_keys(
                |x: TetKey| !tet_has_face(x, tri.key()),
            ),
            final(self)@.tris == old(self)@.tris,
            final(self)@.edges == old(self)@.edges,
            final(self)@.vertices == old(self)@.vertices,
            final(self)@.next_id == old(self)@.next_id,
            final(self)@.targets == old(self)@.targets,
            final(self)@.sources == old(self)@.sources,
            final(self)@.tri_opps == old(self)@.tri_opps,
            old(self)@.order_kept(final(self)@),
    {
        let t = canon3(tri.0[0].0, tri.0[1].0, tri.0[2].0);
        if self.has_tri(t) {
            self.drop_tets_around(t);
        } else {
            proof {
                self@.lemma_order_same();
                let ring = self@.tet_opps[t];
                if ring.len() > 0 {
                    assert(ring.contains(ring[0]));
                    self@.lemma_tet_ring_base(t, ring[0], MWB);
                }
                assert forall|x: TetKey| self@.tets.contains_key(x) implies !tet_has_face(x, t) by {
                    if tet_has_face(x, t) {
                        assert(self@.tris.contains_key(tet_face(x, 0)));
                        assert(self@.tris.contains_key(tet_face(x, 1)));
                        assert(self@.tris.contains_key(tet_face(x, 2)));
                        assert(self@.tris.contains_key(tet_face(x, 3)));
                    }
                }
                assert(self@.tets =~= self@.tets.filter_keys(|x: TetKey| !tet_has_face(x, t)));
            }
        }
    }

    /// Removes what rests on the edge `e`: every triangle on which it lies,
    /// and with each the tetrahedra of which it is a face. The edge stays.
    /// The triangles are taken from a list of the ring around the edge that
    /// is made before the first removal.
    pub fn remove_edge_higher(&mut self, e: EdgeId)
        requires
            old(self).wf(),
        ensures
            final(self).wf(),
            final(self)@.tri_opps[e@].len() == 0,
            final(self)@.tris =~= old(self)@.tris.filter_keys(|t: TriKey| !tri_has_edge(t, e@)),
            final(self)@.tets =~= old(self)@.tets.filter_keys(|x: TetKey| !tet_has_edge(x, e@)),
            final(self)@.edges == old(self)@.edges,
            final(self)@.vertices == old(self)@.vertices,
            final(self)@.next_id == old(self)@.next_id,
            final(self)@.targets == old(self)@.targets,
            final(self)@.sources == old(self)@.sources,
            old(self)@.order_kept(final(self)@),
    {
        let a: u32 = e.0[0].0;
        let b: u32 = e.0[1].0;
        if self.has_edge(a, b) {
            self.drop_tris_around(a, b);
        } else {
            proof {
                self@.lemma_order_same();
                let ring = self@.tri_opps[(a, b)];
                if ring.len() > 0 {
                    assert(ring.contains(ring[0]));
                    self@.lemma_tri_ring_base(a, b, ring[0], MWB);
                }
                assert forall|t: TriKey| self@.tris.contains_key(t) implies !tri_has_edge(
                    t,
                    (a, b),
                ) by {
                    if tri_has_edge(t, (a, b)) {
                        assert(self@.edges.contains_key((t.0, t.1)));
                        assert(self@.edges.contains_key((t.1, t.2)));
                        assert(self@.edges.contains_key((t.2, t.0)));
                    }
                }
                assert forall|x: TetKey| self@.tets.contains_key(x) implies !tet_has_edge(
                    x,
                    (a, b),
                ) by {
                    if tet_has_edge(x, (a, b)) {
                        lemma_tet_edge_on_face(x, (a, b));
                        let j = choose|j: int| 0 <= j < 4 && tri_has_edge(tet_face(x, j), (a, b));
                        assert(self@.tris.contains_key(tet_face(x, j)));
                    }
                }
                assert(self@.tris =~= self@.tris.filter_keys(|t: TriKey| !tri_has_edge(t, (a, b))));
                assert(self@.tets =~= self@.tets.filter_keys(|x: TetKey| !tet_has_edge(x, (a, b))));
            }
        }
    }

    /// Removes what rests on the vertex `v`, which is in the mesh: every edge
    /// that leaves or reaches it, and with each the triangles and tetrahedra
    /// on it. The vertex stays. The edges are taken from lists of the two
    /// rings at the vertex that are made before the first removal from each.
    pub fn remove_vertex_higher(&mut self, v: VertexId)
        requires
            old(self).wf(),
            old(self)@.vertices.contains_key(v.0),
        ensures
            final(self).wf(),
            final(self)@.targets[v.0].len() == 0,
            final(self)@.sources[v.0].len() == 0,
            final(self)@.edges =~= old(self)@.edges.filter_keys(
                |e: EdgeKey| e.0 != v.0 && e.1 != v.0,
            ),
            final(self)@.tris =~= old(self)@.tris.filter_keys(|t: TriKey| !tri_has_vertex(t, v.0)),
            final(self)@.tets =~= old(self)@.tets.filter_keys(|x: TetKey| !tet_has_vertex(x, v.0)),
            final(self)@.vertices == old(self)@.vertices,
            final(self)@.next_id == old(self)@.next_id,
            old(self)@.order_kept(final(self)@),
    {
        self.drop_edges_out(v.0);
        let ghost mid = self@;
        self.drop_edges_in(v.0);
        proof {
            let last = self@;
            old(self)@.lemma_order_chain(mid, last);
            let both = |e: EdgeKey| e.0 != v.0 && e.1 != v.0;
            let first = |e: EdgeKey| e.0 != v.0;
            let second = |e: EdgeKey| e.1 != v.0;
            assert(mid.edges == old(self)@.edges.filter_keys(first));
            assert(last.edges == mid.edges.filter_keys(second));
            assert forall|e: EdgeKey| last.edges.contains_key(e) <==> old(self)@.edges.contains_key(e)
                && both(e) by {
                assert(first(e) == (e.0 != v.0));
                assert(second(e) == (e.1 != v.0));
            }
            assert(last.edges =~= old(self)@.edges.filter_keys(both));
        }
    }
}

} // verus!
