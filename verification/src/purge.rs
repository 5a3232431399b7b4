//! Removal that keeps a mesh pure: what a removal leaves without anything
//! above it goes too.
//!
//! In a mesh where no oriented triangle is a face of two tetrahedra, and
//! where triangles and edges are only there for the tetrahedra, the removal
//! of a vertex, an edge or a triangle takes with it the tetrahedra on it,
//! their other faces that no tetrahedron holds any more, and the edges that
//! no triangle holds any more.

use vstd::prelude::*;
use crate::ring::lemma_dropped;
use crate::simplex::{
    EdgeKey, TriKey, TetKey, canon_tri, canon_tet, is_canon_tri, is_canon_tet, tet_face,
    tet_vertex, tri_has_edge, tet_has_face, tet_has_edge, tet_has_vertex, collides, lemma_face_edge, canon3, canon4, face, lemma_canon_tri,
    lemma_canon_tet, lemma_face_gives_tet, lemma_tet_by_face, lemma_one_face_with_edge,
};
use crate::ids::{VertexId, EdgeId, TriId, TetId};
use crate::mesh::Mesh;

verus! {

impl<V, E, F, T, const MWB: bool> Mesh<V, E, F, T, MWB> {
    // Prunes the faces of the canonical tetrahedron `x` but `t`.
    fn prune_other_faces(&mut self, x: (u32, u32, u32, u32), t: (u32, u32, u32))
        requires
            old(self).wf(),
        ensures
            final(self).wf(),
            final(self)@ == old(self)@.prune_tri_unless(tet_face(x, 0), t).prune_tri_unless(
                tet_face(x, 1),
                t,
            ).prune_tri_unless(tet_face(x, 2), t).prune_tri_unless(tet_face(x, 3), t),
            final(self)@.vertices == old(self)@.vertices,
            final(self)@.tets == old(self)@.tets,
            final(self)@.tet_opps == old(self)@.tet_opps,
            final(self)@.next_id == old(self)@.next_id,
            forall|g: TriKey| #[trigger]
                final(self)@.tris.contains_key(g) ==> old(self)@.tris.contains_key(g)
                    && final(self)@.tris[g] == old(self)@.tris[g],
            old(self)@.tris.contains_key(t) ==> final(self)@.tris.contains_key(t),
            forall|e: EdgeKey| #[trigger]
                final(self)@.edges.contains_key(e) ==> old(self)@.edges.contains_key(e)
                    && final(self)@.edges[e] == old(self)@.edges[e],
            forall|e: EdgeKey|
                old(self)@.edges.contains_key(e) && !((tet_face(x, 0) != t && tri_has_edge(
                    tet_face(x, 0),
                    e,
                )) || (tet_face(x, 1) != t && tri_has_edge(tet_face(x, 1), e)) || (tet_face(x, 2)
                    != t && tri_has_edge(tet_face(x, 2), e)) || (tet_face(x, 3) != t
                    && tri_has_edge(tet_face(x, 3), e))) ==> #[trigger] final(self)@.edges.contains_key(e),
    {
        let f0 = face(x, 0);
        let f1 = face(x, 1);
        let f2 = face(x, 2);
        let f3 = face(x, 3);
        if !(f0.0 == t.0 && f0.1 == t.1 && f0.2 == t.2) {
            self.prune_tri_key(f0);
        }
        let ghost v0 = self@;
        if !(f1.0 == t.0 && f1.1 == t.1 && f1.2 == t.2) {
            self.prune_tri_key(f1);
        }
        let ghost v1 = self@;
        if !(f2.0 == t.0 && f2.1 == t.1 && f2.2 == t.2) {
            self.prune_tri_key(f2);
        }
        let ghost v2 = self@;
        if !(f3.0 == t.0 && f3.1 == t.1 && f3.2 == t.2) {
            self.prune_tri_key(f3);
        }
        proof {
            assert(v0 == old(self)@.prune_tri_unless(f0, t));
            assert(v1 == v0.prune_tri_unless(f1, t));
            assert(v2 == v1.prune_tri_unless(f2, t));
            assert(self@ == v2.prune_tri_unless(f3, t));
            assert forall|g: TriKey| #[trigger] self@.tris.contains_key(g) implies old(self)@.tris.contains_key(g) && self@.tris[g] == old(self)@.tris[g] by {
                assert(v2.tris.contains_key(g));
                assert(v1.tris.contains_key(g));
                assert(v0.tris.contains_key(g));
            }
            if old(self)@.tris.contains_key(t) {
                assert(v0.tris.contains_key(t));
                assert(v1.tris.contains_key(t));
                assert(v2.tris.contains_key(t));
            }
            assert forall|e: EdgeKey| #[trigger] self@.edges.contains_key(e) implies old(self)@.edges.contains_key(e) && self@.edges[e] == old(self)@.edges[e] by {
                assert(v2.edges.contains_key(e));
                assert(v1.edges.contains_key(e));
                assert(v0.edges.contains_key(e));
            }
            assert forall|e: EdgeKey|
                old(self)@.edges.contains_key(e) && !((f0 != t && tri_has_edge(f0, e)) || (f1 != t
                    && tri_has_edge(f1, e)) || (f2 != t && tri_has_edge(f2, e)) || (f3 != t
                    && tri_has_edge(f3, e))) implies #[trigger] self@.edges.contains_key(e) by {
                assert(v0.edges.contains_key(e));
                assert(v1.edges.contains_key(e));
                assert(v2.edges.contains_key(e));
            }
        }
    }

    // Prunes the edges of the canonical triangle `t` but the one to keep.
    fn prune_own_edges(&mut self, t: (u32, u32, u32), keep: Option<(u32, u32)>)
        requires
            old(self).wf(),
        ensures
            final(self).wf(),
            final(self)@ == old(self)@.prune_edge_unless((t.0, t.1), keep).prune_edge_unless(
                (t.1, t.2),
                keep,
            ).prune_edge_unless((t.2, t.0), keep),
            final(self)@.vertices == old(self)@.vertices,
            final(self)@.tris == old(self)@.tris,
            final(self)@.tets == old(self)@.tets,
            final(self)@.tri_opps == old(self)@.tri_opps,
            final(self)@.tet_opps == old(self)@.tet_opps,
            final(self)@.next_id == old(self)@.next_id,
            forall|e: EdgeKey| #[trigger]
                final(self)@.edges.contains_key(e) ==> old(self)@.edges.contains_key(e)
                    && final(self)@.edges[e] == old(self)@.edges[e],
            forall|e: EdgeKey|
                old(self)@.edges.contains_key(e) && (keep == Some(e) || !tri_has_edge(t, e))
                    ==> #[trigger] final(self)@.edges.contains_key(e),
    {
        let e0 = (t.0, t.1);
        let e1 = (t.1, t.2);
        let e2 = (t.2, t.0);
        if !same_edge(keep, e0) {
            self.prune_edge(EdgeId([VertexId(e0.0), VertexId(e0.1)]));
        }
        let ghost v0 = self@;
        if !same_edge(keep, e1) {
            self.prune_edge(EdgeId([VertexId(e1.0), VertexId(e1.1)]));
        }
        let ghost v1 = self@;
        if !same_edge(keep, e2) {
            self.prune_edge(EdgeId([VertexId(e2.0), VertexId(e2.1)]));
        }
        proof {
            assert(v0 == old(self)@.prune_edge_unless(e0, keep));
            assert(v1 == v0.prune_edge_unless(e1, keep));
            assert(self@ == v1.prune_edge_unless(e2, keep));
            assert forall|e: EdgeKey| #[trigger] self@.edges.contains_key(e) implies old(self)@.edges.contains_key(e) && self@.edges[e] == old(self)@.edges[e] by {
                assert(v1.edges.contains_key(e));
                assert(v0.edges.contains_key(e));
            }
            assert forall|e: EdgeKey|
                old(self)@.edges.contains_key(e) && (keep == Some(e) || !tri_has_edge(
                    t,
                    e,
                )) implies #[trigger] self@.edges.contains_key(e) by {
                assert(v0.edges.contains_key(e));
                assert(v1.edges.contains_key(e));
            }
        }
    }

    // Removes the tetrahedron on the canonical triangle `t` of the mesh,
    // and prunes its other faces.
    fn free_tri(&mut self, t: (u32, u32, u32))
        requires
            old(self).wf(),
            MWB,
            old(self)@.tris.contains_key(t),
        ensures
            final(self).wf(),
            final(self)@ == if old(self)@.tet_opps[t].len() > 0 {
                old(self)@.remove_tet(
                    canon_tet(t.0, t.1, t.2, old(self)@.tet_opps[t][0]),
                ).prune_tri_unless(
                    tet_face(canon_tet(t.0, t.1, t.2, old(self)@.tet_opps[t][0]), 0),
                    t,
                ).prune_tri_unless(
                    tet_face(canon_tet(t.0, t.1, t.2, old(self)@.tet_opps[t][0]), 1),
                    t,
                ).prune_tri_unless(
                    tet_face(canon_tet(t.0, t.1, t.2, old(self)@.tet_opps[t][0]), 2),
                    t,
                ).prune_tri_unless(
                    tet_face(canon_tet(t.0, t.1, t.2, old(self)@.tet_opps[t][0]), 3),
                    t,
                )
            } else {
                old(self)@
            },
            final(self)@.vertices == old(self)@.vertices,
            final(self)@.next_id == old(self)@.next_id,
            final(self)@.tris.contains_key(t),
            final(self)@.tris[t] == old(self)@.tris[t],
            final(self)@.tet_opps[t].len() == 0,
            forall|g: TriKey| #[trigger]
                final(self)@.tris.contains_key(g) ==> old(self)@.tris.contains_key(g)
                    && final(self)@.tris[g] == old(self)@.tris[g],
            forall|e: EdgeKey| #[trigger]
                final(self)@.edges.contains_key(e) ==> old(self)@.edges.contains_key(e)
                    && final(self)@.edges[e] == old(self)@.edges[e],
            forall|e: EdgeKey|
                old(self)@.edges.contains_key(e) && tri_has_edge(t, e) ==> #[trigger] final(self)@.edges.contains_key(e),
            forall|x: TetKey| #[trigger]
                final(self)@.tets.contains_key(x) ==> old(self)@.tets.contains_key(x)
                    && final(self)@.tets[x] == old(self)@.tets[x],
            forall|x: TetKey|
                old(self)@.tets.contains_key(x) && !tet_has_face(x, t) ==> #[trigger] final(self)@.tets.contains_key(x),
    {
        proof {
            lemma_canon_tri(t.0, t.1, t.2);
        }
        match self.tri_hint(t) {
            Some(d) => {
                let ghost ring = self@.tet_opps[t];
                proof {
                    assert(ring.contains(ring[0]));
                    self@.lemma_tet_ring_base(t, d, MWB);
                }
                let x = canon4(t.0, t.1, t.2, d);
                proof {
                    lemma_tet_by_face(x, t, d);
                    lemma_face_gives_tet(x, 0);
                    lemma_face_gives_tet(x, 1);
                    lemma_face_gives_tet(x, 2);
                    lemma_face_gives_tet(x, 3);
                    lemma_dropped(ring, d);
                    assert(ring.len() <= 1);
                }
                self.unlink_tet(x);
                proof {
                    assert(self@.tet_opps[t].len() == 0);
                    assert(self@.tris.contains_key(t));
                }
                self.prune_other_faces(x, t);
                proof {
                    assert forall|e: EdgeKey|
                        old(self)@.edges.contains_key(e) && tri_has_edge(
                            t,
                            e,
                        ) implies #[trigger] self@.edges.contains_key(e) by {
                        if tet_face(x, 0) != t && tri_has_edge(tet_face(x, 0), e) {
                            lemma_one_face_with_edge(x, e, tet_face(x, 0), t);
                        }
                        if tet_face(x, 1) != t && tri_has_edge(tet_face(x, 1), e) {
                            lemma_one_face_with_edge(x, e, tet_face(x, 1), t);
                        }
                        if tet_face(x, 2) != t && tri_has_edge(tet_face(x, 2), e) {
                            lemma_one_face_with_edge(x, e, tet_face(x, 2), t);
                        }
                        if tet_face(x, 3) != t && tri_has_edge(tet_face(x, 3), e) {
                            lemma_one_face_with_edge(x, e, tet_face(x, 3), t);
                        }
                    }
                }
            },
            None => {},
        }
    }

    // `purge_tri` on a canonical triple.
    pub(crate) fn purge_tri_key(&mut self, t: (u32, u32, u32), keep: Option<(u32, u32)>) -> (r:
        Option<F>)
        requires
            old(self).wf(),
            MWB,
        ensures
            final(self).wf(),
            final(self)@ == old(self)@.purge_tri(t, keep),
            r == old(self)@.tris.get(t),
            final(self)@.vertices == old(self)@.vertices,
            final(self)@.next_id == old(self)@.next_id,
            !final(self)@.tris.contains_key(t),
            forall|g: TriKey| #[trigger]
                final(self)@.tris.contains_key(g) ==> old(self)@.tris.contains_key(g)
                    && final(self)@.tris[g] == old(self)@.tris[g],
            forall|e: EdgeKey| #[trigger]
                final(self)@.edges.contains_key(e) ==> old(self)@.edges.contains_key(e)
                    && final(self)@.edges[e] == old(self)@.edges[e],
            forall|e: EdgeKey|
                keep == Some(e) && old(self)@.edges.contains_key(e) && tri_has_edge(t, e)
                    ==> #[trigger] final(self)@.edges.contains_key(e),
            forall|x: TetKey| #[trigger]
                final(self)@.tets.contains_key(x) ==> old(self)@.tets.contains_key(x)
                    && final(self)@.tets[x] == old(self)@.tets[x],
            forall|x: TetKey|
                old(self)@.tets.contains_key(x) && !tet_has_face(x, t) ==> #[trigger] final(self)@.tets.contains_key(x),
    {
        if !self.has_tri(t) {
            return None;
        }
        self.free_tri(t);
        let ghost v0 = self@;
        let r = self.unlink_tri(t);
        let ghost v1 = self@;
        self.prune_own_edges(t, keep);
        proof {
            assert forall|g: TriKey| #[trigger] self@.tris.contains_key(g) implies old(self)@.tris.contains_key(g)
                && self@.tris[g] == old(self)@.tris[g] by {
                assert(v1.tris.contains_key(g));
                assert(v0.tris.contains_key(g));
            }
            assert forall|e: EdgeKey| #[trigger] self@.edges.contains_key(e) implies old(self)@.edges.contains_key(e) && self@.edges[e] == old(self)@.edges[e] by {
                assert(v1.edges.contains_key(e));
                assert(v0.edges.contains_key(e));
            }
            assert forall|e: EdgeKey|
                keep == Some(e) && old(self)@.edges.contains_key(e) && tri_has_edge(
                    t,
                    e,
                ) implies #[trigger] self@.edges.contains_key(e) by {
                assert(v0.edges.contains_key(e));
                assert(v1.edges.contains_key(e));
            }
        }
        Some(r)
    }

    /// Removes the triangle `tri` and returns its payload, if it is there,
    /// and with it what the removal leaves alone.
    ///
    /// In a mesh where a face may belong to many tetrahedra, every
    /// tetrahedron on the triangle goes first, and those of the triangle's
    /// edges that are left on no triangle go with it. In a mesh where no face
    /// belongs to two tetrahedra, the other faces of the tetrahedron on the
    /// triangle go too where no tetrahedron holds them, and their edges
    /// where no triangle holds them.
    pub fn remove_tri_pruning(&mut self, tri: TriId) -> (r: Option<F>)
        requires
            old(self).wf(),
            tri.valid(),
        ensures
            final(self).wf(),
            r == old(self)@.tris.get(tri.key()),
            MWB ==> final(self)@ == old(self)@.purge_tri(tri.key(), None),
            !MWB && !old(self)@.tris.contains_key(tri.key()) ==> final(self)@ == old(self)@,
            !MWB && old(self)@.tris.contains_key(tri.key()) ==> old(self)@.tri_gone_pruned(
                final(self)@,
                tri.key(),
            ),
    {
        let t = canon3(tri.0[0].0, tri.0[1].0, tri.0[2].0);
        if MWB {
            self.purge_tri_key(t, None)
        } else {
            self.drop_tri_pruning(t)
        }
    }

    // `purge_edge` on the edge from `a` to `b`.
    pub(crate) fn purge_edge_key(&mut self, a: u32, b: u32) -> (r: Option<E>)
        requires
            old(self).wf(),
            MWB,
        ensures
            final(self).wf(),
            final(self)@ == old(self)@.purge_edge((a, b)),
            r == old(self)@.edges.get((a, b)),
            final(self)@.vertices == old(self)@.vertices,
            final(self)@.next_id == old(self)@.next_id,
            forall|x: TetKey| #[trigger]
                final(self)@.tets.contains_key(x) ==> old(self)@.tets.contains_key(x)
                    && final(self)@.tets[x] == old(self)@.tets[x],
            forall|x: TetKey|
                old(self)@.tets.contains_key(x) && !tet_has_edge(x, (a, b)) ==> #[trigger] final(self)@.tets.contains_key(x),
            forall|g: TriKey| #[trigger]
                final(self)@.tris.contains_key(g) ==> old(self)@.tris.contains_key(g)
                    && final(self)@.tris[g] == old(self)@.tris[g],
            forall|y: EdgeKey| #[trigger]
                final(self)@.edges.contains_key(y) ==> old(self)@.edges.contains_key(y)
                    && final(self)@.edges[y] == old(self)@.edges[y],
    {
        if !self.has_edge(a, b) {
            return None;
        }
        let opps = self.tri_ring(a, b);
        let mut i: usize = 0;
        proof {
            assert(opps@.subrange(0, opps.len() as int) =~= opps@);
        }
        while i < opps.len()
            invariant
                0 <= i <= opps.len(),
                MWB,
                self.wf(),
                opps@ == old(self)@.tri_opps[(a, b)],
                self@ == old(self)@.purge_around(a, b, opps@, i as nat),
                self@.edges.contains_key((a, b)),
                self@.edges[(a, b)] == old(self)@.edges[(a, b)],
                self@.vertices == old(self)@.vertices,
                self@.next_id == old(self)@.next_id,
                forall|x: TetKey| #[trigger]
                    self@.tets.contains_key(x) ==> old(self)@.tets.contains_key(x)
                        && self@.tets[x] == old(self)@.tets[x],
                forall|x: TetKey|
                    old(self)@.tets.contains_key(x) && !tet_has_edge(x, (a, b)) ==> #[trigger] self@.tets.contains_key(x),
                forall|g: TriKey| #[trigger]
                    self@.tris.contains_key(g) ==> old(self)@.tris.contains_key(g)
                        && self@.tris[g] == old(self)@.tris[g],
                forall|y: EdgeKey| #[trigger]
                    self@.edges.contains_key(y) ==> old(self)@.edges.contains_key(y)
                        && self@.edges[y] == old(self)@.edges[y],
                forall|c: u32| #[trigger]
                    self@.tri_opps[(a, b)].contains(c) ==> opps@.subrange(
                        i as int,
                        opps.len() as int,
                    ).contains(c),
            decreases opps.len() - i,
        {
            let c: u32 = opps[i];
            let t = canon3(a, b, c);
            let ghost before = self@;
            let ghost rest = opps@.subrange(i as int, opps.len() as int);
            self.purge_tri_key(t, Some((a, b)));
            proof {
                assert(rest[0] == c);
                let rest2 = opps@.subrange(i + 1, opps.len() as int);
                if before.tris.contains_key(t) {
                    lemma_canon_tri(a, b, c);
                    assert(is_canon_tri(t));
                    crate::simplex::lemma_canon_tri_same(t.0, t.1, t.2, a, b, c);
                    assert(tri_has_edge(t, (a, b)));
                }
                assert(self@.edges.contains_key((a, b)));
                assert forall|g: TriKey| #[trigger] self@.tris.contains_key(g) implies old(self)@.tris.contains_key(g) && self@.tris[g] == old(self)@.tris[g] by {
                    assert(before.tris.contains_key(g));
                }
                assert forall|y: EdgeKey| #[trigger] self@.edges.contains_key(y) implies old(self)@.edges.contains_key(y) && self@.edges[y] == old(self)@.edges[y] by {
                    assert(before.edges.contains_key(y));
                }
                assert forall|x: TetKey|
                    old(self)@.tets.contains_key(x) && !tet_has_edge(
                        x,
                        (a, b),
                    ) implies #[trigger] self@.tets.contains_key(x) by {
                    assert(before.tets.contains_key(x));
                    if before.tris.contains_key(t) && tet_has_face(x, t) {
                        lemma_face_edge(x, t, (a, b));
                    }
                }
                assert forall|c2: u32| #[trigger]
                    self@.tri_opps[(a, b)].contains(c2) implies rest2.contains(c2) by {
                    assert(self@.tris.contains_key(canon_tri(a, b, c2)));
                    assert(before.tris.contains_key(canon_tri(a, b, c2)));
                    assert(before.tri_opps[(a, b)].contains(c2));
                    assert(rest.contains(c2));
                    let j = choose|j: int| 0 <= j < rest.len() && rest[j] == c2;
                    if j == 0 {
                        assert(c2 == c);
                        assert(!self@.tris.contains_key(t));
                    } else {
                        assert(rest2[j - 1] == c2);
                    }
                }
            }
            i = i + 1;
        }
        proof {
            let ring = self@.tri_opps[(a, b)];
            if ring.len() > 0 {
                assert(ring.contains(ring[0]));
                let e = opps@.subrange(i as int, opps.len() as int);
                assert(e.len() == 0);
            }
        }
        let ghost last = self@;
        let r = self.unlink_edge(a, b);
        proof {
            assert forall|y: EdgeKey| #[trigger] self@.edges.contains_key(y) implies old(self)@.edges.contains_key(y) && self@.edges[y] == old(self)@.edges[y] by {
                assert(last.edges.contains_key(y));
            }
        }
        Some(r)
    }

    /// Removes the edge `e` and returns its payload, if it is there, and
    /// with it what the removal leaves alone.
    ///
    /// In a mesh where a face may belong to many tetrahedra this is
    /// `remove_edge`. In a mesh where no face belongs to two tetrahedra, each
    /// triangle on the edge goes as `remove_tri_pruning` has it, in ring
    /// order, and then the edge.
    pub fn remove_edge_pruning(&mut self, e: EdgeId) -> (r: Option<E>)
        requires
            old(self).wf(),
        ensures
            final(self).wf(),
            r == old(self)@.edges.get(e@),
            MWB ==> final(self)@ == old(self)@.purge_edge(e@),
            !MWB && old(self)@.edges.contains_key(e@) ==> old(self)@.edge_gone(final(self)@, e@),
            !MWB && !old(self)@.edges.contains_key(e@) ==> final(self)@ == old(self)@,
    {
        if MWB {
            self.purge_edge_key(e.0[0].0, e.0[1].0)
        } else {
            self.remove_edge(e)
        }
    }

    /// Removes the vertex `v` and returns its payload, if it is there, and
    /// with it what the removal leaves alone.
    ///
    /// In a mesh where a face may belong to many tetrahedra this is
    /// `remove_vertex`. In a mesh where no face belongs to two tetrahedra,
    /// each edge that leaves the vertex goes as `remove_edge_pruning` has
    /// it, in ring order, then each edge that reaches it, and then the
    /// vertex.
    pub fn remove_vertex_pruning(&mut self, v: VertexId) -> (r: Option<V>)
        requires
            old(self).wf(),
        ensures
            final(self).wf(),
            r == old(self)@.vertices.get(v.0),
            final(self)@.vertices == old(self)@.vertices.remove(v.0),
            final(self)@.next_id == old(self)@.next_id,
            !old(self)@.vertices.contains_key(v.0) ==> final(self)@ == old(self)@,
            !MWB && old(self)@.vertices.contains_key(v.0) ==> old(self)@.vertex_gone(
                final(self)@,
                v.0,
            ),
            MWB && old(self)@.vertices.contains_key(v.0) ==> old(self)@.vertex_purged(
                final(self)@,
                v.0,
            ),
            final(self)@.tets =~= old(self)@.tets.filter_keys(|x: TetKey| !tet_has_vertex(x, v.0)),
            forall|g: TriKey| #[trigger]
                final(self)@.tris.contains_key(g) ==> old(self)@.tris.contains_key(g)
                    && final(self)@.tris[g] == old(self)@.tris[g],
            forall|y: EdgeKey| #[trigger]
                final(self)@.edges.contains_key(y) ==> old(self)@.edges.contains_key(y)
                    && final(self)@.edges[y] == old(self)@.edges[y],
    {
        if !MWB || !self.has_vertex(v.0) {
            let r = self.remove_vertex(v);
            proof {
                assert(self@.vertices =~= old(self)@.vertices.remove(v.0));
                if !old(self)@.vertices.contains_key(v.0) {
                    assert forall|x: TetKey| old(self)@.tets.contains_key(x) implies !tet_has_vertex(
                        x,
                        v.0,
                    ) by {
                        old(self)@.lemma_tet_vertices(x, MWB);
                    }
                }
            }
            return r;
        }
        let outs = self.out_ring(v.0);
        let mut i: usize = 0;
        while i < outs.len()
            invariant
                0 <= i <= outs.len(),
                MWB,
                self.wf(),
                self@ == old(self)@.purge_out(v.0, outs@, i as nat),
                self@.vertices == old(self)@.vertices,
                self@.next_id == old(self)@.next_id,
                forall|x: TetKey| #[trigger]
                    self@.tets.contains_key(x) ==> old(self)@.tets.contains_key(x)
                        && self@.tets[x] == old(self)@.tets[x],
                forall|x: TetKey|
                    old(self)@.tets.contains_key(x) && !tet_has_vertex(x, v.0) ==> #[trigger] self@.tets.contains_key(x),
                forall|g: TriKey| #[trigger]
                    self@.tris.contains_key(g) ==> old(self)@.tris.contains_key(g)
                        && self@.tris[g] == old(self)@.tris[g],
                forall|y: EdgeKey| #[trigger]
                    self@.edges.contains_key(y) ==> old(self)@.edges.contains_key(y)
                        && self@.edges[y] == old(self)@.edges[y],
            decreases outs.len() - i,
        {
            let ghost before = self@;
            self.purge_edge_key(v.0, outs[i]);
            proof {
                assert forall|x: TetKey|
                    old(self)@.tets.contains_key(x) && !tet_has_vertex(
                        x,
                        v.0,
                    ) implies #[trigger] self@.tets.contains_key(x) by {
                    assert(before.tets.contains_key(x));
                }
                assert forall|g: TriKey| #[trigger] self@.tris.contains_key(g) implies old(self)@.tris.contains_key(g) && self@.tris[g] == old(self)@.tris[g] by {
                    assert(before.tris.contains_key(g));
                }
                assert forall|y: EdgeKey| #[trigger] self@.edges.contains_key(y) implies old(self)@.edges.contains_key(y) && self@.edges[y] == old(self)@.edges[y] by {
                    assert(before.edges.contains_key(y));
                }
            }
            i = i + 1;
        }
        let ghost mid = self@;
        let ins = self.in_ring(v.0);
        let mut j: usize = 0;
        while j < ins.len()
            invariant
                0 <= j <= ins.len(),
                MWB,
                self.wf(),
                self@ == mid.purge_in(v.0, ins@, j as nat),
                self@.vertices == old(self)@.vertices,
                self@.next_id == old(self)@.next_id,
                forall|x: TetKey| #[trigger]
                    self@.tets.contains_key(x) ==> old(self)@.tets.contains_key(x)
                        && self@.tets[x] == old(self)@.tets[x],
                forall|x: TetKey|
                    old(self)@.tets.contains_key(x) && !tet_has_vertex(x, v.0) ==> #[trigger] self@.tets.contains_key(x),
                forall|g: TriKey| #[trigger]
                    self@.tris.contains_key(g) ==> old(self)@.tris.contains_key(g)
                        && self@.tris[g] == old(self)@.tris[g],
                forall|y: EdgeKey| #[trigger]
                    self@.edges.contains_key(y) ==> old(self)@.edges.contains_key(y)
                        && self@.edges[y] == old(self)@.edges[y],
            decreases ins.len() - j,
        {
            let ghost before = self@;
            self.purge_edge_key(ins[j], v.0);
            proof {
                assert forall|x: TetKey|
                    old(self)@.tets.contains_key(x) && !tet_has_vertex(
                        x,
                        v.0,
                    ) implies #[trigger] self@.tets.contains_key(x) by {
                    assert(before.tets.contains_key(x));
                }
                assert forall|g: TriKey| #[trigger] self@.tris.contains_key(g) implies old(self)@.tris.contains_key(g) && self@.tris[g] == old(self)@.tris[g] by {
                    assert(before.tris.contains_key(g));
                }
                assert forall|y: EdgeKey| #[trigger] self@.edges.contains_key(y) implies old(self)@.edges.contains_key(y) && self@.edges[y] == old(self)@.edges[y] by {
                    assert(before.edges.contains_key(y));
                }
            }
            j = j + 1;
        }
        let ghost last = self@;
        let r = self.remove_vertex(v);
        proof {
            assert(last.vertex_gone(self@, v.0));
            assert forall|g: TriKey| #[trigger] self@.tris.contains_key(g) implies old(self)@.tris.contains_key(g) && self@.tris[g] == old(self)@.tris[g] by {
                assert(last.tris.contains_key(g));
            }
            assert forall|y: EdgeKey| #[trigger] self@.edges.contains_key(y) implies old(self)@.edges.contains_key(y) && self@.edges[y] == old(self)@.edges[y] by {
                assert(last.edges.contains_key(y));
            }
        }
        r
    }

    // Removes the tetrahedron on the canonical triangle `f`, if there is
    // one, as `prune_tet` has it.
    fn kill(&mut self, f: (u32, u32, u32))
        requires
            old(self).wf(),
            MWB,
        ensures
            final(self).wf(),
            final(self)@ == old(self)@.kill(f),
            final(self)@.vertices == old(self)@.vertices,
            final(self)@.next_id == old(self)@.next_id,
            forall|x: TetKey| #[trigger]
                final(self)@.tets.contains_key(x) ==> old(self)@.tets.contains_key(x)
                    && final(self)@.tets[x] == old(self)@.tets[x],
            forall|x: TetKey|
                old(self)@.tets.contains_key(x) && !tet_has_face(x, f) ==> #[trigger] final(self)@.tets.contains_key(x),
            forall|x: TetKey| #[trigger] final(self)@.tets.contains_key(x) ==> !tet_has_face(x, f),
            forall|g: TriKey| #[trigger]
                final(self)@.tris.contains_key(g) ==> old(self)@.tris.contains_key(g)
                    && final(self)@.tris[g] == old(self)@.tris[g],
            forall|x: EdgeKey| #[trigger]
                final(self)@.edges.contains_key(x) ==> old(self)@.edges.contains_key(x)
                    && final(self)@.edges[x] == old(self)@.edges[x],
    {
        if self.has_tri(f) {
            match self.tri_hint(f) {
                Some(d) => {
                    let ghost ring = self@.tet_opps[f];
                    proof {
                        assert(ring.contains(ring[0]));
                        self@.lemma_tet_ring_base(f, d, MWB);
                    }
                    let x = canon4(f.0, f.1, f.2, d);
                    proof {
                        lemma_tet_by_face(x, f, d);
                    }
                    self.prune_tet_key(x);
                    proof {
                        let v0 = old(self)@;
                        assert forall|y: TetKey| #[trigger]
                            self@.tets.contains_key(y) implies !tet_has_face(y, f) by {
                            if tet_has_face(y, f) {
                                assert(v0.tets.contains_key(y));
                                assert(v0.tets.contains_key(x));
                                assert(collides(y, x)) by {
                                    lemma_face_gives_tet(x, 0);
                                    lemma_face_gives_tet(x, 1);
                                    lemma_face_gives_tet(x, 2);
                                    lemma_face_gives_tet(x, 3);
                                }
                                v0.lemma_exclusive(y, x);
                            }
                        }
                    }
                },
                None => {
                    proof {
                        self.lemma_no_tet_on(f);
                    }
                },
            }
        } else {
            proof {
                assert forall|y: TetKey| #[trigger] self@.tets.contains_key(y) implies !tet_has_face(
                    y,
                    f,
                ) by {
                    if tet_has_face(y, f) {
                        assert(self@.tris.contains_key(tet_face(y, 0)));
                        assert(self@.tris.contains_key(tet_face(y, 1)));
                        assert(self@.tris.contains_key(tet_face(y, 2)));
                        assert(self@.tris.contains_key(tet_face(y, 3)));
                    }
                }
            }
        }
    }

    // Where the ring around a triangle is empty, no tetrahedron has the
    // triangle as a face.
    proof fn lemma_no_tet_on(&self, f: TriKey)
        requires
            self.wf(),
            self@.tet_opps[f].len() == 0,
        ensures
            forall|y: TetKey| #[trigger] self@.tets.contains_key(y) ==> !tet_has_face(y, f),
    {
        assert forall|y: TetKey| #[trigger] self@.tets.contains_key(y) implies !tet_has_face(
            y,
            f,
        ) by {
            if tet_has_face(y, f) {
                let i: int = if f == tet_face(y, 0) {
                    0
                } else if f == tet_face(y, 1) {
                    1
                } else if f == tet_face(y, 2) {
                    2
                } else {
                    3
                };
                lemma_face_gives_tet(y, i);
                assert(self@.tets.contains_key(canon_tet(f.0, f.1, f.2, tet_vertex(y, i))));
                assert(self@.tet_opps[f].contains(tet_vertex(y, i)));
            }
        }
    }

    // `add_tet_pruning` on a canonical quadruple.
    pub(crate) fn put_tet_pruning<D: Fn() -> E, G: Fn() -> F>(
        &mut self,
        t: (u32, u32, u32, u32),
        value: T,
        default_edge: &D,
        default_tri: &G,
    ) -> (r: Option<T>)
        requires
            old(self).wf(),
            is_canon_tet(t),
            old(self)@.vertices.contains_key(t.0),
            old(self)@.vertices.contains_key(t.1),
            old(self)@.vertices.contains_key(t.2),
            old(self)@.vertices.contains_key(t.3),
            call_requires(*default_edge, ()),
            call_requires(*default_tri, ()),
        ensures
            final(self).wf(),
            r == old(self)@.tets.get(t),
            final(self)@.tets == old(self)@.tets_put(t, value, MWB),
            final(self)@.vertices == old(self)@.vertices,
            final(self)@.next_id == old(self)@.next_id,
            old(self)@.tet_put_pruned(final(self)@, t, value, MWB),
            forall|e: EdgeKey| #[trigger]
                final(self)@.edges.contains_key(e) ==> (old(self)@.edges.contains_key(e)
                    && final(self)@.edges[e] == old(self)@.edges[e]) || call_ensures(
                    *default_edge,
                    (),
                    final(self)@.edges[e],
                ),
            forall|g: TriKey| #[trigger]
                final(self)@.tris.contains_key(g) ==> (old(self)@.tris.contains_key(g)
                    && final(self)@.tris[g] == old(self)@.tris[g]) || call_ensures(
                    *default_tri,
                    (),
                    final(self)@.tris[g],
                ),
    {
        if !MWB || self.has_tet(t) {
            let r = self.put_tet(t, value, default_edge, default_tri);
            proof {
                assert forall|e: EdgeKey| #[trigger] self@.edges.contains_key(e) implies (old(self)@.edges.contains_key(e) && self@.edges[e] == old(self)@.edges[e]) || call_ensures(
                    *default_edge,
                    (),
                    self@.edges[e],
                ) by {
                    if old(self)@.edges.contains_key(e) {
                    }
                }
                assert forall|g: TriKey| #[trigger] self@.tris.contains_key(g) implies (old(self)@.tris.contains_key(g) && self@.tris[g] == old(self)@.tris[g]) || call_ensures(
                    *default_tri,
                    (),
                    self@.tris[g],
                ) by {
                    if old(self)@.tris.contains_key(g) {
                    }
                }
            }
            return r;
        }
        self.kill(face(t, 0));
        let ghost v1 = self@;
        self.kill(face(t, 1));
        let ghost v2 = self@;
        self.kill(face(t, 2));
        let ghost v3 = self@;
        self.kill(face(t, 3));
        let ghost v4 = self@;
        let r = self.put_tet(t, value, default_edge, default_tri);
        proof {
            let v0 = old(self)@;
            let keep = |x: TetKey| !collides(x, t);
            assert forall|x: TetKey| v4.tets.contains_key(x) implies keep(x) by {
                assert(v3.tets.contains_key(x));
                assert(v2.tets.contains_key(x));
                assert(v1.tets.contains_key(x));
            }
            assert forall|x: TetKey| v0.tets.contains_key(x) && keep(x) implies v4.tets.contains_key(
                x,
            ) by {
                assert(v1.tets.contains_key(x));
                assert(v2.tets.contains_key(x));
                assert(v3.tets.contains_key(x));
            }
            assert forall|x: TetKey| v4.tets.contains_key(x) implies v0.tets.contains_key(x)
                && v4.tets[x] == v0.tets[x] by {
                assert(v3.tets.contains_key(x));
                assert(v2.tets.contains_key(x));
                assert(v1.tets.contains_key(x));
            }
            assert(v4.tets =~= v0.tets.filter_keys(keep));
            assert(v4.tets.filter_keys(keep) =~= v4.tets);
            assert(self@.tets =~= v0.tets_put(t, value, MWB));
            assert forall|e: EdgeKey| #[trigger] self@.edges.contains_key(e) implies (
            v0.edges.contains_key(e) && self@.edges[e] == v0.edges[e]) || call_ensures(
                *default_edge,
                (),
                self@.edges[e],
            ) by {
                if v4.edges.contains_key(e) {
                    assert(v3.edges.contains_key(e));
                    assert(v2.edges.contains_key(e));
                    assert(v1.edges.contains_key(e));
                }
            }
            assert forall|g: TriKey| #[trigger] self@.tris.contains_key(g) implies (
            v0.tris.contains_key(g) && self@.tris[g] == v0.tris[g]) || call_ensures(
                *default_tri,
                (),
                self@.tris[g],
            ) by {
                if v4.tris.contains_key(g) {
                    assert(v3.tris.contains_key(g));
                    assert(v2.tris.contains_key(g));
                    assert(v1.tris.contains_key(g));
                }
            }
        }
        r
    }

    /// Adds the tetrahedron `tet` as `add_tet` does; in a mesh where no face
    /// belongs to two tetrahedra, the tetrahedra that have a face of the new
    /// one go as `remove_tet_pruning` has it, before the new one and its
    /// faces are added.
    pub fn add_tet_pruning<D: Fn() -> E, G: Fn() -> F>(
        &mut self,
        tet: TetId,
        value: T,
        default_edge: D,
        default_tri: G,
    ) -> (r: Option<T>)
        requires
            old(self).wf(),
            tet.valid(),
            old(self)@.vertices.contains_key(tet@.0),
            old(self)@.vertices.contains_key(tet@.1),
            old(self)@.vertices.contains_key(tet@.2),
            old(self)@.vertices.contains_key(tet@.3),
            call_requires(default_edge, ()),
            call_requires(default_tri, ()),
        ensures
            final(self).wf(),
            r == old(self)@.tets.get(tet.key()),
            final(self)@.tets == old(self)@.tets_put(tet.key(), value, MWB),
            final(self)@.vertices == old(self)@.vertices,
            final(self)@.next_id == old(self)@.next_id,
            old(self)@.tet_put_pruned(final(self)@, tet.key(), value, MWB),
            forall|e: EdgeKey| #[trigger]
                final(self)@.edges.contains_key(e) ==> (old(self)@.edges.contains_key(e)
                    && final(self)@.edges[e] == old(self)@.edges[e]) || call_ensures(
                    default_edge,
                    (),
                    final(self)@.edges[e],
                ),
            forall|g: TriKey| #[trigger]
                final(self)@.tris.contains_key(g) ==> (old(self)@.tris.contains_key(g)
                    && final(self)@.tris[g] == old(self)@.tris[g]) || call_ensures(
                    default_tri,
                    (),
                    final(self)@.tris[g],
                ),
    {
        proof {
            lemma_canon_tet(tet@.0, tet@.1, tet@.2, tet@.3);
        }
        let t = canon4(tet.0[0].0, tet.0[1].0, tet.0[2].0, tet.0[3].0);
        self.put_tet_pruning(t, value, &default_edge, &default_tri)
    }

    /// Adds the tetrahedra with their payloads, in order, as
    /// `add_tet_pruning` does.
    pub fn extend_tets_pruning<D: Fn() -> E, G: Fn() -> F>(
        &mut self,
        items: Vec<(TetId, T)>,
        default_edge: D,
        default_tri: G,
    )
        requires
            old(self).wf(),
            call_requires(default_edge, ()),
            call_requires(default_tri, ()),
            forall|i: int|
                0 <= i < items.len() ==> (#[trigger] items[i]).0.valid()
                    && old(self)@.vertices.contains_key(items[i].0@.0)
                    && old(self)@.vertices.contains_key(items[i].0@.1)
                    && old(self)@.vertices.contains_key(items[i].0@.2)
                    && old(self)@.vertices.contains_key(items[i].0@.3),
        ensures
            final(self).wf(),
            crate::bulk::tets_added_pruned(
                old(self)@,
                final(self)@,
                items@,
                items.len() as nat,
                MWB,
            ),
            final(self)@.tets == crate::bulk::tets_after(
                old(self)@.tets,
                items@,
                items.len() as nat,
                MWB,
            ),
            final(self)@.vertices == old(self)@.vertices,
            final(self)@.next_id == old(self)@.next_id,
            forall|e: EdgeKey| #[trigger]
                final(self)@.edges.contains_key(e) ==> (old(self)@.edges.contains_key(e)
                    && final(self)@.edges[e] == old(self)@.edges[e]) || call_ensures(
                    default_edge,
                    (),
                    final(self)@.edges[e],
                ),
            forall|g: TriKey| #[trigger]
                final(self)@.tris.contains_key(g) ==> (old(self)@.tris.contains_key(g)
                    && final(self)@.tris[g] == old(self)@.tris[g]) || call_ensures(
                    default_tri,
                    (),
                    final(self)@.tris[g],
                ),
    {
        let ghost all = items@;
        proof {
            crate::bulk::lemma_tets_added_pruned_none(self@, all, MWB);
        }
        for item in it: items
            invariant
                it.seq() == all,
                self.wf(),
                call_requires(default_edge, ()),
                call_requires(default_tri, ()),
                forall|i: int|
                    0 <= i < all.len() ==> (#[trigger] all[i]).0.valid()
                        && old(self)@.vertices.contains_key(all[i].0@.0)
                        && old(self)@.vertices.contains_key(all[i].0@.1)
                        && old(self)@.vertices.contains_key(all[i].0@.2)
                        && old(self)@.vertices.contains_key(all[i].0@.3),
                crate::bulk::tets_added_pruned(old(self)@, self@, all, it.index() as nat, MWB),
                self@.tets == crate::bulk::tets_after(
                    old(self)@.tets,
                    all,
                    it.index() as nat,
                    MWB,
                ),
                self@.vertices == old(self)@.vertices,
                self@.next_id == old(self)@.next_id,
                forall|e: EdgeKey| #[trigger]
                    self@.edges.contains_key(e) ==> (old(self)@.edges.contains_key(e)
                        && self@.edges[e] == old(self)@.edges[e]) || call_ensures(
                        default_edge,
                        (),
                        self@.edges[e],
                    ),
                forall|g: TriKey| #[trigger]
                    self@.tris.contains_key(g) ==> (old(self)@.tris.contains_key(g)
                        && self@.tris[g] == old(self)@.tris[g]) || call_ensures(
                        default_tri,
                        (),
                        self@.tris[g],
                    ),
        {
            let (tet, value) = item;
            let ghost before = self@;
            let ghost n = it.index() as nat;
            proof {
                lemma_canon_tet(tet@.0, tet@.1, tet@.2, tet@.3);
            }
            let t = canon4(tet.0[0].0, tet.0[1].0, tet.0[2].0, tet.0[3].0);
            self.put_tet_pruning(t, value, &default_edge, &default_tri);
            proof {
                assert(all[n as int].0.key() == t);
                crate::bulk::lemma_tets_added_pruned(old(self)@, before, self@, all, n, MWB);
                assert forall|e: EdgeKey| #[trigger] self@.edges.contains_key(e) implies (old(self)@.edges.contains_key(e) && self@.edges[e] == old(self)@.edges[e]) || call_ensures(
                    default_edge,
                    (),
                    self@.edges[e],
                ) by {
                    if before.edges.contains_key(e) {
                    }
                }
                assert forall|g: TriKey| #[trigger] self@.tris.contains_key(g) implies (old(self)@.tris.contains_key(g) && self@.tris[g] == old(self)@.tris[g]) || call_ensures(
                    default_tri,
                    (),
                    self@.tris[g],
                ) by {
                    if before.tris.contains_key(g) {
                    }
                }
            }
        }
    }
}

// Whether `e` is the edge to keep.
fn same_edge(keep: Option<(u32, u32)>, e: (u32, u32)) -> (r: bool)
    ensures
        r == (keep == Some(e)),
{
    match keep {
        Some(k) => k.0 == e.0 && k.1 == e.1,
        None => false,
    }
}

} // verus!
