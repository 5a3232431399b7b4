//! The mathematical model of a mesh: four maps of simplices to payloads and
//! four families of rings, with the invariants that tie them together and
//! the elementary changes that keep the invariants.

use vstd::prelude::*;
use crate::ring::{
    added, dropped, keeps_order, lemma_added, lemma_dropped, lemma_dropped_keeps_order,
    lemma_keeps_order_chain, lemma_keeps_order_same,
};
use crate::simplex::{
    EdgeKey, TriKey, TetKey, canon_tri, canon_tet, is_canon_tri, is_canon_tet, tet_face,
    tet_vertex, tri_has_vertex, tri_has_edge, tet_has_vertex, tet_has_face, tet_has_edge, collides,
    lemma_face_gives_tet, lemma_tet_by_face, lemma_canon_tri,
};

verus! {

/// What a mesh holds.
///
/// Triangles and tetrahedra are kept under their canonical forms. The rings
/// are total maps: a base without incident simplices has the empty ring.
pub struct MeshView<V, E, F, T> {
    /// Payload of each vertex.
    pub vertices: Map<u32, V>,
    /// Payload of each directed edge.
    pub edges: Map<EdgeKey, E>,
    /// Payload of each oriented triangle.
    pub tris: Map<TriKey, F>,
    /// Payload of each oriented tetrahedron.
    pub tets: Map<TetKey, T>,
    /// For each vertex, the targets of its outgoing edges, in ring order.
    pub targets: Map<u32, Seq<u32>>,
    /// For each vertex, the sources of its incoming edges, in ring order.
    pub sources: Map<u32, Seq<u32>>,
    /// For each directed edge, the vertices that complete it to a triangle,
    /// in ring order.
    pub tri_opps: Map<EdgeKey, Seq<u32>>,
    /// For each canonical triangle, the vertices that complete it to a
    /// tetrahedron, in ring order.
    pub tet_opps: Map<TriKey, Seq<u32>>,
    /// The number that the next vertex gets.
    pub next_id: u32,
}

/// The tetrahedra after `add_tet` of the canonical tetrahedron `t`: where no
/// face may belong to two tetrahedra, those that have a face of `t` go.
pub open spec fn tets_with<T>(tets: Map<TetKey, T>, t: TetKey, value: T, mwb: bool) -> Map<
    TetKey,
    T,
> {
    if mwb {
        tets.filter_keys(|x: TetKey| !collides(x, t)).insert(t, value)
    } else {
        tets.insert(t, value)
    }
}

impl<V, E, F, T> MeshView<V, E, F, T> {
    /// The mesh that holds nothing and has handed out no vertex number.
    pub open spec fn empty() -> Self {
        MeshView {
            vertices: Map::empty(),
            edges: Map::empty(),
            tris: Map::empty(),
            tets: Map::empty(),
            targets: Map::total(|a: u32| Seq::<u32>::empty()),
            sources: Map::total(|b: u32| Seq::<u32>::empty()),
            tri_opps: Map::total(|e: EdgeKey| Seq::<u32>::empty()),
            tet_opps: Map::total(|f: TriKey| Seq::<u32>::empty()),
            next_id: 0,
        }
    }

    /// Vertex numbers were all handed out already.
    pub open spec fn vertices_ok(self) -> bool {
        forall|v: u32| #[trigger] self.vertices.contains_key(v) ==> v < self.next_id
    }

    /// Each edge joins two different vertices of the mesh.
    pub open spec fn edges_ok(self) -> bool {
        forall|e: EdgeKey| #[trigger]
            self.edges.contains_key(e) ==> e.0 != e.1 && self.vertices.contains_key(e.0)
                && self.vertices.contains_key(e.1)
    }

    /// Each triangle is canonical and has its three directed edges in the mesh.
    pub open spec fn tris_ok(self) -> bool {
        forall|t: TriKey| #[trigger]
            self.tris.contains_key(t) ==> is_canon_tri(t) && self.edges.contains_key((t.0, t.1))
                && self.edges.contains_key((t.1, t.2)) && self.edges.contains_key((t.2, t.0))
    }

    /// Each tetrahedron is canonical and has its four faces in the mesh.
    pub open spec fn tets_ok(self) -> bool {
        forall|t: TetKey| #[trigger]
            self.tets.contains_key(t) ==> is_canon_tet(t) && self.tris.contains_key(tet_face(t, 0))
                && self.tris.contains_key(tet_face(t, 1)) && self.tris.contains_key(tet_face(t, 2))
                && self.tris.contains_key(tet_face(t, 3))
    }

    /// The ring of targets of a vertex holds exactly the targets of its
    /// outgoing edges, each once.
    pub open spec fn targets_ok(self) -> bool {
        &&& forall|a: u32| #![trigger self.targets[a]] self.targets[a].no_duplicates()
        &&& forall|a: u32, b: u32|
            #![trigger self.targets[a].contains(b)]
            #![trigger self.edges.contains_key((a, b))]
            self.targets[a].contains(b) <==> self.edges.contains_key((a, b))
    }

    /// The ring of sources of a vertex holds exactly the sources of its
    /// incoming edges, each once.
    pub open spec fn sources_ok(self) -> bool {
        &&& forall|b: u32| #![trigger self.sources[b]] self.sources[b].no_duplicates()
        &&& forall|a: u32, b: u32|
            #![trigger self.sources[b].contains(a)]
            #![trigger self.edges.contains_key((a, b))]
            self.sources[b].contains(a) <==> self.edges.contains_key((a, b))
    }

    /// The ring around a directed edge holds exactly the vertices that
    /// complete it to a triangle of the mesh, each once.
    pub open spec fn tri_opps_ok(self) -> bool {
        &&& forall|e: EdgeKey| #![trigger self.tri_opps[e]] self.tri_opps[e].no_duplicates()
        &&& forall|a: u32, b: u32, c: u32|
            #![trigger self.tri_opps[(a, b)].contains(c)]
            #![trigger self.tris.contains_key(canon_tri(a, b, c))]
            self.tri_opps[(a, b)].contains(c) <==> self.tris.contains_key(canon_tri(a, b, c))
    }

    /// The ring around a canonical triangle holds exactly the vertices that
    /// complete it to a tetrahedron of the mesh, each once; other triples
    /// have no ring.
    pub open spec fn tet_opps_ok(self) -> bool {
        &&& forall|f: TriKey| #![trigger self.tet_opps[f]] self.tet_opps[f].no_duplicates()
        &&& forall|f: TriKey, d: u32|
            #![trigger self.tet_opps[f].contains(d)]
            #![trigger self.tets.contains_key(canon_tet(f.0, f.1, f.2, d))]
            self.tet_opps[f].contains(d) <==> is_canon_tri(f) && self.tets.contains_key(
                canon_tet(f.0, f.1, f.2, d),
            )
    }

    /// Every base has a ring, be it the empty one.
    pub open spec fn rings_total(self) -> bool {
        &&& forall|a: u32| #[trigger] self.targets.contains_key(a)
        &&& forall|b: u32| #[trigger] self.sources.contains_key(b)
        &&& forall|e: EdgeKey| #[trigger] self.tri_opps.contains_key(e)
        &&& forall|f: TriKey| #[trigger] self.tet_opps.contains_key(f)
    }

    /// No oriented triangle is a face of two tetrahedra.
    pub open spec fn exclusive(self) -> bool {
        forall|f: TriKey| #![trigger self.tet_opps[f]] self.tet_opps[f].len() <= 1
    }

    /// The invariants of a mesh; `mwb` asks in addition that no oriented
    /// triangle be a face of two tetrahedra.
    pub open spec fn wf(self, mwb: bool) -> bool {
        &&& self.vertices_ok()
        &&& self.edges_ok()
        &&& self.tris_ok()
        &&& self.tets_ok()
        &&& self.targets_ok()
        &&& self.sources_ok()
        &&& self.tri_opps_ok()
        &&& self.tet_opps_ok()
        &&& self.rings_total()
        &&& mwb ==> self.exclusive()
    }

    /// The mesh with one more vertex, which gets the next number.
    pub open spec fn add_vertex(self, value: V) -> Self {
        MeshView {
            vertices: self.vertices.insert(self.next_id, value),
            next_id: (self.next_id + 1) as u32,
            ..self
        }
    }

    /// The mesh with the new edge `e`, spliced into the ring of targets of
    /// its source and into the ring of sources of its target, right behind
    /// the first member of each.
    pub open spec fn add_edge(self, e: EdgeKey, value: E) -> Self {
        MeshView {
            edges: self.edges.insert(e, value),
            targets: self.targets.insert(e.0, added(self.targets[e.0], e.1, false)),
            sources: self.sources.insert(e.1, added(self.sources[e.1], e.0, false)),
            ..self
        }
    }

    /// The mesh with the new canonical triangle `t`, which becomes the first
    /// member of the rings around its three edges.
    pub open spec fn add_tri(self, t: TriKey, value: F) -> Self {
        MeshView {
            tris: self.tris.insert(t, value),
            tri_opps: self.tri_opps.insert((t.0, t.1), added(self.tri_opps[(t.0, t.1)], t.2, true)).insert(
                (t.1, t.2),
                added(self.tri_opps[(t.1, t.2)], t.0, true),
            ).insert((t.2, t.0), added(self.tri_opps[(t.2, t.0)], t.1, true)),
            ..self
        }
    }

    /// The mesh with the new canonical tetrahedron `t`, which becomes the
    /// first member of the rings around its four faces.
    pub open spec fn add_tet(self, t: TetKey, value: T) -> Self {
        MeshView {
            tets: self.tets.insert(t, value),
            tet_opps: self.tet_opps.insert(
                tet_face(t, 0),
                added(self.tet_opps[tet_face(t, 0)], t.0, true),
            ).insert(tet_face(t, 1), added(self.tet_opps[tet_face(t, 1)], t.1, true)).insert(
                tet_face(t, 2),
                added(self.tet_opps[tet_face(t, 2)], t.2, true),
            ).insert(tet_face(t, 3), added(self.tet_opps[tet_face(t, 3)], t.3, true)),
            ..self
        }
    }

    /// The mesh without the tetrahedron `t`, which leaves the rings around
    /// its four faces.
    pub open spec fn remove_tet(self, t: TetKey) -> Self {
        MeshView {
            tets: self.tets.remove(t),
            tet_opps: self.tet_opps.insert(
                tet_face(t, 0),
                dropped(self.tet_opps[tet_face(t, 0)], t.0),
            ).insert(tet_face(t, 1), dropped(self.tet_opps[tet_face(t, 1)], t.1)).insert(
                tet_face(t, 2),
                dropped(self.tet_opps[tet_face(t, 2)], t.2),
            ).insert(tet_face(t, 3), dropped(self.tet_opps[tet_face(t, 3)], t.3)),
            ..self
        }
    }

    /// The mesh without the triangle `t`, which leaves the rings around its
    /// three edges.
    pub open spec fn remove_tri(self, t: TriKey) -> Self {
        MeshView {
            tris: self.tris.remove(t),
            tri_opps: self.tri_opps.insert((t.0, t.1), dropped(self.tri_opps[(t.0, t.1)], t.2)).insert(
                (t.1, t.2),
                dropped(self.tri_opps[(t.1, t.2)], t.0),
            ).insert((t.2, t.0), dropped(self.tri_opps[(t.2, t.0)], t.1)),
            ..self
        }
    }

    /// The mesh without the edge `e`, which leaves the rings at its two ends.
    pub open spec fn remove_edge(self, e: EdgeKey) -> Self {
        MeshView {
            edges: self.edges.remove(e),
            targets: self.targets.insert(e.0, dropped(self.targets[e.0], e.1)),
            sources: self.sources.insert(e.1, dropped(self.sources[e.1], e.0)),
            ..self
        }
    }

    /// The mesh without the edge `e` where the edge is in the mesh and lies
    /// on no triangle; the mesh as it is else.
    pub open spec fn prune_edge(self, e: EdgeKey) -> Self {
        if self.edges.contains_key(e) && self.tri_opps[e].len() == 0 {
            self.remove_edge(e)
        } else {
            self
        }
    }

    /// The mesh without the canonical triangle `t`, and without those of its
    /// edges that are then on no triangle, where the triangle is in the
    /// mesh and is a face of no tetrahedron; the mesh as it is else.
    pub open spec fn prune_tri(self, t: TriKey) -> Self {
        if self.tris.contains_key(t) && self.tet_opps[t].len() == 0 {
            self.remove_tri(t).prune_edge((t.0, t.1)).prune_edge((t.1, t.2)).prune_edge(
                (t.2, t.0),
            )
        } else {
            self
        }
    }

    /// The mesh without the tetrahedron `t`, and without those of its faces
    /// and their edges that are then left alone.
    pub open spec fn prune_tet(self, t: TetKey) -> Self {
        self.remove_tet(t).prune_tri(tet_face(t, 0)).prune_tri(tet_face(t, 1)).prune_tri(
            tet_face(t, 2),
        ).prune_tri(tet_face(t, 3))
    }

    /// `prune_tri` of `f`, but for `f == keep`.
    pub open spec fn prune_tri_unless(self, f: TriKey, keep: TriKey) -> Self {
        if f == keep {
            self
        } else {
            self.prune_tri(f)
        }
    }

    /// `prune_edge` of `e`, but for the edge to keep.
    pub open spec fn prune_edge_unless(self, e: EdgeKey, keep: Option<EdgeKey>) -> Self {
        if keep == Some(e) {
            self
        } else {
            self.prune_edge(e)
        }
    }

    /// The mesh without the canonical triangle `t` and without what its
    /// removal leaves alone, in a mesh where no face belongs to two
    /// tetrahedra: the tetrahedron on `t` goes, with those of its other
    /// faces that have no tetrahedron then; then `t` goes, with those of
    /// its edges that lie on no triangle then. The edge to keep stays in any
    /// case.
    pub open spec fn purge_tri(self, t: TriKey, keep: Option<EdgeKey>) -> Self {
        if !self.tris.contains_key(t) {
            self
        } else {
            let w = if self.tet_opps[t].len() > 0 {
                let x = canon_tet(t.0, t.1, t.2, self.tet_opps[t][0]);
                self.remove_tet(x).prune_tri_unless(tet_face(x, 0), t).prune_tri_unless(
                    tet_face(x, 1),
                    t,
                ).prune_tri_unless(tet_face(x, 2), t).prune_tri_unless(tet_face(x, 3), t)
            } else {
                self
            };
            w.remove_tri(t).prune_edge_unless((t.0, t.1), keep).prune_edge_unless(
                (t.1, t.2),
                keep,
            ).prune_edge_unless((t.2, t.0), keep)
        }
    }

    /// The mesh after `purge_tri`, with the edge from `a` to `b` kept, of
    /// the triangles that the first `n` of the vertices `opps` make with
    /// that edge.
    pub open spec fn purge_around(self, a: u32, b: u32, opps: Seq<u32>, n: nat) -> Self
        decreases n,
    {
        if n == 0 {
            self
        } else {
            self.purge_around(a, b, opps, (n - 1) as nat).purge_tri(
                canon_tri(a, b, opps[n - 1]),
                Some((a, b)),
            )
        }
    }

    /// The mesh without the edge `e` and without what its removal leaves
    /// alone, in a mesh where no face belongs to two tetrahedra: the
    /// triangles around the edge go as `purge_tri` has it, in ring order,
    /// then the edge.
    pub open spec fn purge_edge(self, e: EdgeKey) -> Self {
        if !self.edges.contains_key(e) {
            self
        } else {
            self.purge_around(e.0, e.1, self.tri_opps[e], self.tri_opps[e].len()).remove_edge(e)
        }
    }

    /// The mesh after `purge_edge` of the edges from `v` to the first `n` of
    /// the vertices `targets`.
    pub open spec fn purge_out(self, v: u32, targets: Seq<u32>, n: nat) -> Self
        decreases n,
    {
        if n == 0 {
            self
        } else {
            self.purge_out(v, targets, (n - 1) as nat).purge_edge((v, targets[n - 1]))
        }
    }

    /// The mesh after `purge_edge` of the edges to `v` from the first `n` of
    /// the vertices `sources`.
    pub open spec fn purge_in(self, v: u32, sources: Seq<u32>, n: nat) -> Self
        decreases n,
    {
        if n == 0 {
            self
        } else {
            self.purge_in(v, sources, (n - 1) as nat).purge_edge((sources[n - 1], v))
        }
    }

    /// The mesh after `remove_tet_pruning` of the canonical tetrahedron `t`:
    /// `prune_tet` where the tetrahedron is there, the mesh as it is where
    /// it is not.
    pub open spec fn without_tet(self, t: TetKey) -> Self {
        if self.tets.contains_key(t) {
            self.prune_tet(t)
        } else {
            self
        }
    }

    /// The mesh after the tetrahedron on the canonical triangle `f` went, as
    /// `prune_tet` has it; the mesh as it is where there is none.
    pub open spec fn kill(self, f: TriKey) -> Self {
        if self.tris.contains_key(f) && self.tet_opps[f].len() > 0 {
            self.prune_tet(canon_tet(f.0, f.1, f.2, self.tet_opps[f][0]))
        } else {
            self
        }
    }

    /// Whether `post` is this mesh after the removal of the canonical
    /// triangle `t` that is in it, with the tetrahedra on it, and of those of
    /// its edges that lie on no triangle then; what stays in a ring keeps its
    /// order.
    pub open spec fn tri_gone_pruned(self, post: Self, t: TriKey) -> bool {
        let w = self.remove_tri(t).prune_edge((t.0, t.1)).prune_edge((t.1, t.2)).prune_edge(
            (t.2, t.0),
        );
        &&& post.tets =~= self.tets.filter_keys(|x: TetKey| !tet_has_face(x, t))
        &&& post.tris == w.tris
        &&& post.edges == w.edges
        &&& post.vertices == w.vertices
        &&& post.targets == w.targets
        &&& post.sources == w.sources
        &&& post.tri_opps == w.tri_opps
        &&& post.next_id == w.next_id
        &&& self.order_kept(post)
    }

    /// The mesh without the vertex `v`.
    pub open spec fn remove_vertex(self, v: u32) -> Self {
        MeshView { vertices: self.vertices.remove(v), ..self }
    }

    /// The mesh after `add_edge`: the payload of an edge that is there is
    /// replaced, an edge that is not is added.
    pub open spec fn put_edge(self, e: EdgeKey, value: E) -> Self {
        if self.edges.contains_key(e) {
            MeshView { edges: self.edges.insert(e, value), ..self }
        } else {
            self.add_edge(e, value)
        }
    }

    /// The ring of targets of `a` after the edge from `a` to `b` was added
    /// unless it was there.
    pub open spec fn targets_with(self, a: u32, b: u32) -> Seq<u32> {
        if self.edges.contains_key((a, b)) {
            self.targets[a]
        } else {
            added(self.targets[a], b, false)
        }
    }

    /// The ring of sources of `b` after the edge from `a` to `b` was added
    /// unless it was there.
    pub open spec fn sources_with(self, a: u32, b: u32) -> Seq<u32> {
        if self.edges.contains_key((a, b)) {
            self.sources[b]
        } else {
            added(self.sources[b], a, false)
        }
    }

    /// Whether `post` is this mesh after `add_tri` of the canonical triangle
    /// `t`: the triangle is there with its payload, with it its three edges,
    /// a triangle that was not there before leads the rings around them, and
    /// each edge that was not there before stands right behind the first in
    /// the rings at its ends.
    pub open spec fn tri_put(self, post: Self, t: TriKey, value: F) -> bool {
        &&& post.vertices == self.vertices
        &&& post.tets == self.tets
        &&& post.tet_opps == self.tet_opps
        &&& post.next_id == self.next_id
        &&& post.tris == self.tris.insert(t, value)
        &&& forall|e: EdgeKey| #[trigger]
            post.edges.contains_key(e) <==> self.edges.contains_key(e) || tri_has_edge(t, e)
        &&& forall|e: EdgeKey| #[trigger]
            self.edges.contains_key(e) ==> post.edges[e] == self.edges[e]
        &&& post.tri_opps == if self.tris.contains_key(t) {
            self.tri_opps
        } else {
            self.add_tri(t, value).tri_opps
        }
        &&& post.targets == self.targets.insert(t.0, self.targets_with(t.0, t.1)).insert(
            t.1,
            self.targets_with(t.1, t.2),
        ).insert(t.2, self.targets_with(t.2, t.0))
        &&& post.sources == self.sources.insert(t.1, self.sources_with(t.0, t.1)).insert(
            t.2,
            self.sources_with(t.1, t.2),
        ).insert(t.0, self.sources_with(t.2, t.0))
    }

    /// The mesh with the edge `e`, which gets its payload from `donor` where
    /// it is not there.
    pub open spec fn close_edge(self, e: EdgeKey, donor: Map<EdgeKey, E>) -> Self {
        if self.edges.contains_key(e) {
            self
        } else {
            self.add_edge(e, donor[e])
        }
    }

    /// The mesh with the canonical triangle `t` and its three edges; the
    /// triangle gets its payload from `faces` and each edge from `donor` where
    /// it is not there. The edges come first, in the order of the triangle.
    pub open spec fn close_tri(self, t: TriKey, faces: Map<TriKey, F>, donor: Map<EdgeKey, E>) -> Self {
        if self.tris.contains_key(t) {
            self
        } else {
            self.close_edge((t.0, t.1), donor).close_edge((t.1, t.2), donor).close_edge(
                (t.2, t.0),
                donor,
            ).add_tri(t, faces[t])
        }
    }

    /// The mesh with the four faces of the canonical tetrahedron `t` and
    /// their edges, as `close_tri` adds them, from the face opposite the first
    /// vertex to the face opposite the last.
    pub open spec fn close_tet(self, t: TetKey, faces: Map<TriKey, F>, donor: Map<EdgeKey, E>) -> Self {
        self.close_tri(tet_face(t, 0), faces, donor).close_tri(tet_face(t, 1), faces, donor).close_tri(
            tet_face(t, 2),
            faces,
            donor,
        ).close_tri(tet_face(t, 3), faces, donor)
    }

    /// A triangle that `add_tri` put into a mesh that did not have it came
    /// with its edges as `close_tri` has it.
    pub proof fn lemma_tri_put_closes(self, post: Self, t: TriKey, value: F)
        requires
            is_canon_tri(t),
            !self.tris.contains_key(t),
            self.tri_put(post, t, value),
            self.rings_total(),
            post.rings_total(),
        ensures
            post == self.close_tri(t, post.tris, post.edges),
    {
        let w = self.close_tri(t, post.tris, post.edges);
        assert(post.edges =~= w.edges) by {
            assert forall|e: EdgeKey| post.edges.contains_key(e) <==> w.edges.contains_key(e) by {
                assert(post.edges.contains_key(e) <==> self.edges.contains_key(e) || tri_has_edge(
                    t,
                    e,
                ));
            }
            assert forall|e: EdgeKey| post.edges.contains_key(e) implies post.edges[e]
                == w.edges[e] by {
                if self.edges.contains_key(e) {
                    assert(post.edges[e] == self.edges[e]);
                }
            }
        }
        assert(post.tris =~= w.tris);
        assert(post.targets =~= w.targets);
        assert(post.sources =~= w.sources);
        assert(post.tri_opps =~= w.tri_opps);
    }

    /// `close_tri` takes from the donors the payloads of what it adds only.
    pub proof fn lemma_close_tri_donors(
        self,
        t: TriKey,
        faces: Map<TriKey, F>,
        donor: Map<EdgeKey, E>,
        faces2: Map<TriKey, F>,
        donor2: Map<EdgeKey, E>,
    )
        requires
            faces[t] == faces2[t],
            donor[(t.0, t.1)] == donor2[(t.0, t.1)],
            donor[(t.1, t.2)] == donor2[(t.1, t.2)],
            donor[(t.2, t.0)] == donor2[(t.2, t.0)],
        ensures
            self.close_tri(t, faces, donor) == self.close_tri(t, faces2, donor2),
    {
    }

    /// The tetrahedra after `add_tet` of the canonical tetrahedron `t`: where
    /// no face may belong to two tetrahedra, those that have a face of `t` go.
    pub open spec fn tets_put(self, t: TetKey, value: T, mwb: bool) -> Map<TetKey, T> {
        tets_with(self.tets, t, value, mwb)
    }

    /// Whether `post` is this mesh after `add_tet` of the canonical
    /// tetrahedron `t`: the tetrahedron is there with its payload, with it
    /// its four faces and their edges, which came as `close_tet` has it, and a
    /// tetrahedron that was not there before leads the rings around its
    /// faces. Where no face may belong to two tetrahedra, the rings around
    /// triangles are what the invariants make them.
    pub open spec fn tet_put(self, post: Self, t: TetKey, value: T, mwb: bool) -> bool {
        &&& post.vertices == self.vertices
        &&& post.next_id == self.next_id
        &&& post.tets =~= self.tets_put(t, value, mwb)
        &&& forall|f: TriKey| #[trigger]
            post.tris.contains_key(f) <==> self.tris.contains_key(f) || tet_has_face(t, f)
        &&& forall|f: TriKey| #[trigger]
            self.tris.contains_key(f) ==> post.tris[f] == self.tris[f]
        &&& forall|e: EdgeKey| #[trigger]
            post.edges.contains_key(e) <==> self.edges.contains_key(e) || tet_has_edge(t, e)
        &&& forall|e: EdgeKey| #[trigger]
            self.edges.contains_key(e) ==> post.edges[e] == self.edges[e]
        &&& !self.tets.contains_key(t) ==> {
            &&& post.tet_opps[tet_face(t, 0)].first() == t.0
            &&& post.tet_opps[tet_face(t, 1)].first() == t.1
            &&& post.tet_opps[tet_face(t, 2)].first() == t.2
            &&& post.tet_opps[tet_face(t, 3)].first() == t.3
        }
        &&& !mwb ==> post.tet_opps == if self.tets.contains_key(t) {
            self.tet_opps
        } else {
            self.add_tet(t, value).tet_opps
        }
        &&& post.tris == self.close_tet(t, post.tris, post.edges).tris
        &&& post.edges == self.close_tet(t, post.tris, post.edges).edges
        &&& post.targets == self.close_tet(t, post.tris, post.edges).targets
        &&& post.sources == self.close_tet(t, post.tris, post.edges).sources
        &&& post.tri_opps == self.close_tet(t, post.tris, post.edges).tri_opps
    }

    /// Whether `post` is this mesh after `add_tet_pruning` of the canonical
    /// tetrahedron `t`: where no face may belong to two tetrahedra and the
    /// tetrahedron is new, the tetrahedra on its faces went first, each as
    /// `kill` has it; then the tetrahedron came as `tet_put` has it.
    pub open spec fn tet_put_pruned(self, post: Self, t: TetKey, value: T, mwb: bool) -> bool {
        if mwb && !self.tets.contains_key(t) {
            self.kill(tet_face(t, 0)).kill(tet_face(t, 1)).kill(tet_face(t, 2)).kill(
                tet_face(t, 3),
            ).tet_put(post, t, value, mwb)
        } else {
            self.tet_put(post, t, value, mwb)
        }
    }

    /// Whether the members of every ring of `post` stand in the order in
    /// which they stand in the ring of this mesh.
    pub open spec fn order_kept(self, post: Self) -> bool {
        &&& forall|a: u32| #![trigger post.targets[a]] keeps_order(self.targets[a], post.targets[a])
        &&& forall|b: u32| #![trigger post.sources[b]] keeps_order(self.sources[b], post.sources[b])
        &&& forall|e: EdgeKey|
            #![trigger post.tri_opps[e]]
            keeps_order(self.tri_opps[e], post.tri_opps[e])
        &&& forall|f: TriKey|
            #![trigger post.tet_opps[f]]
            keeps_order(self.tet_opps[f], post.tet_opps[f])
    }

    /// A mesh keeps the order of its own rings.
    pub proof fn lemma_order_same(self)
        ensures
            self.order_kept(self),
    {
        assert forall|a: u32| #![trigger self.targets[a]] keeps_order(
            self.targets[a],
            self.targets[a],
        ) by {
            lemma_keeps_order_same(self.targets[a]);
        }
        assert forall|b: u32| #![trigger self.sources[b]] keeps_order(
            self.sources[b],
            self.sources[b],
        ) by {
            lemma_keeps_order_same(self.sources[b]);
        }
        assert forall|e: EdgeKey| #![trigger self.tri_opps[e]] keeps_order(
            self.tri_opps[e],
            self.tri_opps[e],
        ) by {
            lemma_keeps_order_same(self.tri_opps[e]);
        }
        assert forall|f: TriKey| #![trigger self.tet_opps[f]] keeps_order(
            self.tet_opps[f],
            self.tet_opps[f],
        ) by {
            lemma_keeps_order_same(self.tet_opps[f]);
        }
    }

    /// Keeping the order of rings carries over a chain of meshes.
    pub proof fn lemma_order_chain(self, mid: Self, post: Self)
        requires
            self.order_kept(mid),
            mid.order_kept(post),
        ensures
            self.order_kept(post),
    {
        assert forall|a: u32| #![trigger post.targets[a]] keeps_order(
            self.targets[a],
            post.targets[a],
        ) by {
            assert(keeps_order(self.targets[a], mid.targets[a]));
            lemma_keeps_order_chain(self.targets[a], mid.targets[a], post.targets[a]);
        }
        assert forall|b: u32| #![trigger post.sources[b]] keeps_order(
            self.sources[b],
            post.sources[b],
        ) by {
            assert(keeps_order(self.sources[b], mid.sources[b]));
            lemma_keeps_order_chain(self.sources[b], mid.sources[b], post.sources[b]);
        }
        assert forall|e: EdgeKey| #![trigger post.tri_opps[e]] keeps_order(
            self.tri_opps[e],
            post.tri_opps[e],
        ) by {
            assert(keeps_order(self.tri_opps[e], mid.tri_opps[e]));
            lemma_keeps_order_chain(self.tri_opps[e], mid.tri_opps[e], post.tri_opps[e]);
        }
        assert forall|f: TriKey| #![trigger post.tet_opps[f]] keeps_order(
            self.tet_opps[f],
            post.tet_opps[f],
        ) by {
            assert(keeps_order(self.tet_opps[f], mid.tet_opps[f]));
            lemma_keeps_order_chain(self.tet_opps[f], mid.tet_opps[f], post.tet_opps[f]);
        }
    }

    /// Taking out a tetrahedron keeps the order of every ring.
    pub proof fn lemma_order_remove_tet(self, x: TetKey)
        requires
            is_canon_tet(x),
        ensures
            self.order_kept(self.remove_tet(x)),
    {
        self.lemma_order_same();
        lemma_face_gives_tet(x, 0);
        lemma_face_gives_tet(x, 1);
        lemma_face_gives_tet(x, 2);
        lemma_face_gives_tet(x, 3);
        let w = self.remove_tet(x);
        assert forall|f: TriKey| #![trigger w.tet_opps[f]] keeps_order(
            self.tet_opps[f],
            w.tet_opps[f],
        ) by {
            lemma_keeps_order_same(self.tet_opps[f]);
            lemma_dropped_keeps_order(self.tet_opps[f], x.0);
            lemma_dropped_keeps_order(self.tet_opps[f], x.1);
            lemma_dropped_keeps_order(self.tet_opps[f], x.2);
            lemma_dropped_keeps_order(self.tet_opps[f], x.3);
        }
    }

    /// Taking out a triangle keeps the order of every ring.
    pub proof fn lemma_order_remove_tri(self, t: TriKey)
        requires
            is_canon_tri(t),
        ensures
            self.order_kept(self.remove_tri(t)),
    {
        self.lemma_order_same();
        let w = self.remove_tri(t);
        assert forall|g: EdgeKey| #![trigger w.tri_opps[g]] keeps_order(
            self.tri_opps[g],
            w.tri_opps[g],
        ) by {
            lemma_keeps_order_same(self.tri_opps[g]);
            lemma_dropped_keeps_order(self.tri_opps[g], t.0);
            lemma_dropped_keeps_order(self.tri_opps[g], t.1);
            lemma_dropped_keeps_order(self.tri_opps[g], t.2);
        }
    }

    /// Taking out an edge or a vertex keeps the order of every ring.
    pub proof fn lemma_order_remove_edge(self, e: EdgeKey, v: u32)
        ensures
            self.order_kept(self.remove_edge(e)),
            self.order_kept(self.remove_vertex(v)),
    {
        self.lemma_order_same();
        let w = self.remove_edge(e);
        assert forall|a: u32| #![trigger w.targets[a]] keeps_order(
            self.targets[a],
            w.targets[a],
        ) by {
            lemma_keeps_order_same(self.targets[a]);
            lemma_dropped_keeps_order(self.targets[a], e.1);
        }
        assert forall|b: u32| #![trigger w.sources[b]] keeps_order(
            self.sources[b],
            w.sources[b],
        ) by {
            lemma_keeps_order_same(self.sources[b]);
            lemma_dropped_keeps_order(self.sources[b], e.0);
        }
    }

    /// Pruning an edge keeps the order of every ring.
    pub proof fn lemma_order_prune_edge(self, e: EdgeKey)
        ensures
            self.order_kept(self.prune_edge(e)),
    {
        self.lemma_order_same();
        self.lemma_order_remove_edge(e, 0);
    }

    /// Whether `post` is this mesh after the removal of the triangle `t` that
    /// is in it: the triangle is gone, and with it every tetrahedron of which
    /// it was a face; what stays in a ring keeps its order.
    pub open spec fn tri_gone(self, post: Self, t: TriKey) -> bool {
        &&& post.vertices == self.vertices
        &&& post.edges == self.edges
        &&& post.next_id == self.next_id
        &&& post.targets == self.targets
        &&& post.sources == self.sources
        &&& post.tris == self.tris.remove(t)
        &&& post.tets =~= self.tets.filter_keys(|x: TetKey| !tet_has_face(x, t))
        &&& post.tri_opps == self.remove_tri(t).tri_opps
        &&& self.order_kept(post)
    }

    /// Whether `post` is this mesh after the removal of the edge `e` that is
    /// in it: the edge is gone, and with it every triangle and tetrahedron on
    /// which it lay; what stays in a ring keeps its order.
    pub open spec fn edge_gone(self, post: Self, e: EdgeKey) -> bool {
        &&& post.vertices == self.vertices
        &&& post.next_id == self.next_id
        &&& post.edges == self.edges.remove(e)
        &&& post.tris =~= self.tris.filter_keys(|t: TriKey| !tri_has_edge(t, e))
        &&& post.tets =~= self.tets.filter_keys(|x: TetKey| !tet_has_edge(x, e))
        &&& post.targets == self.remove_edge(e).targets
        &&& post.sources == self.remove_edge(e).sources
        &&& self.order_kept(post)
    }

    /// Whether `post` is this mesh after the removal of the vertex `v` that
    /// is in it: the vertex is gone, and with it every edge, triangle and
    /// tetrahedron of which it was a vertex; what stays in a ring keeps its
    /// order.
    pub open spec fn vertex_gone(self, post: Self, v: u32) -> bool {
        &&& post.next_id == self.next_id
        &&& post.vertices == self.vertices.remove(v)
        &&& post.edges =~= self.edges.filter_keys(|e: EdgeKey| e.0 != v && e.1 != v)
        &&& post.tris =~= self.tris.filter_keys(|t: TriKey| !tri_has_vertex(t, v))
        &&& post.tets =~= self.tets.filter_keys(|x: TetKey| !tet_has_vertex(x, v))
        &&& self.order_kept(post)
    }

    /// Whether `post` is this mesh after `remove_vertex_pruning` of the
    /// vertex `v` that is in it, where no face may belong to two tetrahedra:
    /// each edge that leaves the vertex went as `purge_edge` has it, in ring
    /// order, then each edge that reaches it, and then the vertex.
    pub open spec fn vertex_purged(self, post: Self, v: u32) -> bool {
        let w = self.purge_out(v, self.targets[v], self.targets[v].len());
        w.purge_in(v, w.sources[v], w.sources[v].len()).vertex_gone(post, v)
    }

    /// Where no face may belong to two tetrahedra, a tetrahedron of the mesh
    /// shares no oriented face with another.
    pub proof fn lemma_exclusive(self, x: TetKey, t: TetKey)
        requires
            self.wf(true),
            self.tets.contains_key(x),
            self.tets.contains_key(t),
            collides(x, t),
        ensures
            x == t,
    {
        let j: int = if tet_has_face(x, tet_face(t, 0)) {
            0
        } else if tet_has_face(x, tet_face(t, 1)) {
            1
        } else if tet_has_face(x, tet_face(t, 2)) {
            2
        } else {
            3
        };
        let f = tet_face(t, j);
        let i: int = if f == tet_face(x, 0) {
            0
        } else if f == tet_face(x, 1) {
            1
        } else if f == tet_face(x, 2) {
            2
        } else {
            3
        };
        lemma_face_gives_tet(t, j);
        lemma_face_gives_tet(x, i);
        let r = self.tet_opps[f];
        assert(r.contains(tet_vertex(t, j)));
        assert(r.contains(tet_vertex(x, i)));
        assert(r.len() <= 1);
        let p = choose|p: int| 0 <= p < r.len() && r[p] == tet_vertex(t, j);
        let q = choose|q: int| 0 <= q < r.len() && r[q] == tet_vertex(x, i);
        assert(p == q);
    }

    /// The edges of the faces of a tetrahedron are the directed edges between
    /// its vertices.
    pub proof fn lemma_tet_edges(self, t: TetKey, mwb: bool)
        requires
            self.wf(mwb),
            is_canon_tet(t),
            forall|i: int| 0 <= i < 4 ==> self.tris.contains_key(#[trigger] tet_face(t, i)),
        ensures
            forall|e: EdgeKey| tet_has_edge(t, e) ==> self.edges.contains_key(e),
            tet_has_vertex(t, t.0) && tet_has_vertex(t, t.1) && tet_has_vertex(t, t.2)
                && tet_has_vertex(t, t.3),
    {
        assert forall|e: EdgeKey| tet_has_edge(t, e) implies self.edges.contains_key(e) by {
            crate::simplex::lemma_tet_edge_on_face(t, e);
            let j = choose|j: int| 0 <= j < 4 && tri_has_edge(tet_face(t, j), e);
            let f = tet_face(t, j);
            assert(self.tris.contains_key(f));
            assert(self.edges.contains_key((f.0, f.1)));
            assert(self.edges.contains_key((f.1, f.2)));
            assert(self.edges.contains_key((f.2, f.0)));
        }
    }

    /// The vertices of a tetrahedron of the mesh are vertices of the mesh.
    pub proof fn lemma_tet_vertices(self, t: TetKey, mwb: bool)
        requires
            self.wf(mwb),
            self.tets.contains_key(t),
        ensures
            forall|v: u32| tet_has_vertex(t, v) ==> self.vertices.contains_key(v),
    {
        self.lemma_tet_edges(t, mwb);
        assert forall|v: u32| tet_has_vertex(t, v) implies self.vertices.contains_key(v) by {
            let w = if v == t.0 {
                t.1
            } else {
                t.0
            };
            assert(tet_has_edge(t, (v, w)));
            assert(self.edges.contains_key((v, w)));
        }
    }

    /// A ring around an edge has members only where the edge is in the mesh.
    pub proof fn lemma_tri_ring_base(self, a: u32, b: u32, c: u32, mwb: bool)
        requires
            self.wf(mwb),
            self.tri_opps[(a, b)].contains(c),
        ensures
            self.edges.contains_key((a, b)),
            self.tris.contains_key(canon_tri(a, b, c)),
            c != a,
            c != b,
            a != b,
            self.vertices.contains_key(c),
    {
        let t = canon_tri(a, b, c);
        assert(self.tris.contains_key(t));
        assert(self.edges.contains_key((t.0, t.1)));
        assert(self.edges.contains_key((t.1, t.2)));
        assert(self.edges.contains_key((t.2, t.0)));
    }

    /// A ring around a triangle has members only where the triangle is in
    /// the mesh.
    pub proof fn lemma_tet_ring_base(self, f: TriKey, d: u32, mwb: bool)
        requires
            self.wf(mwb),
            self.tet_opps[f].contains(d),
        ensures
            self.tris.contains_key(f),
            is_canon_tri(f),
            !tri_has_vertex(f, d),
            self.tets.contains_key(canon_tet(f.0, f.1, f.2, d)),
            self.vertices.contains_key(d),
    {
        let t = canon_tet(f.0, f.1, f.2, d);
        assert(self.tets.contains_key(t));
        lemma_tet_by_face(t, f, d);
        let i = choose|i: int| 0 <= i < 4 && tet_face(t, i) == f && tet_vertex(t, i) == d;
        assert(self.tris.contains_key(tet_face(t, i)));
        let j: int = if i == 0 {
            1
        } else {
            0
        };
        let g = tet_face(t, j);
        lemma_face_gives_tet(t, j);
        crate::simplex::lemma_face_vertices(t, j);
        assert(tri_has_vertex(g, d));
        assert(self.tris.contains_key(g));
        assert(self.edges.contains_key((g.0, g.1)));
        assert(self.edges.contains_key((g.1, g.2)));
    }

    /// Whether the two meshes differ in payloads only: same simplices, same
    /// rings.
    pub open spec fn same_shape(self, other: Self) -> bool {
        &&& self.vertices.dom() == other.vertices.dom()
        &&& self.edges.dom() == other.edges.dom()
        &&& self.tris.dom() == other.tris.dom()
        &&& self.tets.dom() == other.tets.dom()
        &&& self.targets == other.targets
        &&& self.sources == other.sources
        &&& self.tri_opps == other.tri_opps
        &&& self.tet_opps == other.tet_opps
        &&& self.next_id == other.next_id
    }

    /// The invariants speak of which simplices there are, not of payloads.
    pub proof fn lemma_same_shape(self, other: Self, mwb: bool)
        requires
            self.wf(mwb),
            self.same_shape(other),
        ensures
            other.wf(mwb),
    {
        assert forall|v: u32| #[trigger] other.vertices.contains_key(v) implies v
            < other.next_id by {
            assert(self.vertices.dom().contains(v));
        }
        assert forall|e: EdgeKey| #[trigger] other.edges.contains_key(e) implies e.0 != e.1
            && other.vertices.contains_key(e.0) && other.vertices.contains_key(e.1) by {
            assert(self.edges.dom().contains(e));
            assert(self.vertices.dom().contains(e.0));
            assert(self.vertices.dom().contains(e.1));
        }
        assert forall|t: TriKey| #[trigger] other.tris.contains_key(t) implies is_canon_tri(t)
            && other.edges.contains_key((t.0, t.1)) && other.edges.contains_key((t.1, t.2))
            && other.edges.contains_key((t.2, t.0)) by {
            assert(self.tris.dom().contains(t));
            assert(self.edges.dom().contains((t.0, t.1)));
            assert(self.edges.dom().contains((t.1, t.2)));
            assert(self.edges.dom().contains((t.2, t.0)));
        }
        assert forall|t: TetKey| #[trigger] other.tets.contains_key(t) implies is_canon_tet(t)
            && other.tris.contains_key(tet_face(t, 0)) && other.tris.contains_key(tet_face(t, 1))
            && other.tris.contains_key(tet_face(t, 2)) && other.tris.contains_key(
            tet_face(t, 3),
        ) by {
            assert(self.tets.dom().contains(t));
            assert(self.tris.dom().contains(tet_face(t, 0)));
            assert(self.tris.dom().contains(tet_face(t, 1)));
            assert(self.tris.dom().contains(tet_face(t, 2)));
            assert(self.tris.dom().contains(tet_face(t, 3)));
        }
        assert forall|a: u32, b: u32|
            #![trigger other.targets[a].contains(b)]
            #![trigger other.edges.contains_key((a, b))]
            other.targets[a].contains(b) <==> other.edges.contains_key((a, b)) by {
            assert(self.edges.dom().contains((a, b)) == other.edges.dom().contains((a, b)));
        }
        assert forall|a: u32, b: u32|
            #![trigger other.sources[b].contains(a)]
            #![trigger other.edges.contains_key((a, b))]
            other.sources[b].contains(a) <==> other.edges.contains_key((a, b)) by {
            assert(self.edges.dom().contains((a, b)) == other.edges.dom().contains((a, b)));
        }
        assert forall|a: u32, b: u32, c: u32|
            #![trigger other.tri_opps[(a, b)].contains(c)]
            #![trigger other.tris.contains_key(canon_tri(a, b, c))]
            other.tri_opps[(a, b)].contains(c) <==> other.tris.contains_key(
                canon_tri(a, b, c),
            ) by {
            assert(self.tris.dom().contains(canon_tri(a, b, c)) == other.tris.dom().contains(
                canon_tri(a, b, c),
            ));
        }
        assert forall|f: TriKey, d: u32|
            #![trigger other.tet_opps[f].contains(d)]
            #![trigger other.tets.contains_key(canon_tet(f.0, f.1, f.2, d))]
            other.tet_opps[f].contains(d) <==> is_canon_tri(f) && other.tets.contains_key(
                canon_tet(f.0, f.1, f.2, d),
            ) by {
            assert(self.tets.dom().contains(canon_tet(f.0, f.1, f.2, d))
                == other.tets.dom().contains(canon_tet(f.0, f.1, f.2, d)));
        }
    }

    /// A new vertex keeps the invariants.
    pub proof fn lemma_add_vertex(self, value: V, mwb: bool)
        requires
            self.wf(mwb),
            self.next_id < u32::MAX,
        ensures
            self.add_vertex(value).wf(mwb),
    {
        let w = self.add_vertex(value);
        assert forall|e: EdgeKey| #[trigger] w.edges.contains_key(e) implies e.0 != e.1
            && w.vertices.contains_key(e.0) && w.vertices.contains_key(e.1) by {
            assert(self.edges.contains_key(e));
        }
    }

    /// A new edge between two vertices of the mesh keeps the invariants.
    pub proof fn lemma_add_edge(self, e: EdgeKey, value: E, mwb: bool)
        requires
            self.wf(mwb),
            e.0 != e.1,
            self.vertices.contains_key(e.0),
            self.vertices.contains_key(e.1),
            !self.edges.contains_key(e),
        ensures
            self.add_edge(e, value).wf(mwb),
    {
        let w = self.add_edge(e, value);
        assert(self.edges.contains_key((e.0, e.1)) == self.edges.contains_key(e));
        assert(!self.targets[e.0].contains(e.1));
        assert(!self.sources[e.1].contains(e.0));
        lemma_added(self.targets[e.0], e.1, false);
        lemma_added(self.sources[e.1], e.0, false);
        assert forall|x: EdgeKey| #[trigger] w.edges.contains_key(x) implies x.0 != x.1
            && w.vertices.contains_key(x.0) && w.vertices.contains_key(x.1) by {
            if x != e {
                assert(self.edges.contains_key(x));
            }
        }
        assert forall|t: TriKey| #[trigger] w.tris.contains_key(t) implies is_canon_tri(t)
            && w.edges.contains_key((t.0, t.1)) && w.edges.contains_key((t.1, t.2))
            && w.edges.contains_key((t.2, t.0)) by {
            assert(self.tris.contains_key(t));
        }
        assert forall|a: u32| #![trigger w.targets[a]] w.targets[a].no_duplicates() by {
            assert(self.targets[a].no_duplicates());
        }
        assert forall|b: u32| #![trigger w.sources[b]] w.sources[b].no_duplicates() by {
            assert(self.sources[b].no_duplicates());
        }
        assert forall|a: u32, b: u32|
            #![trigger w.targets[a].contains(b)]
            #![trigger w.edges.contains_key((a, b))]
            w.targets[a].contains(b) <==> w.edges.contains_key((a, b)) by {
            assert(self.targets[a].contains(b) <==> self.edges.contains_key((a, b)));
        }
        assert forall|a: u32, b: u32|
            #![trigger w.sources[b].contains(a)]
            #![trigger w.edges.contains_key((a, b))]
            w.sources[b].contains(a) <==> w.edges.contains_key((a, b)) by {
            assert(self.sources[b].contains(a) <==> self.edges.contains_key((a, b)));
        }
    }

    /// A new canonical triangle whose edges are in the mesh keeps the
    /// invariants.
    pub proof fn lemma_add_tri(self, t: TriKey, value: F, mwb: bool)
        requires
            self.wf(mwb),
            is_canon_tri(t),
            self.edges.contains_key((t.0, t.1)),
            self.edges.contains_key((t.1, t.2)),
            self.edges.contains_key((t.2, t.0)),
            !self.tris.contains_key(t),
        ensures
            self.add_tri(t, value).wf(mwb),
    {
        let w = self.add_tri(t, value);
        lemma_canon_tri(t.0, t.1, t.2);
        assert(!self.tri_opps[(t.0, t.1)].contains(t.2)) by {
            assert(canon_tri(t.0, t.1, t.2) == t);
        }
        assert(!self.tri_opps[(t.1, t.2)].contains(t.0)) by {
            assert(canon_tri(t.1, t.2, t.0) == t);
        }
        assert(!self.tri_opps[(t.2, t.0)].contains(t.1)) by {
            assert(canon_tri(t.2, t.0, t.1) == t);
        }
        lemma_added(self.tri_opps[(t.0, t.1)], t.2, true);
        lemma_added(self.tri_opps[(t.1, t.2)], t.0, true);
        lemma_added(self.tri_opps[(t.2, t.0)], t.1, true);
        assert forall|x: TriKey| #[trigger] w.tris.contains_key(x) implies is_canon_tri(x)
            && w.edges.contains_key((x.0, x.1)) && w.edges.contains_key((x.1, x.2))
            && w.edges.contains_key((x.2, x.0)) by {
            if x != t {
                assert(self.tris.contains_key(x));
            }
        }
        assert forall|x: TetKey| #[trigger] w.tets.contains_key(x) implies is_canon_tet(x)
            && w.tris.contains_key(tet_face(x, 0)) && w.tris.contains_key(tet_face(x, 1))
            && w.tris.contains_key(tet_face(x, 2)) && w.tris.contains_key(tet_face(x, 3)) by {
            assert(self.tets.contains_key(x));
        }
        assert forall|e: EdgeKey| #![trigger w.tri_opps[e]] w.tri_opps[e].no_duplicates() by {
            assert(self.tri_opps[e].no_duplicates());
        }
        assert forall|a: u32, b: u32, c: u32|
            #![trigger w.tri_opps[(a, b)].contains(c)]
            #![trigger w.tris.contains_key(canon_tri(a, b, c))]
            w.tri_opps[(a, b)].contains(c) <==> w.tris.contains_key(canon_tri(a, b, c)) by {
            assert(self.tri_opps[(a, b)].contains(c) <==> self.tris.contains_key(
                canon_tri(a, b, c),
            ));
            if self.tris.contains_key(canon_tri(a, b, c)) {
                assert(is_canon_tri(canon_tri(a, b, c)));
            }
        }
    }

    /// A new canonical tetrahedron whose faces are in the mesh keeps the
    /// invariants; where no face may belong to two tetrahedra, its faces must
    /// be free.
    pub proof fn lemma_add_tet(self, t: TetKey, value: T, mwb: bool)
        requires
            self.wf(mwb),
            is_canon_tet(t),
            forall|i: int| 0 <= i < 4 ==> self.tris.contains_key(#[trigger] tet_face(t, i)),
            !self.tets.contains_key(t),
            mwb ==> forall|i: int| 0 <= i < 4 ==> self.tet_opps[#[trigger] tet_face(t, i)].len() == 0,
        ensures
            self.add_tet(t, value).wf(mwb),
    {
        let w = self.add_tet(t, value);
        lemma_face_gives_tet(t, 0);
        lemma_face_gives_tet(t, 1);
        lemma_face_gives_tet(t, 2);
        lemma_face_gives_tet(t, 3);
        let f0 = tet_face(t, 0);
        let f1 = tet_face(t, 1);
        let f2 = tet_face(t, 2);
        let f3 = tet_face(t, 3);
        assert(self.tris.contains_key(f0) && self.tris.contains_key(f1) && self.tris.contains_key(
            f2,
        ) && self.tris.contains_key(f3));
        assert(tet_vertex(t, 0) == t.0 && tet_vertex(t, 1) == t.1 && tet_vertex(t, 2) == t.2
            && tet_vertex(t, 3) == t.3);
        assert(!self.tet_opps[f0].contains(t.0)) by {
            assert(canon_tet(f0.0, f0.1, f0.2, t.0) == t);
        }
        assert(!self.tet_opps[f1].contains(t.1)) by {
            assert(canon_tet(f1.0, f1.1, f1.2, t.1) == t);
        }
        assert(!self.tet_opps[f2].contains(t.2)) by {
            assert(canon_tet(f2.0, f2.1, f2.2, t.2) == t);
        }
        assert(!self.tet_opps[f3].contains(t.3)) by {
            assert(canon_tet(f3.0, f3.1, f3.2, t.3) == t);
        }
        lemma_added(self.tet_opps[f0], t.0, true);
        lemma_added(self.tet_opps[f1], t.1, true);
        lemma_added(self.tet_opps[f2], t.2, true);
        lemma_added(self.tet_opps[f3], t.3, true);
        assert forall|x: TetKey| #[trigger] w.tets.contains_key(x) implies is_canon_tet(x)
            && w.tris.contains_key(tet_face(x, 0)) && w.tris.contains_key(tet_face(x, 1))
            && w.tris.contains_key(tet_face(x, 2)) && w.tris.contains_key(tet_face(x, 3)) by {
            if x != t {
                assert(self.tets.contains_key(x));
            }
        }
        assert forall|f: TriKey| #![trigger w.tet_opps[f]] w.tet_opps[f].no_duplicates() by {
            assert(self.tet_opps[f].no_duplicates());
        }
        assert forall|f: TriKey, d: u32|
            #![trigger w.tet_opps[f].contains(d)]
            #![trigger w.tets.contains_key(canon_tet(f.0, f.1, f.2, d))]
            w.tet_opps[f].contains(d) <==> is_canon_tri(f) && w.tets.contains_key(
                canon_tet(f.0, f.1, f.2, d),
            ) by {
            assert(self.tet_opps[f].contains(d) <==> is_canon_tri(f) && self.tets.contains_key(
                canon_tet(f.0, f.1, f.2, d),
            ));
            if is_canon_tri(f) && canon_tet(f.0, f.1, f.2, d) == t {
                lemma_tet_by_face(t, f, d);
            }
        }
        if mwb {
            assert forall|f: TriKey| #![trigger w.tet_opps[f]] w.tet_opps[f].len() <= 1 by {
                assert(self.tet_opps[f].len() <= 1);
                assert(self.tet_opps[tet_face(t, 0)].len() == 0);
                assert(self.tet_opps[tet_face(t, 1)].len() == 0);
                assert(self.tet_opps[tet_face(t, 2)].len() == 0);
                assert(self.tet_opps[tet_face(t, 3)].len() == 0);
            }
        }
    }

    /// Taking a tetrahedron out keeps the invariants.
    pub proof fn lemma_remove_tet(self, t: TetKey, mwb: bool)
        requires
            self.wf(mwb),
            self.tets.contains_key(t),
        ensures
            self.remove_tet(t).wf(mwb),
    {
        let w = self.remove_tet(t);
        lemma_face_gives_tet(t, 0);
        lemma_face_gives_tet(t, 1);
        lemma_face_gives_tet(t, 2);
        lemma_face_gives_tet(t, 3);
        let f0 = tet_face(t, 0);
        let f1 = tet_face(t, 1);
        let f2 = tet_face(t, 2);
        let f3 = tet_face(t, 3);
        assert(tet_vertex(t, 0) == t.0 && tet_vertex(t, 1) == t.1 && tet_vertex(t, 2) == t.2
            && tet_vertex(t, 3) == t.3);
        assert(self.tet_opps[f0].contains(t.0)) by {
            assert(canon_tet(f0.0, f0.1, f0.2, t.0) == t);
        }
        assert(self.tet_opps[f1].contains(t.1)) by {
            assert(canon_tet(f1.0, f1.1, f1.2, t.1) == t);
        }
        assert(self.tet_opps[f2].contains(t.2)) by {
            assert(canon_tet(f2.0, f2.1, f2.2, t.2) == t);
        }
        assert(self.tet_opps[f3].contains(t.3)) by {
            assert(canon_tet(f3.0, f3.1, f3.2, t.3) == t);
        }
        lemma_dropped(self.tet_opps[f0], t.0);
        lemma_dropped(self.tet_opps[f1], t.1);
        lemma_dropped(self.tet_opps[f2], t.2);
        lemma_dropped(self.tet_opps[f3], t.3);
        assert forall|x: TetKey| #[trigger] w.tets.contains_key(x) implies is_canon_tet(x)
            && w.tris.contains_key(tet_face(x, 0)) && w.tris.contains_key(tet_face(x, 1))
            && w.tris.contains_key(tet_face(x, 2)) && w.tris.contains_key(tet_face(x, 3)) by {
            assert(self.tets.contains_key(x));
        }
        assert forall|f: TriKey| #![trigger w.tet_opps[f]] w.tet_opps[f].no_duplicates() by {
            assert(self.tet_opps[f].no_duplicates());
        }
        assert forall|f: TriKey, d: u32|
            #![trigger w.tet_opps[f].contains(d)]
            #![trigger w.tets.contains_key(canon_tet(f.0, f.1, f.2, d))]
            w.tet_opps[f].contains(d) <==> is_canon_tri(f) && w.tets.contains_key(
                canon_tet(f.0, f.1, f.2, d),
            ) by {
            assert(self.tet_opps[f].contains(d) <==> is_canon_tri(f) && self.tets.contains_key(
                canon_tet(f.0, f.1, f.2, d),
            ));
            if is_canon_tri(f) && canon_tet(f.0, f.1, f.2, d) == t {
                lemma_tet_by_face(t, f, d);
            }
        }
        if mwb {
            assert forall|f: TriKey| #![trigger w.tet_opps[f]] w.tet_opps[f].len() <= 1 by {
                assert(self.tet_opps[f].len() <= 1);
            }
        }
    }

    /// Taking out a triangle that is a face of no tetrahedron keeps the
    /// invariants.
    pub proof fn lemma_remove_tri(self, t: TriKey, mwb: bool)
        requires
            self.wf(mwb),
            self.tris.contains_key(t),
            self.tet_opps[t].len() == 0,
        ensures
            self.remove_tri(t).wf(mwb),
    {
        let w = self.remove_tri(t);
        lemma_canon_tri(t.0, t.1, t.2);
        assert(self.tri_opps[(t.0, t.1)].contains(t.2)) by {
            assert(canon_tri(t.0, t.1, t.2) == t);
        }
        assert(self.tri_opps[(t.1, t.2)].contains(t.0)) by {
            assert(canon_tri(t.1, t.2, t.0) == t);
        }
        assert(self.tri_opps[(t.2, t.0)].contains(t.1)) by {
            assert(canon_tri(t.2, t.0, t.1) == t);
        }
        lemma_dropped(self.tri_opps[(t.0, t.1)], t.2);
        lemma_dropped(self.tri_opps[(t.1, t.2)], t.0);
        lemma_dropped(self.tri_opps[(t.2, t.0)], t.1);
        assert forall|x: TriKey| #[trigger] w.tris.contains_key(x) implies is_canon_tri(x)
            && w.edges.contains_key((x.0, x.1)) && w.edges.contains_key((x.1, x.2))
            && w.edges.contains_key((x.2, x.0)) by {
            assert(self.tris.contains_key(x));
        }
        assert forall|x: TetKey| #[trigger] w.tets.contains_key(x) implies is_canon_tet(x)
            && w.tris.contains_key(tet_face(x, 0)) && w.tris.contains_key(tet_face(x, 1))
            && w.tris.contains_key(tet_face(x, 2)) && w.tris.contains_key(tet_face(x, 3)) by {
            assert(self.tets.contains_key(x));
            assert forall|i: int| 0 <= i < 4 implies tet_face(x, i) != t by {
                lemma_face_gives_tet(x, i);
                let f = tet_face(x, i);
                if f == t {
                    assert(self.tets.contains_key(canon_tet(f.0, f.1, f.2, tet_vertex(x, i))));
                    assert(self.tet_opps[f].contains(tet_vertex(x, i)));
                }
            }
        }
        assert forall|e: EdgeKey| #![trigger w.tri_opps[e]] w.tri_opps[e].no_duplicates() by {
            assert(self.tri_opps[e].no_duplicates());
        }
        assert forall|a: u32, b: u32, c: u32|
            #![trigger w.tri_opps[(a, b)].contains(c)]
            #![trigger w.tris.contains_key(canon_tri(a, b, c))]
            w.tri_opps[(a, b)].contains(c) <==> w.tris.contains_key(canon_tri(a, b, c)) by {
            assert(self.tri_opps[(a, b)].contains(c) <==> self.tris.contains_key(
                canon_tri(a, b, c),
            ));
            if self.tris.contains_key(canon_tri(a, b, c)) {
                assert(is_canon_tri(canon_tri(a, b, c)));
            }
        }
    }

    /// Taking out an edge that is an edge of no triangle keeps the
    /// invariants.
    pub proof fn lemma_remove_edge(self, e: EdgeKey, mwb: bool)
        requires
            self.wf(mwb),
            self.edges.contains_key(e),
            self.tri_opps[e].len() == 0,
        ensures
            self.remove_edge(e).wf(mwb),
    {
        let w = self.remove_edge(e);
        assert(self.edges.contains_key((e.0, e.1)) == self.edges.contains_key(e));
        assert(self.targets[e.0].contains(e.1));
        assert(self.sources[e.1].contains(e.0));
        lemma_dropped(self.targets[e.0], e.1);
        lemma_dropped(self.sources[e.1], e.0);
        assert forall|x: EdgeKey| #[trigger] w.edges.contains_key(x) implies x.0 != x.1
            && w.vertices.contains_key(x.0) && w.vertices.contains_key(x.1) by {
            assert(self.edges.contains_key(x));
        }
        assert forall|t: TriKey| #[trigger] w.tris.contains_key(t) implies is_canon_tri(t)
            && w.edges.contains_key((t.0, t.1)) && w.edges.contains_key((t.1, t.2))
            && w.edges.contains_key((t.2, t.0)) by {
            assert(self.tris.contains_key(t));
            lemma_canon_tri(t.0, t.1, t.2);
            if tri_has_edge(t, e) {
                let c = if e == (t.0, t.1) {
                    t.2
                } else if e == (t.1, t.2) {
                    t.0
                } else {
                    t.1
                };
                assert(canon_tri(e.0, e.1, c) == t);
                assert(self.tri_opps[(e.0, e.1)].contains(c));
                assert((e.0, e.1) == e);
            }
        }
        assert forall|a: u32| #![trigger w.targets[a]] w.targets[a].no_duplicates() by {
            assert(self.targets[a].no_duplicates());
        }
        assert forall|b: u32| #![trigger w.sources[b]] w.sources[b].no_duplicates() by {
            assert(self.sources[b].no_duplicates());
        }
        assert forall|a: u32, b: u32|
            #![trigger w.targets[a].contains(b)]
            #![trigger w.edges.contains_key((a, b))]
            w.targets[a].contains(b) <==> w.edges.contains_key((a, b)) by {
            assert(self.targets[a].contains(b) <==> self.edges.contains_key((a, b)));
        }
        assert forall|a: u32, b: u32|
            #![trigger w.sources[b].contains(a)]
            #![trigger w.edges.contains_key((a, b))]
            w.sources[b].contains(a) <==> w.edges.contains_key((a, b)) by {
            assert(self.sources[b].contains(a) <==> self.edges.contains_key((a, b)));
        }
    }

    /// Taking out a vertex that is an end of no edge keeps the invariants.
    pub proof fn lemma_remove_vertex(self, v: u32, mwb: bool)
        requires
            self.wf(mwb),
            self.targets[v].len() == 0,
            self.sources[v].len() == 0,
        ensures
            self.remove_vertex(v).wf(mwb),
    {
        let w = self.remove_vertex(v);
        assert forall|e: EdgeKey| #[trigger] w.edges.contains_key(e) implies e.0 != e.1
            && w.vertices.contains_key(e.0) && w.vertices.contains_key(e.1) by {
            assert(self.edges.contains_key(e));
            assert(self.edges.contains_key((e.0, e.1)));
            assert(self.targets[e.0].contains(e.1));
            assert(self.sources[e.1].contains(e.0));
        }
    }
}

} // verus!
