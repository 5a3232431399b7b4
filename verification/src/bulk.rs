//! Adding and removing many simplices at once.

use vstd::prelude::*;
use crate::simplex::{
    EdgeKey, TriKey, TetKey, tri_has_edge, tet_has_face, tet_has_edge, lemma_canon_tri,
    lemma_canon_tet,
};
use crate::ids::{VertexId, EdgeId, TriId, TetId};
use crate::mesh::Mesh;
use crate::view::{MeshView, tets_with};

verus! {

/// The vertices after `n` of the `values` were added, the first with the
/// number `first`.
pub open spec fn vertices_after<V>(m: Map<u32, V>, first: u32, values: Seq<V>, n: nat) -> Map<
    u32,
    V,
>
    decreases n,
{
    if n == 0 {
        m
    } else {
        vertices_after(m, first, values, (n - 1) as nat).insert(
            (first + n - 1) as u32,
            values[n - 1],
        )
    }
}

/// The edges after `add_edge` of the first `n` items, in order.
pub open spec fn edges_after<E>(m: Map<EdgeKey, E>, items: Seq<(EdgeId, E)>, n: nat) -> Map<
    EdgeKey,
    E,
>
    decreases n,
{
    if n == 0 {
        m
    } else {
        edges_after(m, items, (n - 1) as nat).insert(items[n - 1].0@, items[n - 1].1)
    }
}

/// The triangles after `add_tri` of the first `n` items, in order.
pub open spec fn tris_after<F>(m: Map<TriKey, F>, items: Seq<(TriId, F)>, n: nat) -> Map<TriKey, F>
    decreases n,
{
    if n == 0 {
        m
    } else {
        tris_after(m, items, (n - 1) as nat).insert(items[n - 1].0.key(), items[n - 1].1)
    }
}

/// The tetrahedra after `add_tet` of the first `n` items, in order.
pub open spec fn tets_after<T>(m: Map<TetKey, T>, items: Seq<(TetId, T)>, n: nat, mwb: bool) -> Map<
    TetKey,
    T,
>
    decreases n,
{
    if n == 0 {
        m
    } else {
        tets_with(tets_after(m, items, (n - 1) as nat, mwb), items[n - 1].0.key(), items[n - 1].1, mwb)
    }
}

/// The mesh after `add_edge` of the first `n` items, in order.
pub open spec fn with_edges<V, E, F, T>(
    m: MeshView<V, E, F, T>,
    items: Seq<(EdgeId, E)>,
    n: nat,
) -> MeshView<V, E, F, T>
    decreases n,
{
    if n == 0 {
        m
    } else {
        with_edges(m, items, (n - 1) as nat).put_edge(items[n - 1].0@, items[n - 1].1)
    }
}

/// Whether `post` is the mesh `pre` after `add_tri` of the first `n` items,
/// in order, each as `tri_put` has it.
pub open spec fn tris_added<V, E, F, T>(
    pre: MeshView<V, E, F, T>,
    post: MeshView<V, E, F, T>,
    items: Seq<(TriId, F)>,
    n: nat,
) -> bool
    decreases n,
{
    if n == 0 {
        post == pre
    } else {
        exists|mid: MeshView<V, E, F, T>|
            tris_added(pre, mid, items, (n - 1) as nat) && #[trigger] mid.tri_put(
                post,
                items[n - 1].0.key(),
                items[n - 1].1,
            )
    }
}

/// Whether `post` is the mesh `pre` after `add_tet` of the first `n` items,
/// in order, each as `tet_put` has it.
#[verifier::opaque]
pub open spec fn tets_added<V, E, F, T>(
    pre: MeshView<V, E, F, T>,
    post: MeshView<V, E, F, T>,
    items: Seq<(TetId, T)>,
    n: nat,
    mwb: bool,
) -> bool
    decreases n,
{
    if n == 0 {
        post == pre
    } else {
        exists|mid: MeshView<V, E, F, T>|
            tets_added(pre, mid, items, (n - 1) as nat, mwb) && #[trigger] mid.tet_put(
                post,
                items[n - 1].0.key(),
                items[n - 1].1,
                mwb,
            )
    }
}

/// One more triangle added goes on what `tris_added` has.
proof fn lemma_tris_added<V, E, F, T>(
    pre: MeshView<V, E, F, T>,
    mid: MeshView<V, E, F, T>,
    post: MeshView<V, E, F, T>,
    items: Seq<(TriId, F)>,
    n: nat,
)
    requires
        tris_added(pre, mid, items, n),
        mid.tri_put(post, items[n as int].0.key(), items[n as int].1),
    ensures
        tris_added(pre, post, items, n + 1),
{
    assert(((n + 1) - 1) as nat == n);
}

/// One more tetrahedron added goes on what `tets_added` has.
proof fn lemma_tets_added<V, E, F, T>(
    pre: MeshView<V, E, F, T>,
    mid: MeshView<V, E, F, T>,
    post: MeshView<V, E, F, T>,
    items: Seq<(TetId, T)>,
    n: nat,
    mwb: bool,
)
    requires
        tets_added(pre, mid, items, n, mwb),
        mid.tet_put(post, items[n as int].0.key(), items[n as int].1, mwb),
    ensures
        tets_added(pre, post, items, n + 1, mwb),
{
    reveal_with_fuel(tets_added, 2);
    assert(((n + 1) - 1) as nat == n);
}

/// Nothing added leaves the mesh as it is.
proof fn lemma_tets_added_none<V, E, F, T>(
    pre: MeshView<V, E, F, T>,
    items: Seq<(TetId, T)>,
    mwb: bool,
)
    ensures
        tets_added(pre, pre, items, 0, mwb),
{
    reveal_with_fuel(tets_added, 1);
}

/// Whether `post` is the mesh `pre` after `add_tet_pruning` of the first `n`
/// items, in order, each as `tet_put_pruned` has it.
#[verifier::opaque]
pub open spec fn tets_added_pruned<V, E, F, T>(
    pre: MeshView<V, E, F, T>,
    post: MeshView<V, E, F, T>,
    items: Seq<(TetId, T)>,
    n: nat,
    mwb: bool,
) -> bool
    decreases n,
{
    if n == 0 {
        post == pre
    } else {
        exists|mid: MeshView<V, E, F, T>|
            tets_added_pruned(pre, mid, items, (n - 1) as nat, mwb) && #[trigger] mid.tet_put_pruned(
                post,
                items[n - 1].0.key(),
                items[n - 1].1,
                mwb,
            )
    }
}

/// One more tetrahedron added goes on what `tets_added_pruned` has.
pub(crate) proof fn lemma_tets_added_pruned<V, E, F, T>(
    pre: MeshView<V, E, F, T>,
    mid: MeshView<V, E, F, T>,
    post: MeshView<V, E, F, T>,
    items: Seq<(TetId, T)>,
    n: nat,
    mwb: bool,
)
    requires
        tets_added_pruned(pre, mid, items, n, mwb),
        mid.tet_put_pruned(post, items[n as int].0.key(), items[n as int].1, mwb),
    ensures
        tets_added_pruned(pre, post, items, n + 1, mwb),
{
    reveal_with_fuel(tets_added_pruned, 2);
    assert(((n + 1) - 1) as nat == n);
}

/// Nothing added leaves the mesh as it is.
pub(crate) proof fn lemma_tets_added_pruned_none<V, E, F, T>(
    pre: MeshView<V, E, F, T>,
    items: Seq<(TetId, T)>,
    mwb: bool,
)
    ensures
        tets_added_pruned(pre, pre, items, 0, mwb),
{
    reveal_with_fuel(tets_added_pruned, 1);
}

/// Whether `e` is an edge of one of the first `n` triangles.
pub open spec fn edge_of_some<F>(items: Seq<(TriId, F)>, n: int, e: EdgeKey) -> bool {
    exists|i: int| 0 <= i < n && #[trigger] tri_has_edge(items[i].0.key(), e)
}

/// Whether `f` is a face of one of the first `n` tetrahedra.
pub open spec fn face_of_some<T>(items: Seq<(TetId, T)>, n: int, f: TriKey) -> bool {
    exists|i: int| 0 <= i < n && #[trigger] tet_has_face(items[i].0.key(), f)
}

/// Whether `e` joins two vertices of one of the first `n` tetrahedra.
pub open spec fn tet_edge_of_some<T>(items: Seq<(TetId, T)>, n: int, e: EdgeKey) -> bool {
    exists|i: int| 0 <= i < n && #[trigger] tet_has_edge(items[i].0.key(), e)
}

impl<V, E, F, T, const MWB: bool> Mesh<V, E, F, T, MWB> {
    /// Adds a vertex for each value, in order, and returns their numbers.
    pub fn extend_vertices(&mut self, values: Vec<V>) -> (ids: Vec<VertexId>)
        requires
            old(self).wf(),
            old(self)@.next_id + values.len() <= u32::MAX,
        ensures
            final(self).wf(),
            ids.len() == values.len(),
            forall|i: int| 0 <= i < ids.len() ==> (#[trigger] ids[i]).0 == old(self)@.next_id + i,
            final(self)@ == (MeshView {
                vertices: vertices_after(
                    old(self)@.vertices,
                    old(self)@.next_id,
                    values@,
                    values.len() as nat,
                ),
                next_id: (old(self)@.next_id + values.len()) as u32,
                ..old(self)@
            }),
    {
        let mut ids: Vec<VertexId> = Vec::new();
        let ghost all = values@;
        for value in it: values
            invariant
                it.seq() == all,
                self.wf(),
                old(self)@.next_id + all.len() <= u32::MAX,
                ids.len() == it.index(),
                forall|i: int| 0 <= i < ids.len() ==> (#[trigger] ids[i]).0 == old(self)@.next_id + i,
                self@ == (MeshView {
                    vertices: vertices_after(
                        old(self)@.vertices,
                        old(self)@.next_id,
                        all,
                        it.index() as nat,
                    ),
                    next_id: (old(self)@.next_id + it.index()) as u32,
                    ..old(self)@
                }),
        {
            let id = self.add_vertex(value);
            ids.push(id);
        }
        ids
    }

    /// Adds the edges with their payloads, in order, as `add_edge` does.
    pub fn extend_edges(&mut self, items: Vec<(EdgeId, E)>)
        requires
            old(self).wf(),
            forall|i: int|
                0 <= i < items.len() ==> (#[trigger] items[i]).0.valid()
                    && old(self)@.vertices.contains_key(items[i].0@.0)
                    && old(self)@.vertices.contains_key(items[i].0@.1),
        ensures
            final(self).wf(),
            final(self)@ == with_edges(old(self)@, items@, items.len() as nat),
            final(self)@.edges == edges_after(old(self)@.edges, items@, items.len() as nat),
            final(self)@.vertices == old(self)@.vertices,
            final(self)@.tris == old(self)@.tris,
            final(self)@.tets == old(self)@.tets,
            final(self)@.tri_opps == old(self)@.tri_opps,
            final(self)@.tet_opps == old(self)@.tet_opps,
            final(self)@.next_id == old(self)@.next_id,
    {
        let ghost all = items@;
        for item in it: items
            invariant
                it.seq() == all,
                self.wf(),
                forall|i: int|
                    0 <= i < all.len() ==> (#[trigger] all[i]).0.valid()
                        && old(self)@.vertices.contains_key(all[i].0@.0)
                        && old(self)@.vertices.contains_key(all[i].0@.1),
                self@ == with_edges(old(self)@, all, it.index() as nat),
                self@.edges == edges_after(old(self)@.edges, all, it.index() as nat),
                self@.vertices == old(self)@.vertices,
                self@.tris == old(self)@.tris,
                self@.tets == old(self)@.tets,
                self@.tri_opps == old(self)@.tri_opps,
                self@.tet_opps == old(self)@.tet_opps,
                self@.next_id == old(self)@.next_id,
        {
            let (e, value) = item;
            self.add_edge(e, value);
        }
    }

    /// Adds the triangles with their payloads, in order, as `add_tri` does.
    pub fn extend_tris<D: Fn() -> E>(&mut self, items: Vec<(TriId, F)>, default_edge: D)
        requires
            old(self).wf(),
            call_requires(default_edge, ()),
            forall|i: int|
                0 <= i < items.len() ==> (#[trigger] items[i]).0.valid()
                    && old(self)@.vertices.contains_key(items[i].0@.0)
                    && old(self)@.vertices.contains_key(items[i].0@.1)
                    && old(self)@.vertices.contains_key(items[i].0@.2),
        ensures
            final(self).wf(),
            tris_added(old(self)@, final(self)@, items@, items.len() as nat),
            final(self)@.tris == tris_after(old(self)@.tris, items@, items.len() as nat),
            final(self)@.vertices == old(self)@.vertices,
            final(self)@.tets == old(self)@.tets,
            final(self)@.tet_opps == old(self)@.tet_opps,
            final(self)@.next_id == old(self)@.next_id,
            forall|e: EdgeKey| #[trigger]
                final(self)@.edges.contains_key(e) <==> old(self)@.edges.contains_key(e)
                    || edge_of_some(items@, items.len() as int, e),
            forall|e: EdgeKey| #[trigger]
                old(self)@.edges.contains_key(e) ==> final(self)@.edges[e] == old(self)@.edges[e],
            forall|e: EdgeKey|
                final(self)@.edges.contains_key(e) && !old(self)@.edges.contains_key(e)
                    ==> call_ensures(default_edge, (), #[trigger] final(self)@.edges[e]),
    {
        let ghost all = items@;
        for item in it: items
            invariant
                it.seq() == all,
                self.wf(),
                call_requires(default_edge, ()),
                forall|i: int|
                    0 <= i < all.len() ==> (#[trigger] all[i]).0.valid()
                        && old(self)@.vertices.contains_key(all[i].0@.0)
                        && old(self)@.vertices.contains_key(all[i].0@.1)
                        && old(self)@.vertices.contains_key(all[i].0@.2),
                tris_added(old(self)@, self@, all, it.index() as nat),
                self@.tris == tris_after(old(self)@.tris, all, it.index() as nat),
                self@.vertices == old(self)@.vertices,
                self@.tets == old(self)@.tets,
                self@.tet_opps == old(self)@.tet_opps,
                self@.next_id == old(self)@.next_id,
                forall|e: EdgeKey| #[trigger]
                    self@.edges.contains_key(e) <==> old(self)@.edges.contains_key(e)
                        || edge_of_some(all, it.index() as int, e),
                forall|e: EdgeKey| #[trigger]
                    old(self)@.edges.contains_key(e) ==> self@.edges[e] == old(self)@.edges[e],
                forall|e: EdgeKey|
                    self@.edges.contains_key(e) && !old(self)@.edges.contains_key(e)
                        ==> call_ensures(default_edge, (), #[trigger] self@.edges[e]),
        {
            let (tri, value) = item;
            let ghost before = self@;
            let ghost n = it.index() as int;
            proof {
                lemma_canon_tri(tri@.0, tri@.1, tri@.2);
            }
            let t = crate::simplex::canon3(tri.0[0].0, tri.0[1].0, tri.0[2].0);
            self.put_tri(t, value, &default_edge);
            proof {
                assert(all[n].0.key() == t);
                lemma_tris_added(old(self)@, before, self@, all, n as nat);
                assert forall|e: EdgeKey| #[trigger]
                    self@.edges.contains_key(e) <==> old(self)@.edges.contains_key(e)
                        || edge_of_some(all, n + 1, e) by {
                    if edge_of_some(all, n + 1, e) {
                        let i = choose|i: int| 0 <= i < n + 1 && #[trigger] tri_has_edge(all[i].0.key(), e);
                        if i < n {
                            assert(edge_of_some(all, n, e));
                        }
                    }
                    if before.edges.contains_key(e) && !old(self)@.edges.contains_key(e) {
                        let i = choose|i: int| 0 <= i < n && #[trigger] tri_has_edge(all[i].0.key(), e);
                        assert(tri_has_edge(all[i].0.key(), e));
                    }
                    if tri_has_edge(t, e) {
                        assert(tri_has_edge(all[n].0.key(), e));
                    }
                }
                assert forall|e: EdgeKey| #[trigger] old(self)@.edges.contains_key(e) implies self@.edges[e]
                    == old(self)@.edges[e] by {
                    assert(before.edges.contains_key(e));
                }
                assert forall|e: EdgeKey|
                    self@.edges.contains_key(e) && !old(self)@.edges.contains_key(e) implies call_ensures(
                    default_edge,
                    (),
                    #[trigger] self@.edges[e],
                ) by {
                    if before.edges.contains_key(e) {
                    }
                }
            }
        }
    }

    /// Adds the tetrahedra with their payloads, in order, as `add_tet` does.
    pub fn extend_tets<D: Fn() -> E, G: Fn() -> F>(
        &mut self,
        items: Vec<(TetId, T)>,
        default_edge: D,
        default_tri: G,
    )
        requires
            old(self).wf(),
            call_requires(default_edge, ()),
            call_requires(default_tri, ()),
            forall|i: int|
                0 <= i < items.len() ==> (#[trigger] items[i]).0.valid()
                    && old(self)@.vertices.contains_key(items[i].0@.0)
                    && old(self)@.vertices.contains_key(items[i].0@.1)
                    && old(self)@.vertices.contains_key(items[i].0@.2)
                    && old(self)@.vertices.contains_key(items[i].0@.3),
        ensures
            final(self).wf(),
            tets_added(old(self)@, final(self)@, items@, items.len() as nat, MWB),
            final(self)@.tets == tets_after(old(self)@.tets, items@, items.len() as nat, MWB),
            final(self)@.vertices == old(self)@.vertices,
            final(self)@.next_id == old(self)@.next_id,
            forall|f: TriKey| #[trigger]
                final(self)@.tris.contains_key(f) <==> old(self)@.tris.contains_key(f)
                    || face_of_some(items@, items.len() as int, f),
            forall|f: TriKey| #[trigger]
                old(self)@.tris.contains_key(f) ==> final(self)@.tris[f] == old(self)@.tris[f],
            forall|f: TriKey|
                final(self)@.tris.contains_key(f) && !old(self)@.tris.contains_key(f)
                    ==> call_ensures(default_tri, (), #[trigger] final(self)@.tris[f]),
            forall|e: EdgeKey| #[trigger]
                final(self)@.edges.contains_key(e) <==> old(self)@.edges.contains_key(e)
                    || tet_edge_of_some(items@, items.len() as int, e),
            forall|e: EdgeKey| #[trigger]
                old(self)@.edges.contains_key(e) ==> final(self)@.edges[e] == old(self)@.edges[e],
            forall|e: EdgeKey|
                final(self)@.edges.contains_key(e) && !old(self)@.edges.contains_key(e)
                    ==> call_ensures(default_edge, (), #[trigger] final(self)@.edges[e]),
    {
        let ghost all = items@;
        proof {
            lemma_tets_added_none(self@, all, MWB);
        }
        for item in it: items
            invariant
                it.seq() == all,
                self.wf(),
                call_requires(default_edge, ()),
                call_requires(default_tri, ()),
                forall|i: int|
                    0 <= i < all.len() ==> (#[trigger] all[i]).0.valid()
                        && old(self)@.vertices.contains_key(all[i].0@.0)
                        && old(self)@.vertices.contains_key(all[i].0@.1)
                        && old(self)@.vertices.contains_key(all[i].0@.2)
                        && old(self)@.vertices.contains_key(all[i].0@.3),
                tets_added(old(self)@, self@, all, it.index() as nat, MWB),
                self@.tets == tets_after(old(self)@.tets, all, it.index() as nat, MWB),
                self@.vertices == old(self)@.vertices,
                self@.next_id == old(self)@.next_id,
                forall|f: TriKey| #[trigger]
                    self@.tris.contains_key(f) <==> old(self)@.tris.contains_key(f)
                        || face_of_some(all, it.index() as int, f),
                forall|f: TriKey| #[trigger]
                    old(self)@.tris.contains_key(f) ==> self@.tris[f] == old(self)@.tris[f],
                forall|f: TriKey|
                    self@.tris.contains_key(f) && !old(self)@.tris.contains_key(f)
                        ==> call_ensures(default_tri, (), #[trigger] self@.tris[f]),
                forall|e: EdgeKey| #[trigger]
                    self@.edges.contains_key(e) <==> old(self)@.edges.contains_key(e)
                        || tet_edge_of_some(all, it.index() as int, e),
                forall|e: EdgeKey| #[trigger]
                    old(self)@.edges.contains_key(e) ==> self@.edges[e] == old(self)@.edges[e],
                forall|e: EdgeKey|
                    self@.edges.contains_key(e) && !old(self)@.edges.contains_key(e)
                        ==> call_ensures(default_edge, (), #[trigger] self@.edges[e]),
        {
            let (tet, value) = item;
            let ghost before = self@;
            let ghost n = it.index() as int;
            proof {
                lemma_canon_tet(tet@.0, tet@.1, tet@.2, tet@.3);
            }
            let t = crate::simplex::canon4(tet.0[0].0, tet.0[1].0, tet.0[2].0, tet.0[3].0);
            self.put_tet(t, value, &default_edge, &default_tri);
            proof {
                assert(all[n].0.key() == t);
                lemma_tets_added(old(self)@, before, self@, all, n as nat, MWB);
                assert forall|f: TriKey| #[trigger]
                    self@.tris.contains_key(f) <==> old(self)@.tris.contains_key(f)
                        || face_of_some(all, n + 1, f) by {
                    if face_of_some(all, n + 1, f) {
                        let i = choose|i: int| 0 <= i < n + 1 && #[trigger] tet_has_face(all[i].0.key(), f);
                        if i < n {
                            assert(face_of_some(all, n, f));
                        }
                    }
                    if before.tris.contains_key(f) && !old(self)@.tris.contains_key(f) {
                        let i = choose|i: int| 0 <= i < n && #[trigger] tet_has_face(all[i].0.key(), f);
                        assert(tet_has_face(all[i].0.key(), f));
                    }
                    if tet_has_face(t, f) {
                        assert(tet_has_face(all[n].0.key(), f));
                    }
                }
                assert forall|e: EdgeKey| #[trigger]
                    self@.edges.contains_key(e) <==> old(self)@.edges.contains_key(e)
                        || tet_edge_of_some(all, n + 1, e) by {
                    if tet_edge_of_some(all, n + 1, e) {
                        let i = choose|i: int| 0 <= i < n + 1 && #[trigger] tet_has_edge(all[i].0.key(), e);
                        if i < n {
                            assert(tet_edge_of_some(all, n, e));
                        }
                    }
                    if before.edges.contains_key(e) && !old(self)@.edges.contains_key(e) {
                        let i = choose|i: int| 0 <= i < n && #[trigger] tet_has_edge(all[i].0.key(), e);
                        assert(tet_has_edge(all[i].0.key(), e));
                    }
                    if tet_has_edge(t, e) {
                        assert(tet_has_edge(all[n].0.key(), e));
                    }
                }
                assert forall|f: TriKey| #[trigger] old(self)@.tris.contains_key(f) implies self@.tris[f]
                    == old(self)@.tris[f] by {
                    assert(before.tris.contains_key(f));
                }
                assert forall|e: EdgeKey| #[trigger] old(self)@.edges.contains_key(e) implies self@.edges[e]
                    == old(self)@.edges[e] by {
                    assert(before.edges.contains_key(e));
                }
                assert forall|f: TriKey|
                    self@.tris.contains_key(f) && !old(self)@.tris.contains_key(f) implies call_ensures(
                    default_tri,
                    (),
                    #[trigger] self@.tris[f],
                ) by {
                    if before.tris.contains_key(f) {
                    }
                }
                assert forall|e: EdgeKey|
                    self@.edges.contains_key(e) && !old(self)@.edges.contains_key(e) implies call_ensures(
                    default_edge,
                    (),
                    #[trigger] self@.edges[e],
                ) by {
                    if before.edges.contains_key(e) {
                    }
                }
            }
        }
    }

    /// Removes every tetrahedron. Triangles, edges and vertices stay.
    pub fn clear_tets(&mut self)
        requires
            old(self).wf(),
        ensures
            final(self).wf(),
            final(self)@.tets == Map::<TetKey, T>::empty(),
            final(self)@.tris == old(self)@.tris,
            final(self)@.edges == old(self)@.edges,
            final(self)@.vertices == old(self)@.vertices,
            final(self)@.targets == old(self)@.targets,
            final(self)@.sources == old(self)@.sources,
            final(self)@.tri_opps == old(self)@.tri_opps,
            final(self)@.next_id == old(self)@.next_id,
    {
        let ids = self.tet_ids();
        let mut i: usize = 0;
        while i < ids.len()
            invariant
                0 <= i <= ids.len(),
                self.wf(),
                old(self).wf(),
                forall|k: int| 0 <= k < ids.len() ==> old(self)@.tets.contains_key((#[trigger] ids[k])@),
                forall|t: TetKey| #[trigger]
                    self@.tets.contains_key(t) ==> old(self)@.tets.contains_key(t),
                forall|k: int| 0 <= k < i ==> !self@.tets.contains_key((#[trigger] ids[k])@),
                self@.tris == old(self)@.tris,
                self@.edges == old(self)@.edges,
                self@.vertices == old(self)@.vertices,
                self@.targets == old(self)@.targets,
                self@.sources == old(self)@.sources,
                self@.tri_opps == old(self)@.tri_opps,
                self@.next_id == old(self)@.next_id,
            decreases ids.len() - i,
        {
            proof {
                assert(old(self)@.tets.contains_key(ids[i as int]@));
                crate::simplex::lemma_canon_tet_fixed(ids[i as int]@);
            }
            self.remove_tet(ids[i]);
            i = i + 1;
        }
        proof {
            assert forall|t: TetKey| !self@.tets.contains_key(t) by {
                if self@.tets.contains_key(t) {
                    let k = choose|k: int| 0 <= k < ids.len() && ids[k]@ == t;
                    assert(!self@.tets.contains_key(ids[k]@));
                }
            }
            assert(self@.tets =~= Map::<TetKey, T>::empty());
        }
    }

    /// Removes every triangle, and with them every tetrahedron. Edges and
    /// vertices stay.
    pub fn clear_tris(&mut self)
        requires
            old(self).wf(),
        ensures
            final(self).wf(),
            final(self)@.tets == Map::<TetKey, T>::empty(),
            final(self)@.tris == Map::<TriKey, F>::empty(),
            final(self)@.edges == old(self)@.edges,
            final(self)@.vertices == old(self)@.vertices,
            final(self)@.targets == old(self)@.targets,
            final(self)@.sources == old(self)@.sources,
            final(self)@.next_id == old(self)@.next_id,
    {
        self.clear_tets();
        let ids = self.tri_ids();
        let ghost start = self@;
        let mut i: usize = 0;
        while i < ids.len()
            invariant
                0 <= i <= ids.len(),
                self.wf(),
                start.wf(MWB),
                forall|k: int| 0 <= k < ids.len() ==> start.tris.contains_key((#[trigger] ids[k])@),
                forall|t: TriKey| #[trigger] self@.tris.contains_key(t) ==> start.tris.contains_key(t),
                forall|k: int| 0 <= k < i ==> !self@.tris.contains_key((#[trigger] ids[k])@),
                self@.tets == Map::<TetKey, T>::empty(),
                self@.edges == old(self)@.edges,
                self@.vertices == old(self)@.vertices,
                self@.targets == old(self)@.targets,
                self@.sources == old(self)@.sources,
                self@.next_id == old(self)@.next_id,
            decreases ids.len() - i,
        {
            proof {
                assert(start.tris.contains_key(ids[i as int]@));
                crate::simplex::lemma_canon_tri_fixed(ids[i as int]@);
            }
            let ghost before = self@;
            self.remove_tri(ids[i]);
            proof {
                assert(self@.tets =~= Map::<TetKey, T>::empty());
            }
            i = i + 1;
        }
        proof {
            assert forall|t: TriKey| !self@.tris.contains_key(t) by {
                if self@.tris.contains_key(t) {
                    let k = choose|k: int| 0 <= k < ids.len() && ids[k]@ == t;
                    assert(!self@.tris.contains_key(ids[k]@));
                }
            }
            assert(self@.tris =~= Map::<TriKey, F>::empty());
        }
    }

    /// Removes every edge, and with them every triangle and tetrahedron.
    /// Vertices stay.
    pub fn clear_edges(&mut self)
        requires
            old(self).wf(),
        ensures
            final(self).wf(),
            final(self)@.tets == Map::<TetKey, T>::empty(),
            final(self)@.tris == Map::<TriKey, F>::empty(),
            final(self)@.edges == Map::<EdgeKey, E>::empty(),
            final(self)@.vertices == old(self)@.vertices,
            final(self)@.next_id == old(self)@.next_id,
    {
        self.clear_tris();
        let ids = self.edge_ids();
        let ghost start = self@;
        let mut i: usize = 0;
        while i < ids.len()
            invariant
                0 <= i <= ids.len(),
                self.wf(),
                forall|k: int| 0 <= k < ids.len() ==> start.edges.contains_key((#[trigger] ids[k])@),
                forall|e: EdgeKey| #[trigger] self@.edges.contains_key(e) ==> start.edges.contains_key(e),
                forall|k: int| 0 <= k < i ==> !self@.edges.contains_key((#[trigger] ids[k])@),
                self@.tets == Map::<TetKey, T>::empty(),
                self@.tris == Map::<TriKey, F>::empty(),
                self@.vertices == old(self)@.vertices,
                self@.next_id == old(self)@.next_id,
            decreases ids.len() - i,
        {
            self.remove_edge(ids[i]);
            proof {
                assert(self@.tets =~= Map::<TetKey, T>::empty());
                assert(self@.tris =~= Map::<TriKey, F>::empty());
            }
            i = i + 1;
        }
        proof {
            assert forall|e: EdgeKey| !self@.edges.contains_key(e) by {
                if self@.edges.contains_key(e) {
                    let k = choose|k: int| 0 <= k < ids.len() && ids[k]@ == e;
                    assert(!self@.edges.contains_key(ids[k]@));
                }
            }
            assert(self@.edges =~= Map::<EdgeKey, E>::empty());
        }
    }

    /// Removes every vertex, and with them every edge, triangle and
    /// tetrahedron. The numbers that were handed out stay used.
    pub fn clear_vertices(&mut self)
        requires
            old(self).wf(),
        ensures
            final(self).wf(),
            final(self)@.tets == Map::<TetKey, T>::empty(),
            final(self)@.tris == Map::<TriKey, F>::empty(),
            final(self)@.edges == Map::<EdgeKey, E>::empty(),
            final(self)@.vertices == Map::<u32, V>::empty(),
            final(self)@.next_id == old(self)@.next_id,
    {
        self.clear_edges();
        let ids = self.vertex_ids();
        let ghost start = self@;
        let mut i: usize = 0;
        while i < ids.len()
            invariant
                0 <= i <= ids.len(),
                self.wf(),
                forall|v: u32|
                    start.vertices.contains_key(v) ==> exists|k: int|
                        0 <= k < ids.len() && ids[k].0 == v,
                forall|v: u32| #[trigger] self@.vertices.contains_key(v) ==> start.vertices.contains_key(v),
                forall|k: int| 0 <= k < i ==> !self@.vertices.contains_key((#[trigger] ids[k]).0),
                self@.tets == Map::<TetKey, T>::empty(),
                self@.tris == Map::<TriKey, F>::empty(),
                self@.edges == Map::<EdgeKey, E>::empty(),
                self@.next_id == old(self)@.next_id,
            decreases ids.len() - i,
        {
            self.remove_vertex(ids[i]);
            proof {
                assert(self@.tets =~= Map::<TetKey, T>::empty());
                assert(self@.tris =~= Map::<TriKey, F>::empty());
                assert(self@.edges =~= Map::<EdgeKey, E>::empty());
            }
            i = i + 1;
        }
        proof {
            assert forall|v: u32| !self@.vertices.contains_key(v) by {
                if self@.vertices.contains_key(v) {
                    let k = choose|k: int| 0 <= k < ids.len() && ids[k].0 == v;
                    assert(!self@.vertices.contains_key(ids[k].0));
                }
            }
            assert(self@.vertices =~= Map::<u32, V>::empty());
        }
    }
}

} // verus!
