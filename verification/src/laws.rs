//! What holds of every mesh and of every run of its operations.
//!
//! Each operation of the mesh asks for a mesh that is in order and hands
//! back one that is in order, so what holds of a mesh in order holds after
//! any sequence of them.

use vstd::prelude::*;
use crate::simplex::{
    EdgeKey, TriKey, TetKey, is_canon_tet, canon_tet, tet_face, tri_has_vertex, tet_has_vertex,
    tet_has_face, collides,
};
use crate::view::MeshView;
use crate::ids::VertexId;
use crate::tetrahedralize::{made_by, starts, hulled, first_tets, hull_tet, real_tets};

verus! {

/// A mesh in order is closed under taking faces: every triangle has its three
/// directed edges in the mesh, and every tetrahedron its four oriented
/// faces.
pub proof fn law_closure<V, E, F, T>(m: MeshView<V, E, F, T>, mwb: bool)
    requires
        m.wf(mwb),
    ensures
        forall|t: TriKey| #[trigger]
            m.tris.contains_key(t) ==> m.edges.contains_key((t.0, t.1)) && m.edges.contains_key(
                (t.1, t.2),
            ) && m.edges.contains_key((t.2, t.0)),
        forall|x: TetKey, i: int|
            m.tets.contains_key(x) && 0 <= i < 4 ==> m.tris.contains_key(#[trigger] tet_face(x, i)),
{
    assert forall|x: TetKey, i: int| m.tets.contains_key(x) && 0 <= i < 4 implies m.tris.contains_key(
        #[trigger] tet_face(x, i),
    ) by {
        assert(m.tris.contains_key(tet_face(x, 0)));
        assert(m.tris.contains_key(tet_face(x, 1)));
        assert(m.tris.contains_key(tet_face(x, 2)));
        assert(m.tris.contains_key(tet_face(x, 3)));
    }
}

/// Once a vertex was removed, no edge, triangle or tetrahedron of the mesh
/// has it.
pub proof fn law_cascade<V, E, F, T>(pre: MeshView<V, E, F, T>, post: MeshView<V, E, F, T>, v: u32)
    requires
        pre.vertex_gone(post, v),
    ensures
        !post.vertices.contains_key(v),
        forall|e: EdgeKey| #[trigger] post.edges.contains_key(e) ==> e.0 != v && e.1 != v,
        forall|t: TriKey| #[trigger] post.tris.contains_key(t) ==> !tri_has_vertex(t, v),
        forall|x: TetKey| #[trigger] post.tets.contains_key(x) ==> !tet_has_vertex(x, v),
{
}

/// Adding a tetrahedron twice leaves it once, with the second payload: the
/// second `add_tet` finds the first payload to hand back, replaces it, and
/// adds and removes no tetrahedron.
pub proof fn law_replace<V, E, F, T>(
    m0: MeshView<V, E, F, T>,
    m1: MeshView<V, E, F, T>,
    m2: MeshView<V, E, F, T>,
    k: TetKey,
    x: T,
    y: T,
    mwb: bool,
)
    requires
        is_canon_tet(k),
        m0.tet_put(m1, k, x, mwb),
        m1.wf(mwb),
        m1.tet_put(m2, k, y, mwb),
    ensures
        m1.tets.get(k) == Some(x),
        m2.tets.get(k) == Some(y),
        m2.tets.dom() == m1.tets.dom(),
        forall|t: TetKey| m1.tets.contains_key(t) && t != k ==> m2.tets[t] == m1.tets[t],
{
    if mwb {
        assert forall|t: TetKey| m1.tets.contains_key(t) && collides(t, k) implies t == k by {
            m1.lemma_exclusive(t, k);
        }
    }
    assert(m2.tets.dom() =~= m1.tets.dom());
}

/// In a mesh where no face may belong to two tetrahedra, no two tetrahedra
/// have an oriented face in common.
pub proof fn law_exclusive<V, E, F, T>(m: MeshView<V, E, F, T>, x: TetKey, t: TetKey, f: TriKey)
    requires
        m.wf(true),
        m.tets.contains_key(x),
        m.tets.contains_key(t),
        tet_has_face(x, f),
        tet_has_face(t, f),
    ensures
        x == t,
{
    assert(collides(x, t));
    m.lemma_exclusive(x, t);
}

/// Where no face may belong to two tetrahedra, `add_tet` removes the
/// tetrahedra that have a face of the new one, and no other.
pub proof fn law_collision<V, E, F, T>(
    pre: MeshView<V, E, F, T>,
    post: MeshView<V, E, F, T>,
    k: TetKey,
    value: T,
)
    requires
        pre.tet_put(post, k, value, true),
    ensures
        forall|x: TetKey|
            #![trigger pre.tets.contains_key(x)]
            #![trigger post.tets.contains_key(x)]
            x != k ==> (post.tets.contains_key(x) <==> pre.tets.contains_key(x) && !collides(x, k)),
        forall|x: TetKey| #[trigger]
            post.tets.contains_key(x) && x != k ==> post.tets[x] == pre.tets[x],
{
}

/// The tetrahedralization of four vertices is one tetrahedron: that of the
/// four in the order of their listing from the last to the first where
/// `orient` holds of them so, and else with the last two of these swapped.
/// No tetrahedron with the ghost vertex is left.
pub proof fn law_four_vertices<V, E, F, T, O, S>(
    orig: MeshView<V, E, F, T>,
    ghost_value: V,
    orient: O,
    in_sphere: S,
    ids: Seq<VertexId>,
    hist: Seq<MeshView<V, E, F, T>>,
    result: MeshView<V, E, F, T>,
) where
    O: Fn(VertexId, VertexId, VertexId, VertexId) -> bool,
    S: Fn(VertexId, VertexId, VertexId, VertexId, VertexId) -> bool,

    requires
        orig.wf(true),
        made_by(orig, ghost_value, orient, in_sphere, ids, hist, result),
        ids.len() == 4,
    ensures
        (call_ensures(orient, (ids[3], ids[2], ids[1], ids[0]), true) && result.tets.dom()
            =~= Set::<TetKey>::empty().insert(canon_tet(ids[3].0, ids[2].0, ids[1].0, ids[0].0)))
            || (call_ensures(orient, (ids[3], ids[2], ids[1], ids[0]), false) && result.tets.dom()
            =~= Set::<TetKey>::empty().insert(canon_tet(ids[3].0, ids[2].0, ids[0].0, ids[1].0))),
{
    let g = orig.next_id;
    let a = ids[3].0;
    let b = ids[2].0;
    let c = ids[1].0;
    let d = ids[0].0;
    assert(orig.vertices.contains_key(ids[0].0) && orig.vertices.contains_key(ids[1].0)
        && orig.vertices.contains_key(ids[2].0) && orig.vertices.contains_key(ids[3].0));
    assert(a < g && b < g && c < g && d < g);
    assert(d < c < b < a);
    assert(hist.last() == hist[0]);
    assert(starts(ids, g, orient, orig.add_vertex(ghost_value), hist[0]));
    let t = if exists|mids: Seq<MeshView<V, E, F, T>>| #[trigger]
        hulled(orig.add_vertex(ghost_value), hist[0], canon_tet(a, b, c, d), g, mids)
        && call_ensures(orient, (ids[3], ids[2], ids[1], ids[0]), true) {
        canon_tet(a, b, c, d)
    } else {
        canon_tet(a, b, d, c)
    };
    assert(hist[0].tets.dom() =~= first_tets(t, g));
    lemma_real_first(t, g);
    assert(result.tets.dom() =~= Set::<TetKey>::empty().insert(t));
}

// Of the first tetrahedron and the ghost tetrahedra around it, the first
// alone is without the ghost vertex.
proof fn lemma_real_first(t: TetKey, g: u32)
    requires
        !tet_has_vertex(t, g),
    ensures
        real_tets(first_tets(t, g), g) =~= Set::<TetKey>::empty().insert(t),
{
    assert(tet_has_vertex(hull_tet(tet_face(t, 0), g), g));
    assert(tet_has_vertex(hull_tet(tet_face(t, 1), g), g));
    assert(tet_has_vertex(hull_tet(tet_face(t, 2), g), g));
    assert(tet_has_vertex(hull_tet(tet_face(t, 3), g), g));
}

} // verus!
