//! Incidence queries across two dimensions: the triangles and tetrahedra at
//! a vertex, the tetrahedra at an edge, the tetrahedra next to a tetrahedron.

use vstd::prelude::*;
use crate::simplex::{
    TriKey, TetKey, canon_tri, canon_tet, is_canon_tet, tet_face, tri_has_edge, tri_has_vertex, tet_has_face,
    tet_has_edge, tet_has_vertex, tri_twin, lead_face, adjacent, canon3, star4, lemma_canon_tri,
    lemma_face_gives_tet, lemma_tet_edge_on_face, lemma_lead_face, lemma_edge_from_vertex,
    lemma_one_face_with_edge, lemma_face_edge, lemma_star_form,
};
use crate::ids::{
    VertexId, EdgeId, TriId, TetId, holds_tri, holds_tet, distinct_tris, distinct_tets,
};
use crate::mesh::Mesh;
use crate::view::MeshView;

verus! {

/// The triangles of the list as triples.
pub open spec fn tri_keys(s: Seq<TriId>) -> Seq<TriKey> {
    Seq::new(s.len(), |i: int| s[i]@)
}

/// The tetrahedra of the list as quadruples.
pub open spec fn tet_keys(s: Seq<TetId>) -> Seq<TetKey> {
    Seq::new(s.len(), |i: int| s[i]@)
}

/// The triangles that the edge from `a` to `b` makes with the members of a
/// ring, in the order of the ring.
pub open spec fn tris_on(a: u32, b: u32, ring: Seq<u32>) -> Seq<TriKey> {
    Seq::new(ring.len(), |i: int| canon_tri(a, b, ring[i]))
}

/// The tetrahedra that the triangle `f` makes with the members of a ring,
/// in the order of the ring.
pub open spec fn tets_on(f: TriKey, ring: Seq<u32>) -> Seq<TetKey> {
    Seq::new(ring.len(), |i: int| canon_tet(f.0, f.1, f.2, ring[i]))
}

/// The triangles around the first `n` edges that leave `v`, edge by edge
/// in the ring of targets of `v`, and for each edge in the order of the ring
/// around it.
pub open spec fn tris_at<V, E, F, T>(m: MeshView<V, E, F, T>, v: u32, n: nat) -> Seq<TriKey>
    decreases n,
{
    if n == 0 {
        Seq::empty()
    } else {
        tris_at(m, v, (n - 1) as nat) + tris_on(
            v,
            m.targets[v][n - 1],
            m.tri_opps[(v, m.targets[v][n - 1])],
        )
    }
}

/// The tetrahedra around the first `n` of the triangles, triangle by
/// triangle, and for each triangle in the order of the ring around it.
pub open spec fn tets_along<V, E, F, T>(m: MeshView<V, E, F, T>, tris: Seq<TriKey>, n: nat) -> Seq<
    TetKey,
>
    decreases n,
{
    if n == 0 {
        Seq::empty()
    } else {
        tets_along(m, tris, (n - 1) as nat) + tets_on(tris[n - 1], m.tet_opps[tris[n - 1]])
    }
}

/// Those of the first `n` tetrahedra of the list whose lead face at `v` is
/// `f`, in the order of the list.
pub open spec fn led(s: Seq<TetKey>, v: u32, f: TriKey, n: nat) -> Seq<TetKey>
    decreases n,
{
    if n == 0 {
        Seq::empty()
    } else if lead_face(s[n - 1], v) == f {
        led(s, v, f, (n - 1) as nat).push(s[n - 1])
    } else {
        led(s, v, f, (n - 1) as nat)
    }
}

/// The tetrahedra around the first `n` of the triangles that the triangle
/// leads at `v`, triangle by triangle, and for each triangle in the order
/// of the ring around it.
pub open spec fn tets_led<V, E, F, T>(
    m: MeshView<V, E, F, T>,
    v: u32,
    tris: Seq<TriKey>,
    n: nat,
) -> Seq<TetKey>
    decreases n,
{
    if n == 0 {
        Seq::empty()
    } else {
        tets_led(m, v, tris, (n - 1) as nat) + led(
            tets_on(tris[n - 1], m.tet_opps[tris[n - 1]]),
            v,
            tris[n - 1],
            m.tet_opps[tris[n - 1]].len(),
        )
    }
}

/// The other sides of the four faces of the tetrahedron, from the face
/// opposite its first vertex to the face opposite its last.
pub open spec fn far_sides(x: TetKey) -> Seq<TriKey> {
    seq![
        tri_twin(tet_face(x, 0)),
        tri_twin(tet_face(x, 1)),
        tri_twin(tet_face(x, 2)),
        tri_twin(tet_face(x, 3)),
    ]
}

// Puts the items behind what `out` holds.
fn append<A: Copy>(out: &mut Vec<A>, items: &Vec<A>)
    ensures
        final(out)@ == old(out)@ + items@,
{
    let mut j: usize = 0;
    while j < items.len()
        invariant
            0 <= j <= items.len(),
            out@ == old(out)@ + items@.subrange(0, j as int),
        decreases items.len() - j,
    {
        out.push(items[j]);
        proof {
            assert(items@.subrange(0, j + 1) == items@.subrange(0, j as int).push(items@[j as int]));
        }
        j = j + 1;
    }
    proof {
        assert(items@.subrange(0, items.len() as int) == items@);
    }
}

// Whether the triangle has an edge from `v` to one of the first `n` members
// of the ring.
spec fn edge_among(t: TriKey, v: u32, ring: Seq<u32>, n: int) -> bool {
    exists|p: int| 0 <= p < n && #[trigger] tri_has_edge(t, (v, ring[p]))
}

// Whether the tetrahedron has one of the first `n` triangles as a face.
spec fn face_among(t: TetKey, tris: Seq<TriId>, n: int) -> bool {
    exists|p: int| 0 <= p < n && #[trigger] tet_has_face(t, tris[p]@)
}

// Whether the tetrahedron has one of the first `n` triangles as its lead
// face at `v`.
spec fn lead_among(t: TetKey, v: u32, tris: Seq<TriId>, n: int) -> bool {
    exists|p: int| 0 <= p < n && lead_face(t, v) == (#[trigger] tris[p])@
}

// Puts behind what `out` holds those of the tetrahedra around `f` whose lead
// face at `v` is `f`.
fn append_led(out: &mut Vec<TetId>, more: &Vec<TetId>, v: u32, f: (u32, u32, u32))
    requires
        distinct_tets(more@),
    ensures
        final(out).len() >= old(out).len(),
        final(out)@.subrange(0, old(out).len() as int) == old(out)@,
        tet_keys(final(out)@) =~= tet_keys(old(out)@) + led(
            tet_keys(more@),
            v,
            f,
            more.len() as nat,
        ),
        distinct_tets(final(out)@.subrange(old(out).len() as int, final(out).len() as int)),
        forall|k: int|
            old(out).len() <= k < final(out).len() ==> holds_tet(more@, (#[trigger] final(out)[k])@)
                && lead_face(final(out)[k]@, v) == f,
        forall|q: int|
            0 <= q < more.len() && lead_face((#[trigger] more[q])@, v) == f ==> holds_tet(
                final(out)@.subrange(old(out).len() as int, final(out).len() as int),
                more[q]@,
            ),
{
    let ghost n0 = out.len() as int;
    let mut j: usize = 0;
    let ghost mut src: Seq<int> = Seq::empty();
    while j < more.len()
        invariant
            0 <= j <= more.len(),
            n0 == old(out).len(),
            out.len() == n0 + src.len(),
            out@.subrange(0, n0) == old(out)@,
            tet_keys(out@) =~= tet_keys(old(out)@) + led(tet_keys(more@), v, f, j as nat),
            distinct_tets(more@),
            forall|k: int| 0 <= k < src.len() ==> 0 <= #[trigger] src[k] < j,
            forall|k1: int, k2: int|
                0 <= k1 < k2 < src.len() ==> (#[trigger] src[k1]) < (#[trigger] src[k2]),
            forall|k: int|
                n0 <= k < out.len() ==> (#[trigger] out[k]) == more[src[k - n0]] && lead_face(
                    out[k]@,
                    v,
                ) == f,
            forall|q: int|
                0 <= q < j && lead_face((#[trigger] more[q])@, v) == f ==> src.contains(q),
        decreases more.len() - j,
    {
        let x: TetId = more[j];
        let s = star4((x.0[0].0, x.0[1].0, x.0[2].0, x.0[3].0), v);
        let g = canon3(s.0, s.1, s.2);
        proof {
            assert(x@ == (x.0[0].0, x.0[1].0, x.0[2].0, x.0[3].0));
            assert(lead_face(x@, v) == g);
            assert(tet_keys(more@)[j as int] == x@);
            assert(((j + 1) as nat - 1) as nat == j as nat);
        }
        if g.0 == f.0 && g.1 == f.1 && g.2 == f.2 {
            let ghost old_src = src;
            let ghost old_out = out@;
            out.push(x);
            proof {
                src = src.push(j as int);
                assert(out@.subrange(0, n0) == old_out.subrange(0, n0));
                assert(tet_keys(out@) =~= tet_keys(old_out).push(x@));
                assert(x@ == (x.0[0].0, x.0[1].0, x.0[2].0, x.0[3].0));
                assert(lead_face(x@, v) == g);
                assert(g == f);
                assert forall|k: int| n0 <= k < out.len() implies (#[trigger] out[k]) == more[src[k
                    - n0]] && lead_face(out[k]@, v) == f by {
                    if k < old_out.len() {
                        assert(out[k] == old_out[k]);
                        assert(src[k - n0] == old_src[k - n0]);
                    }
                }
                assert forall|q: int|
                    0 <= q < j + 1 && lead_face((#[trigger] more[q])@, v) == f implies src.contains(
                    q,
                ) by {
                    if q < j {
                        let k = choose|k: int| 0 <= k < old_src.len() && old_src[k] == q;
                        assert(src[k] == q);
                    } else {
                        assert(src[src.len() - 1] == q);
                    }
                }
            }
        }
        j = j + 1;
    }
    proof {
        let tail = out@.subrange(n0, out.len() as int);
        assert forall|k1: int, k2: int| 0 <= k1 < k2 < tail.len() implies (#[trigger] tail[k1])@
            != (#[trigger] tail[k2])@ by {
            assert(tail[k1] == out[n0 + k1] && tail[k2] == out[n0 + k2]);
            assert(src[k1] < src[k2]);
            assert(out[n0 + k1] == more[src[k1]]);
            assert(out[n0 + k2] == more[src[k2]]);
        }
        assert forall|k: int| n0 <= k < out.len() implies holds_tet(more@, (#[trigger] out[k])@)
            && lead_face(out[k]@, v) == f by {
            assert(out[k] == more[src[k - n0]]);
        }
        assert forall|q: int|
            0 <= q < more.len() && lead_face((#[trigger] more[q])@, v) == f implies holds_tet(
            tail,
            more[q]@,
        ) by {
            let k = choose|k: int| 0 <= k < src.len() && src[k] == q;
            assert(out[n0 + k] == more[src[n0 + k - n0]]);
            assert(tail[k] == more[q]);
        }
    }
}

impl<V, E, F, T, const MWB: bool> Mesh<V, E, F, T, MWB> {
    /// The triangles at the vertex `v`: exactly the triangles of the mesh
    /// that have `v` as a vertex, each once. They come edge by edge in the
    /// ring of the edges that leave `v`, and for each edge in the order of
    /// the ring around it.
    pub fn vertex_tris(&self, v: VertexId) -> (r: Vec<TriId>)
        requires
            self.wf(),
        ensures
            tri_keys(r@) =~= tris_at(self@, v.0, self@.targets[v.0].len()),
            distinct_tris(r@),
            forall|t: TriKey|
                #![trigger self@.tris.contains_key(t)]
                #![trigger holds_tri(r@, t)]
                holds_tri(r@, t) <==> self@.tris.contains_key(t) && tri_has_vertex(t, v.0),
    {
        let targets = self.vertex_targets(v);
        let ghost ring = self@.targets[v.0];
        let mut r: Vec<TriId> = Vec::new();
        let mut i: usize = 0;
        while i < targets.len()
            invariant
                0 <= i <= targets.len(),
                self.wf(),
                ring == self@.targets[v.0],
                targets.len() == ring.len(),
                forall|k: int| 0 <= k < targets.len() ==> (#[trigger] targets[k]).0 == ring[k],
                tri_keys(r@) =~= tris_at(self@, v.0, i as nat),
                forall|k: int|
                    0 <= k < r.len() ==> self@.tris.contains_key((#[trigger] r[k])@) && edge_among(
                        r[k]@,
                        v.0,
                        ring,
                        i as int,
                    ),
                forall|t: TriKey|
                    #![trigger holds_tri(r@, t)]
                    self@.tris.contains_key(t) && edge_among(t, v.0, ring, i as int) ==> holds_tri(
                        r@,
                        t,
                    ),
                distinct_tris(r@),
            decreases targets.len() - i,
        {
            let b: VertexId = targets[i];
            let more = self.edge_tris(EdgeId([v, b]));
            let ghost before = r@;
            append(&mut r, &more);
            proof {
                let n0 = before.len() as int;
                assert(tri_keys(more@) =~= tris_on(v.0, b.0, self@.tri_opps[(v.0, b.0)]));
                assert(tri_keys(r@) =~= tri_keys(before) + tri_keys(more@));
                assert forall|k: int| 0 <= k < r.len() implies self@.tris.contains_key(
                    (#[trigger] r[k])@,
                ) && edge_among(r[k]@, v.0, ring, i + 1) by {
                    if k < n0 {
                        assert(r[k] == before[k]);
                        let p = choose|p: int|
                            0 <= p < i && #[trigger] tri_has_edge(before[k]@, (v.0, ring[p]));
                        assert(tri_has_edge(r[k]@, (v.0, ring[p])));
                    } else {
                        assert(r[k] == more[k - n0]);
                        assert(holds_tri(more@, r[k]@));
                        assert(tri_has_edge(r[k]@, (v.0, ring[i as int])));
                    }
                }
                assert forall|t: TriKey|
                    #![trigger holds_tri(r@, t)]
                    self@.tris.contains_key(t) && edge_among(t, v.0, ring, i + 1) implies holds_tri(
                    r@,
                    t,
                ) by {
                    let p = choose|p: int| 0 <= p < i + 1 && #[trigger] tri_has_edge(t, (v.0, ring[p]));
                    if p < i {
                        assert(edge_among(t, v.0, ring, i as int));
                        assert(holds_tri(before, t));
                        let k = choose|k: int| 0 <= k < before.len() && (#[trigger] before[k])@ == t;
                        assert(r[k]@ == t);
                    } else {
                        assert(holds_tri(more@, t));
                        let q = choose|q: int| 0 <= q < more.len() && (#[trigger] more[q])@ == t;
                        assert(r[n0 + q]@ == t);
                    }
                }
                assert forall|k1: int, k2: int| 0 <= k1 < k2 < r.len() implies (#[trigger] r[k1])@
                    != (#[trigger] r[k2])@ by {
                    if k2 < n0 {
                        assert(r[k1] == before[k1] && r[k2] == before[k2]);
                    } else if k1 >= n0 {
                        assert(r[k1] == more[k1 - n0] && r[k2] == more[k2 - n0]);
                    } else {
                        assert(r[k1] == before[k1] && r[k2] == more[k2 - n0]);
                        let t = r[k2]@;
                        assert(holds_tri(more@, t));
                        if r[k1]@ == t {
                            let p = choose|p: int|
                                0 <= p < i && #[trigger] tri_has_edge(before[k1]@, (v.0, ring[p]));
                            assert(self@.tris.contains_key(t));
                            lemma_edge_from_vertex(t, v.0);
                            assert(ring[p] == ring[i as int]);
                            assert(ring.no_duplicates());
                        }
                    }
                }
            }
            i = i + 1;
        }
        proof {
            assert forall|t: TriKey|
                #![trigger self@.tris.contains_key(t)]
                #![trigger holds_tri(r@, t)]
                holds_tri(r@, t) <==> self@.tris.contains_key(t) && tri_has_vertex(t, v.0) by {
                if holds_tri(r@, t) {
                    let k = choose|k: int| 0 <= k < r.len() && (#[trigger] r[k])@ == t;
                    assert(self@.tris.contains_key(r[k]@));
                    let p = choose|p: int|
                        0 <= p < i && #[trigger] tri_has_edge(r[k]@, (v.0, ring[p]));
                }
                if self@.tris.contains_key(t) && tri_has_vertex(t, v.0) {
                    lemma_edge_from_vertex(t, v.0);
                    let (b, c) = choose|b: u32, c: u32|
                        tri_has_edge(t, (v.0, b)) && canon_tri(v.0, b, c) == t;
                    assert(self@.edges.contains_key((t.0, t.1)));
                    assert(self@.edges.contains_key((t.1, t.2)));
                    assert(self@.edges.contains_key((t.2, t.0)));
                    assert(self@.edges.contains_key((v.0, b)));
                    assert(ring.contains(b));
                    let p = choose|p: int| 0 <= p < ring.len() && ring[p] == b;
                    assert(tri_has_edge(t, (v.0, ring[p])));
                    assert(edge_among(t, v.0, ring, i as int));
                }
            }
        }
        r
    }

    /// The tetrahedra at the edge `e`: exactly the tetrahedra of the mesh
    /// that have both ends of `e` as vertices, each once. They come triangle
    /// by triangle in the ring around `e`, and for each triangle in the
    /// order of the ring around it.
    pub fn edge_tets(&self, e: EdgeId) -> (r: Vec<TetId>)
        requires
            self.wf(),
        ensures
            tet_keys(r@) =~= tets_along(
                self@,
                tris_on(e@.0, e@.1, self@.tri_opps[e@]),
                self@.tri_opps[e@].len(),
            ),
            distinct_tets(r@),
            forall|t: TetKey|
                #![trigger self@.tets.contains_key(t)]
                #![trigger holds_tet(r@, t)]
                holds_tet(r@, t) <==> self@.tets.contains_key(t) && tet_has_edge(t, e@),
    {
        let tris = self.edge_tris(e);
        proof {
            assert(tri_keys(tris@) =~= tris_on(e@.0, e@.1, self@.tri_opps[e@]));
        }
        let mut r: Vec<TetId> = Vec::new();
        let mut i: usize = 0;
        proof {
            assert forall|p: int| 0 <= p < tris.len() implies self@.tris.contains_key(
                (#[trigger] tris[p])@,
            ) && tri_has_edge(tris[p]@, e@) by {
                assert(holds_tri(tris@, tris[p]@));
            }
        }
        while i < tris.len()
            invariant
                0 <= i <= tris.len(),
                self.wf(),
                distinct_tris(tris@),
                forall|p: int|
                    0 <= p < tris.len() ==> self@.tris.contains_key((#[trigger] tris[p])@)
                        && tri_has_edge(tris[p]@, e@),
                tet_keys(r@) =~= tets_along(self@, tri_keys(tris@), i as nat),
                forall|k: int|
                    0 <= k < r.len() ==> self@.tets.contains_key((#[trigger] r[k])@) && face_among(
                        r[k]@,
                        tris@,
                        i as int,
                    ),
                forall|t: TetKey|
                    #![trigger holds_tet(r@, t)]
                    self@.tets.contains_key(t) && face_among(t, tris@, i as int) ==> holds_tet(r@, t),
                distinct_tets(r@),
            decreases tris.len() - i,
        {
            let f: TriId = tris[i];
            proof {
                assert(self@.tris.contains_key(tris[i as int]@));
                lemma_canon_tri(f@.0, f@.1, f@.2);
            }
            let more = self.tri_tets(f);
            let ghost before = r@;
            append(&mut r, &more);
            proof {
                let n0 = before.len() as int;
                assert(f.key() == f@);
                assert(tri_keys(tris@)[i as int] == f@);
                assert(tet_keys(more@) =~= tets_on(f@, self@.tet_opps[f@]));
                assert(tet_keys(r@) =~= tet_keys(before) + tet_keys(more@));
                assert forall|k: int| 0 <= k < r.len() implies self@.tets.contains_key(
                    (#[trigger] r[k])@,
                ) && face_among(r[k]@, tris@, i + 1) by {
                    if k < n0 {
                        assert(r[k] == before[k]);
                        let p = choose|p: int|
                            0 <= p < i && #[trigger] tet_has_face(before[k]@, tris[p]@);
                        assert(tet_has_face(r[k]@, tris[p]@));
                    } else {
                        assert(r[k] == more[k - n0]);
                        assert(holds_tet(more@, r[k]@));
                        assert(tet_has_face(r[k]@, tris[i as int]@));
                    }
                }
                assert forall|t: TetKey|
                    #![trigger holds_tet(r@, t)]
                    self@.tets.contains_key(t) && face_among(t, tris@, i + 1) implies holds_tet(
                    r@,
                    t,
                ) by {
                    let p = choose|p: int| 0 <= p < i + 1 && #[trigger] tet_has_face(t, tris[p]@);
                    if p < i {
                        assert(face_among(t, tris@, i as int));
                        assert(holds_tet(before, t));
                        let k = choose|k: int| 0 <= k < before.len() && (#[trigger] before[k])@ == t;
                        assert(r[k]@ == t);
                    } else {
                        assert(holds_tet(more@, t));
                        let q = choose|q: int| 0 <= q < more.len() && (#[trigger] more[q])@ == t;
                        assert(r[n0 + q]@ == t);
                    }
                }
                assert forall|k1: int, k2: int| 0 <= k1 < k2 < r.len() implies (#[trigger] r[k1])@
                    != (#[trigger] r[k2])@ by {
                    if k2 < n0 {
                        assert(r[k1] == before[k1] && r[k2] == before[k2]);
                    } else if k1 >= n0 {
                        assert(r[k1] == more[k1 - n0] && r[k2] == more[k2 - n0]);
                    } else {
                        assert(r[k1] == before[k1] && r[k2] == more[k2 - n0]);
                        let t = r[k2]@;
                        assert(holds_tet(more@, t));
                        if r[k1]@ == t {
                            let p = choose|p: int|
                                0 <= p < i && #[trigger] tet_has_face(before[k1]@, tris[p]@);
                            assert(self@.tets.contains_key(t));
                            lemma_one_face_with_edge(t, e@, tris[p]@, f@);
                        }
                    }
                }
            }
            i = i + 1;
        }
        proof {
            assert forall|t: TetKey|
                #![trigger self@.tets.contains_key(t)]
                #![trigger holds_tet(r@, t)]
                holds_tet(r@, t) <==> self@.tets.contains_key(t) && tet_has_edge(t, e@) by {
                if holds_tet(r@, t) {
                    let k = choose|k: int| 0 <= k < r.len() && (#[trigger] r[k])@ == t;
                    assert(self@.tets.contains_key(r[k]@));
                    let p = choose|p: int| 0 <= p < i && #[trigger] tet_has_face(r[k]@, tris[p]@);
                    lemma_face_edge(t, tris[p]@, e@);
                }
                if self@.tets.contains_key(t) && tet_has_edge(t, e@) {
                    lemma_tet_edge_on_face(t, e@);
                    let a = choose|a: int| 0 <= a < 4 && tri_has_edge(tet_face(t, a), e@);
                    let g = tet_face(t, a);
                    assert(self@.tris.contains_key(g));
                    assert(holds_tri(tris@, g));
                    let p = choose|p: int| 0 <= p < tris.len() && (#[trigger] tris[p])@ == g;
                    assert(tet_has_face(t, tris[p]@));
                    assert(face_among(t, tris@, i as int));
                }
            }
        }
        r
    }

    /// The tetrahedra at the vertex `v`: exactly the tetrahedra of the mesh
    /// that have `v` as a vertex, each once. Each is met at the one face of
    /// it that leads it at `v`, in the order of `vertex_tris`.
    pub fn vertex_tets(&self, v: VertexId) -> (r: Vec<TetId>)
        requires
            self.wf(),
        ensures
            tet_keys(r@) =~= tets_led(
                self@,
                v.0,
                tris_at(self@, v.0, self@.targets[v.0].len()),
                tris_at(self@, v.0, self@.targets[v.0].len()).len(),
            ),
            distinct_tets(r@),
            forall|t: TetKey|
                #![trigger self@.tets.contains_key(t)]
                #![trigger holds_tet(r@, t)]
                holds_tet(r@, t) <==> self@.tets.contains_key(t) && tet_has_vertex(t, v.0),
    {
        let tris = self.vertex_tris(v);
        let mut r: Vec<TetId> = Vec::new();
        let mut i: usize = 0;
        proof {
            assert forall|p: int| 0 <= p < tris.len() implies self@.tris.contains_key(
                (#[trigger] tris[p])@,
            ) && tri_has_vertex(tris[p]@, v.0) by {
                assert(holds_tri(tris@, tris[p]@));
            }
        }
        while i < tris.len()
            invariant
                0 <= i <= tris.len(),
                self.wf(),
                distinct_tris(tris@),
                forall|p: int|
                    0 <= p < tris.len() ==> self@.tris.contains_key((#[trigger] tris[p])@)
                        && tri_has_vertex(tris[p]@, v.0),
                tet_keys(r@) =~= tets_led(self@, v.0, tri_keys(tris@), i as nat),
                forall|k: int|
                    0 <= k < r.len() ==> self@.tets.contains_key((#[trigger] r[k])@) && lead_among(
                        r[k]@,
                        v.0,
                        tris@,
                        i as int,
                    ),
                forall|t: TetKey|
                    #![trigger holds_tet(r@, t)]
                    self@.tets.contains_key(t) && lead_among(t, v.0, tris@, i as int) ==> holds_tet(
                        r@,
                        t,
                    ),
                distinct_tets(r@),
            decreases tris.len() - i,
        {
            let f: TriId = tris[i];
            proof {
                assert(self@.tris.contains_key(tris[i as int]@));
                lemma_canon_tri(f@.0, f@.1, f@.2);
            }
            let more = self.tri_tets(f);
            let ghost before = r@;
            append_led(&mut r, &more, v.0, (f.0[0].0, f.0[1].0, f.0[2].0));
            proof {
                let n0 = before.len() as int;
                let tail = r@.subrange(n0, r.len() as int);
                assert(f.key() == f@);
                assert(tri_keys(tris@)[i as int] == f@);
                assert(tet_keys(more@) =~= tets_on(f@, self@.tet_opps[f@]));
                assert forall|k: int| 0 <= k < n0 implies #[trigger] r[k] == before[k] by {
                    assert(r@.subrange(0, n0)[k] == before[k]);
                }
                assert forall|k: int| 0 <= k < r.len() implies self@.tets.contains_key(
                    (#[trigger] r[k])@,
                ) && lead_among(r[k]@, v.0, tris@, i + 1) by {
                    if k < n0 {
                        let p = choose|p: int|
                            0 <= p < i && lead_face(before[k]@, v.0) == (#[trigger] tris[p])@;
                        assert(lead_face(r[k]@, v.0) == tris[p]@);
                    } else {
                        assert(holds_tet(more@, r[k]@));
                        assert(lead_face(r[k]@, v.0) == tris[i as int]@);
                    }
                }
                assert forall|t: TetKey|
                    #![trigger holds_tet(r@, t)]
                    self@.tets.contains_key(t) && lead_among(t, v.0, tris@, i + 1) implies holds_tet(
                    r@,
                    t,
                ) by {
                    let p = choose|p: int|
                        0 <= p < i + 1 && lead_face(t, v.0) == (#[trigger] tris[p])@;
                    if p < i {
                        assert(lead_among(t, v.0, tris@, i as int));
                        assert(holds_tet(before, t));
                        let k = choose|k: int| 0 <= k < before.len() && (#[trigger] before[k])@ == t;
                        assert(r[k]@ == t);
                    } else {
                        lemma_star_form(t, v.0);
                        assert(tet_has_face(t, f@));
                        assert(holds_tet(more@, t));
                        let q = choose|q: int| 0 <= q < more.len() && (#[trigger] more[q])@ == t;
                        assert(holds_tet(tail, more[q]@));
                        let k = choose|k: int| 0 <= k < tail.len() && (#[trigger] tail[k])@ == t;
                        assert(r[n0 + k]@ == t);
                    }
                }
                assert forall|k1: int, k2: int| 0 <= k1 < k2 < r.len() implies (#[trigger] r[k1])@
                    != (#[trigger] r[k2])@ by {
                    if k2 < n0 {
                    } else if k1 >= n0 {
                        assert(tail[k1 - n0] == r[k1] && tail[k2 - n0] == r[k2]);
                    } else {
                        if r[k1]@ == r[k2]@ {
                            let p = choose|p: int|
                                0 <= p < i && lead_face(before[k1]@, v.0) == (#[trigger] tris[p])@;
                            assert(lead_face(r[k2]@, v.0) == tris[i as int]@);
                        }
                    }
                }
            }
            i = i + 1;
        }
        proof {
            assert forall|t: TetKey|
                #![trigger self@.tets.contains_key(t)]
                #![trigger holds_tet(r@, t)]
                holds_tet(r@, t) <==> self@.tets.contains_key(t) && tet_has_vertex(t, v.0) by {
                if holds_tet(r@, t) {
                    let k = choose|k: int| 0 <= k < r.len() && (#[trigger] r[k])@ == t;
                    assert(self@.tets.contains_key(r[k]@));
                    let p = choose|p: int|
                        0 <= p < i && lead_face(r[k]@, v.0) == (#[trigger] tris[p])@;
                    assert(tri_has_vertex(tris[p]@, v.0));
                    lemma_star_form(t, v.0);
                }
                if self@.tets.contains_key(t) && tet_has_vertex(t, v.0) {
                    lemma_lead_face(t, v.0);
                    let g = lead_face(t, v.0);
                    assert(self@.tris.contains_key(g));
                    assert(holds_tri(tris@, g));
                    let p = choose|p: int| 0 <= p < tris.len() && (#[trigger] tris[p])@ == g;
                    assert(lead_among(t, v.0, tris@, i as int));
                }
            }
        }
        r
    }

    /// The tetrahedra that lie across the faces of `tet`: those tetrahedra
    /// of the mesh that have a face of `tet` with the opposite orientation.
    /// They come face by face; one that lies across several faces comes once
    /// for each.
    pub fn adjacent_tets(&self, tet: TetId) -> (r: Vec<TetId>)
        requires
            self.wf(),
            tet.valid(),
        ensures
            tet_keys(r@) =~= tets_along(self@, far_sides(tet.key()), 4),
            forall|t: TetKey|
                #![trigger self@.tets.contains_key(t)]
                #![trigger holds_tet(r@, t)]
                holds_tet(r@, t) <==> self@.tets.contains_key(t) && adjacent(tet.key(), t),
    {
        proof {
            crate::simplex::lemma_canon_tet(tet@.0, tet@.1, tet@.2, tet@.3);
        }
        let x = crate::simplex::canon4(tet.0[0].0, tet.0[1].0, tet.0[2].0, tet.0[3].0);
        let mut r: Vec<TetId> = Vec::new();
        let mut i: usize = 0;
        while i < 4
            invariant
                0 <= i <= 4,
                self.wf(),
                is_canon_tet(x),
                tet_keys(r@) =~= tets_along(self@, far_sides(x), i as nat),
                forall|t: TetKey|
                    #![trigger self@.tets.contains_key(t)]
                    #![trigger holds_tet(r@, t)]
                    holds_tet(r@, t) <==> self@.tets.contains_key(t) && exists|j: int|
                        0 <= j < i && #[trigger] tet_has_face(t, tri_twin(tet_face(x, j))),
            decreases 4 - i,
        {
            let f = crate::simplex::face(x, i);
            proof {
                lemma_face_gives_tet(x, i as int);
                lemma_canon_tri(f.0, f.2, f.1);
            }
            let w = canon3(f.0, f.2, f.1);
            let twin = TriId([VertexId(w.0), VertexId(w.1), VertexId(w.2)]);
            let more = self.tri_tets(twin);
            let ghost before = r@;
            append(&mut r, &more);
            proof {
                let n0 = before.len() as int;
                assert(twin.key() == w);
                assert(w == tri_twin(tet_face(x, i as int)));
                assert(far_sides(x)[i as int] == w);
                assert(tet_keys(more@) =~= tets_on(w, self@.tet_opps[w]));
                assert(tet_keys(r@) =~= tet_keys(before) + tet_keys(more@));
                assert forall|t: TetKey|
                    #![trigger self@.tets.contains_key(t)]
                    #![trigger holds_tet(r@, t)]
                    holds_tet(r@, t) <==> self@.tets.contains_key(t) && exists|j: int|
                        0 <= j < i + 1 && #[trigger] tet_has_face(t, tri_twin(tet_face(x, j))) by {
                    if holds_tet(r@, t) {
                        let k = choose|k: int| 0 <= k < r.len() && (#[trigger] r[k])@ == t;
                        if k < n0 {
                            assert(before[k]@ == t);
                            assert(holds_tet(before, t));
                            let j = choose|j: int|
                                0 <= j < i && #[trigger] tet_has_face(t, tri_twin(tet_face(x, j)));
                            assert(tet_has_face(t, tri_twin(tet_face(x, j))));
                        } else {
                            assert(more[k - n0]@ == t);
                            assert(holds_tet(more@, t));
                            assert(tet_has_face(t, tri_twin(tet_face(x, i as int))));
                        }
                    }
                    if self@.tets.contains_key(t) && exists|j: int|
                        0 <= j < i + 1 && #[trigger] tet_has_face(t, tri_twin(tet_face(x, j))) {
                        let j = choose|j: int|
                            0 <= j < i + 1 && #[trigger] tet_has_face(t, tri_twin(tet_face(x, j)));
                        if j < i {
                            assert(holds_tet(before, t));
                            let k = choose|k: int| 0 <= k < before.len() && (#[trigger] before[k])@ == t;
                            assert(r[k]@ == t);
                        } else {
                            assert(holds_tet(more@, t));
                            let q = choose|q: int| 0 <= q < more.len() && (#[trigger] more[q])@ == t;
                            assert(r[n0 + q]@ == t);
                        }
                    }
                }
            }
            i = i + 1;
        }
        proof {
            assert forall|t: TetKey|
                #![trigger self@.tets.contains_key(t)]
                #![trigger holds_tet(r@, t)]
                holds_tet(r@, t) <==> self@.tets.contains_key(t) && adjacent(x, t) by {
                if adjacent(x, t) {
                    let j: int = if tet_has_face(t, tri_twin(tet_face(x, 0))) {
                        0
                    } else if tet_has_face(t, tri_twin(tet_face(x, 1))) {
                        1
                    } else if tet_has_face(t, tri_twin(tet_face(x, 2))) {
                        2
                    } else {
                        3
                    };
                    assert(tet_has_face(t, tri_twin(tet_face(x, j))));
                }
                if exists|j: int| 0 <= j < 4 && #[trigger] tet_has_face(t, tri_twin(tet_face(x, j))) {
                    let j = choose|j: int|
                        0 <= j < 4 && #[trigger] tet_has_face(t, tri_twin(tet_face(x, j)));
                }
            }
        }
        r
    }
}

} // verus!
