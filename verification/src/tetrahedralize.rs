//! Delaunay tetrahedralization by the Bowyer-Watson algorithm with ghost
//! tetrahedra.
//!
//! The convex hull is closed off by a ghost vertex at infinity: each face of
//! the hull, turned around, makes a ghost tetrahedron with the ghost vertex.
//! A new point sits inside the "sphere" of a ghost tetrahedron when it lies
//! beyond the hull face.
//!
//! The geometry stays outside: the caller hands in the three predicates on
//! vertices that the algorithm asks, and the contracts say which questions
//! are asked and what follows from each answer.

use vstd::prelude::*;
use crate::table::KeySet;
use vstd::set_lib::lemma_len_subset;
use crate::key::{key3, key4, make3, make4, lemma_key3, lemma_key4};
use crate::simplex::{
    EdgeKey, TriKey, TetKey, is_canon_tri, is_canon_tet, tet_face, tri_has_vertex, tet_has_face,
    tet_has_vertex, tri_twin, adjacent, collides, canon_tet, distinct4, canon3, canon4, face,
    lemma_canon_tet, lemma_face_gives_tet, lemma_face_vertices,
};
use crate::ids::{VertexId, TriId, TetId, holds_tri, holds_tet, distinct_tris, distinct_tets};
use crate::mesh::Mesh;
use crate::view::MeshView;
use crate::star::tri_keys;

verus! {

/// The face of the tetrahedron opposite its vertex `v`, in canonical form.
pub open spec fn opp_face(t: TetKey, v: u32) -> TriKey {
    if t.3 == v {
        tet_face(t, 3)
    } else if t.2 == v {
        tet_face(t, 2)
    } else if t.1 == v {
        tet_face(t, 1)
    } else {
        tet_face(t, 0)
    }
}

/// Whether `r` is an answer of the predicates to the question if the vertex
/// `m` lies inside the sphere of the tetrahedron `t`.
///
/// For a tetrahedron with the ghost vertex the question goes to `orient`:
/// does `m` lie on the positive side of the face opposite the ghost? For any
/// other it goes to `in_sphere`, with the vertices of `t` in their order.
pub open spec fn judged<O, S>(
    orient: O,
    in_sphere: S,
    t: TetKey,
    m: u32,
    ghost: u32,
    r: bool,
) -> bool where
    O: Fn(VertexId, VertexId, VertexId, VertexId) -> bool,
    S: Fn(VertexId, VertexId, VertexId, VertexId, VertexId) -> bool,
 {
    if tet_has_vertex(t, ghost) {
        let f = opp_face(t, ghost);
        call_ensures(orient, (VertexId(f.0), VertexId(f.1), VertexId(f.2), VertexId(m)), r)
    } else {
        call_ensures(
            in_sphere,
            (VertexId(t.0), VertexId(t.1), VertexId(t.2), VertexId(t.3), VertexId(m)),
            r,
        )
    }
}

/// Whether the predicates answer every question.
pub open spec fn total<O, S, C>(orient: O, in_sphere: S, closer: C) -> bool where
    O: Fn(VertexId, VertexId, VertexId, VertexId) -> bool,
    S: Fn(VertexId, VertexId, VertexId, VertexId, VertexId) -> bool,
    C: Fn(VertexId, VertexId, VertexId) -> bool,
 {
    &&& forall|a: VertexId, b: VertexId, c: VertexId, d: VertexId|
        call_requires(orient, (a, b, c, d))
    &&& forall|a: VertexId, b: VertexId, c: VertexId, d: VertexId, e: VertexId|
        call_requires(in_sphere, (a, b, c, d, e))
    &&& forall|a: VertexId, b: VertexId, c: VertexId| call_requires(closer, (a, b, c))
}

/// The in-sphere test that knows the ghost vertex: whether the vertex `m`,
/// which is not the ghost, lies inside the sphere of `tet`.
pub fn in_sphere_with_ghosts<O, S>(
    tet: TetId,
    m: VertexId,
    ghost: VertexId,
    orient: &O,
    in_sphere: &S,
) -> (r: bool) where
    O: Fn(VertexId, VertexId, VertexId, VertexId) -> bool,
    S: Fn(VertexId, VertexId, VertexId, VertexId, VertexId) -> bool,

    requires
        tet.valid(),
        forall|a: VertexId, b: VertexId, c: VertexId, d: VertexId|
            call_requires(*orient, (a, b, c, d)),
        forall|a: VertexId, b: VertexId, c: VertexId, d: VertexId, e: VertexId|
            call_requires(*in_sphere, (a, b, c, d, e)),
    ensures
        judged(*orient, *in_sphere, tet@, m.0, ghost.0, r),
{
    if tet.contains_vertex(ghost) {
        let tri = tet.opp_tri(ghost);
        proof {
            assert(tri@ == opp_face(tet@, ghost.0));
            assert(tri.0[0] == VertexId(tri@.0));
            assert(tri.0[1] == VertexId(tri@.1));
            assert(tri.0[2] == VertexId(tri@.2));
        }
        orient(tri.0[0], tri.0[1], tri.0[2], m)
    } else {
        proof {
            assert(tet.0[0] == VertexId(tet@.0));
            assert(tet.0[1] == VertexId(tet@.1));
            assert(tet.0[2] == VertexId(tet@.2));
            assert(tet.0[3] == VertexId(tet@.3));
        }
        in_sphere(tet.0[0], tet.0[1], tet.0[2], tet.0[3], m)
    }
}

// A list of different tetrahedra of a finite set is no longer than the set.
proof fn lemma_distinct_bound(s: Seq<TetId>, d: Set<TetKey>)
    requires
        distinct_tets(s),
        d.finite(),
        forall|k: int| 0 <= k < s.len() ==> d.contains((#[trigger] s[k])@),
    ensures
        s.len() <= d.len(),
{
    let keys = s.map_values(|x: TetId| x@);
    assert forall|i: int, j: int| 0 <= i < keys.len() && 0 <= j < keys.len() && i != j implies keys[i]
        != keys[j] by {
        if i < j {
            assert(s[i]@ != s[j]@);
        } else {
            assert(s[j]@ != s[i]@);
        }
    }
    keys.unique_seq_to_set();
    assert(keys.to_set().subset_of(d)) by {
        assert forall|t: TetKey| keys.to_set().contains(t) implies d.contains(t) by {
            let i = choose|i: int| 0 <= i < keys.len() && keys[i] == t;
            assert(s[i]@ == t);
        }
    }
    lemma_len_subset(keys.to_set(), d);
}

/// Whether `best` is the choice after the target `t` of `vertex` was held
/// against the choice `prev` made before: `t` is chosen where `closer`
/// prefers it to `vertex` and to `prev`, if there is one.
pub open spec fn chosen<C>(
    closer: C,
    t: VertexId,
    vertex: VertexId,
    p: VertexId,
    prev: Option<VertexId>,
    best: Option<VertexId>,
) -> bool where C: Fn(VertexId, VertexId, VertexId) -> bool {
    ||| call_ensures(closer, (t, vertex, p), false) && best == prev
    ||| call_ensures(closer, (t, vertex, p), true) && prev is None && best == Some(t)
    ||| call_ensures(closer, (t, vertex, p), true) && prev is Some && call_ensures(
        closer,
        (t, prev->0, p),
        true,
    ) && best == Some(t)
    ||| call_ensures(closer, (t, vertex, p), true) && prev is Some && call_ensures(
        closer,
        (t, prev->0, p),
        false,
    ) && best == prev
}

/// Whether `best` is the choice among the first `n` targets of `vertex`,
/// held one after the other against the choice before, as `chosen` has it.
pub open spec fn preferred<C>(
    closer: C,
    targets: Seq<u32>,
    vertex: VertexId,
    p: VertexId,
    n: nat,
    best: Option<VertexId>,
) -> bool where C: Fn(VertexId, VertexId, VertexId) -> bool
    decreases n,
{
    if n == 0 {
        best is None
    } else {
        exists|prev: Option<VertexId>|
            preferred(closer, targets, vertex, p, (n - 1) as nat, prev) && #[trigger] chosen(
                closer,
                VertexId(targets[n - 1]),
                vertex,
                p,
                prev,
                best,
            )
    }
}

/// Whether a walk from `vertex` towards `p` with `fuel` steps left ends as
/// `r` says: at `vertex` where no target is preferred, at `vertex` with the
/// mark `false` where a target is preferred and no step is left, and else
/// where the walk from the preferred target ends.
#[verifier::opaque]
pub open spec fn walked<C>(
    closer: C,
    targets: Map<u32, Seq<u32>>,
    vertex: VertexId,
    p: VertexId,
    fuel: nat,
    r: (VertexId, bool),
) -> bool where C: Fn(VertexId, VertexId, VertexId) -> bool
    decreases fuel,
{
    exists|best: Option<VertexId>| #[trigger]
        preferred(closer, targets[vertex.0], vertex, p, targets[vertex.0].len(), best) && (
        match best {
            None => r == (vertex, true),
            Some(b) => if fuel == 0 {
                r == (vertex, false)
            } else {
                walked(closer, targets, b, p, (fuel - 1) as nat, r)
            },
        })
}

// A walk ends where no target is preferred or no step is left.
proof fn lemma_walk_end<C>(
    closer: C,
    targets: Map<u32, Seq<u32>>,
    vertex: VertexId,
    p: VertexId,
    fuel: nat,
    best: Option<VertexId>,
) where C: Fn(VertexId, VertexId, VertexId) -> bool
    requires
        preferred(closer, targets[vertex.0], vertex, p, targets[vertex.0].len(), best),
        best is None || fuel == 0,
    ensures
        walked(closer, targets, vertex, p, fuel, (vertex, best is None)),
{
    reveal_with_fuel(walked, 1);
}

// A walk goes on from the preferred target where a step is left.
proof fn lemma_walk_on<C>(
    closer: C,
    targets: Map<u32, Seq<u32>>,
    vertex: VertexId,
    p: VertexId,
    fuel: nat,
    b: VertexId,
    r: (VertexId, bool),
) where C: Fn(VertexId, VertexId, VertexId) -> bool
    requires
        preferred(closer, targets[vertex.0], vertex, p, targets[vertex.0].len(), Some(b)),
        fuel > 0,
        walked(closer, targets, b, p, (fuel - 1) as nat, r),
    ensures
        walked(closer, targets, vertex, p, fuel, r),
{
    reveal_with_fuel(walked, 2);
}

/// Walks from `start` along edges of the mesh towards the vertex `p`: each
/// step goes to the target that `closer` prefers to the place and to the
/// other targets seen so far. The walk ends where `closer` prefers no target
/// to the place, or after as many steps as the mesh has vertices.
///
/// Returns the place where the walk ended, and whether it ended because no
/// target was preferred.
pub fn closest_vertex<V, E, F, T, C>(
    mesh: &Mesh<V, E, F, T, true>,
    start: VertexId,
    p: VertexId,
    closer: &C,
) -> (r: (VertexId, bool)) where C: Fn(VertexId, VertexId, VertexId) -> bool
    requires
        mesh.wf(),
        forall|a: VertexId, b: VertexId, c: VertexId| call_requires(*closer, (a, b, c)),
    ensures
        walked(*closer, mesh@.targets, start, p, mesh@.vertices.dom().len(), r),
        r.0 == start || mesh@.vertices.contains_key(r.0.0),
        r.1 ==> forall|i: int|
            0 <= i < mesh@.targets[r.0.0].len() ==> call_ensures(
                *closer,
                (VertexId(#[trigger] mesh@.targets[r.0.0][i]), r.0, p),
                false,
            ),
{
    let mut vertex: VertexId = start;
    let mut fuel: usize = mesh.num_vertices();
    let ghost fuel0 = fuel as nat;
    loop
        invariant
            mesh.wf(),
            forall|a: VertexId, b: VertexId, c: VertexId| call_requires(*closer, (a, b, c)),
            vertex == start || mesh@.vertices.contains_key(vertex.0),
            fuel0 == mesh@.vertices.dom().len(),
            forall|r: (VertexId, bool)| #[trigger]
                walked(*closer, mesh@.targets, vertex, p, fuel as nat, r) ==> walked(
                    *closer,
                    mesh@.targets,
                    start,
                    p,
                    fuel0,
                    r,
                ),
        decreases fuel,
    {
        let targets = mesh.vertex_targets(vertex);
        let ghost ring = mesh@.targets[vertex.0];
        let mut best: Option<VertexId> = None;
        let mut i: usize = 0;
        while i < targets.len()
            invariant
                0 <= i <= targets.len(),
                targets.len() == ring.len(),
                forall|k: int| 0 <= k < targets.len() ==> (#[trigger] targets[k]).0 == ring[k],
                forall|a: VertexId, b: VertexId, c: VertexId| call_requires(*closer, (a, b, c)),
                preferred(*closer, ring, vertex, p, i as nat, best),
                best is None ==> forall|k: int|
                    0 <= k < i ==> call_ensures(*closer, (#[trigger] targets[k], vertex, p), false),
                best is Some ==> exists|k: int| 0 <= k < i && targets[k] == best->0,
            decreases targets.len() - i,
        {
            let t: VertexId = targets[i];
            let ghost prev = best;
            if closer(t, vertex, p) {
                let better: bool = match best {
                    Some(b) => closer(t, b, p),
                    None => true,
                };
                if better {
                    best = Some(t);
                }
            }
            proof {
                assert(t == VertexId(ring[i as int]));
                assert(chosen(*closer, VertexId(ring[i as int]), vertex, p, prev, best));
                assert(((i + 1) as nat - 1) as nat == i as nat);
            }
            i = i + 1;
        }
        match best {
            Some(b) => {
                proof {
                    let k = choose|k: int| 0 <= k < targets.len() && targets[k] == b;
                    assert(ring.contains(ring[k]));
                    assert(mesh@.edges.contains_key((vertex.0, ring[k])));
                }
                if fuel == 0 {
                    proof {
                        lemma_walk_end(*closer, mesh@.targets, vertex, p, 0, best);
                    }
                    return (vertex, false);
                }
                let ghost left = fuel as nat;
                fuel = fuel - 1;
                proof {
                    assert((left - 1) as nat == fuel as nat);
                    assert forall|r: (VertexId, bool)| #[trigger]
                        walked(*closer, mesh@.targets, b, p, fuel as nat, r) implies walked(
                        *closer,
                        mesh@.targets,
                        start,
                        p,
                        fuel0,
                        r,
                    ) by {
                        lemma_walk_on(*closer, mesh@.targets, vertex, p, left, b, r);
                    }
                }
                vertex = b;
            },
            None => {
                proof {
                    assert forall|i: int| 0 <= i < mesh@.targets[vertex.0].len() implies call_ensures(
                        *closer,
                        (VertexId(#[trigger] mesh@.targets[vertex.0][i]), vertex, p),
                        false,
                    ) by {
                        assert(targets[i] == VertexId(mesh@.targets[vertex.0][i]));
                    }
                    lemma_walk_end(*closer, mesh@.targets, vertex, p, fuel as nat, best);
                }
                return (vertex, true);
            },
        }
    }
}

/// Whether `p` is a path in the set from a tetrahedron that has the vertex
/// `v`: each of its tetrahedra is in the set, the first has `v`, and each
/// further one lies across a face of the one before it.
pub open spec fn is_path(tets: Set<TetKey>, v: u32, p: Seq<TetKey>) -> bool {
    &&& p.len() > 0
    &&& tet_has_vertex(p[0], v)
    &&& forall|i: int| 0 <= i < p.len() ==> tets.contains(#[trigger] p[i])
    &&& forall|i: int| 0 < i < p.len() ==> adjacent(p[i - 1], #[trigger] p[i])
}

/// Whether the tetrahedron `x` can be reached from a tetrahedron of the set
/// that has the vertex `v`, by going across faces to tetrahedra of the set.
pub open spec fn linked(tets: Set<TetKey>, v: u32, x: TetKey) -> bool {
    exists|p: Seq<TetKey>| #[trigger] is_path(tets, v, p) && p.last() == x
}

/// The state of a search across faces from the tetrahedra at `v`: `q` lists
/// different tetrahedra of the set, each of which can be reached, among them
/// every tetrahedron at `v`, and `seen` holds the keys of exactly these.
pub open spec fn searching(tets: Set<TetKey>, v: u32, q: Seq<TetId>, seen: Set<u128>) -> bool {
    &&& distinct_tets(q)
    &&& forall|k: int| 0 <= k < q.len() ==> tets.contains((#[trigger] q[k])@)
    &&& forall|k: int| 0 <= k < q.len() ==> linked(tets, v, (#[trigger] q[k])@)
    &&& forall|k: int|
        0 <= k < q.len() ==> seen.contains(key4((#[trigger] q[k])@.0, q[k]@.1, q[k]@.2, q[k]@.3))
    &&& forall|t: TetKey| seen.contains(#[trigger] key4(t.0, t.1, t.2, t.3)) ==> holds_tet(q, t)
    &&& forall|x: TetKey| tets.contains(x) && tet_has_vertex(x, v) ==> #[trigger] holds_tet(q, x)
}

// What lies across a face of a tetrahedron that can be reached can be
// reached.
proof fn lemma_linked_on(tets: Set<TetKey>, v: u32, y: TetKey, x: TetKey)
    requires
        linked(tets, v, y),
        tets.contains(x),
        adjacent(y, x),
    ensures
        linked(tets, v, x),
{
    let p = choose|p: Seq<TetKey>| #[trigger] is_path(tets, v, p) && p.last() == y;
    let r = p.push(x);
    assert forall|i: int| 0 <= i < r.len() implies tets.contains(#[trigger] r[i]) by {
        if i < p.len() {
            assert(r[i] == p[i]);
        }
    }
    assert forall|i: int| 0 < i < r.len() implies adjacent(r[i - 1], #[trigger] r[i]) by {
        if i < p.len() {
            assert(r[i] == p[i] && r[i - 1] == p[i - 1]);
        } else {
            assert(r[i - 1] == p.last());
        }
    }
    assert(r[0] == p[0]);
    assert(is_path(tets, v, r) && r.last() == x);
}

// The first tetrahedra of a path stand in a list that holds the tetrahedra
// at `v` and, with each member, what lies across its faces.
proof fn lemma_path_held(tets: Set<TetKey>, v: u32, q: Seq<TetId>, p: Seq<TetKey>, i: int)
    requires
        forall|x0: TetKey| tets.contains(x0) && tet_has_vertex(x0, v) ==> #[trigger] holds_tet(q, x0),
        forall|k: int, u: TetKey|
            0 <= k < q.len() && tets.contains(u) && #[trigger] adjacent(q[k]@, u) ==> holds_tet(
                q,
                u,
            ),
        is_path(tets, v, p),
        0 <= i < p.len(),
    ensures
        holds_tet(q, p[i]),
    decreases i,
{
    if i > 0 {
        lemma_path_held(tets, v, q, p, i - 1);
        let k = choose|k: int| 0 <= k < q.len() && (#[trigger] q[k])@ == p[i - 1];
        assert(tets.contains(p[i]));
        assert(adjacent(q[k]@, p[i]));
    } else {
        assert(tets.contains(p[0]));
    }
}

// The keys of the tetrahedra of the list.
fn keys_of_tets(q: &Vec<TetId>) -> (seen: KeySet)
    ensures
        forall|k: int|
            0 <= k < q.len() ==> seen@.contains(
                key4((#[trigger] q[k])@.0, q[k]@.1, q[k]@.2, q[k]@.3),
            ),
        forall|t: TetKey| seen@.contains(#[trigger] key4(t.0, t.1, t.2, t.3)) ==> holds_tet(q@, t),
{
    let mut seen: KeySet = KeySet::new();
    let mut i: usize = 0;
    while i < q.len()
        invariant
            0 <= i <= q.len(),
            forall|k: int|
                0 <= k < i ==> seen@.contains(
                    key4((#[trigger] q[k])@.0, q[k]@.1, q[k]@.2, q[k]@.3),
                ),
            forall|t: TetKey|
                seen@.contains(#[trigger] key4(t.0, t.1, t.2, t.3)) ==> exists|k: int|
                    0 <= k < i && (#[trigger] q[k])@ == t,
        decreases q.len() - i,
    {
        let u: TetId = q[i];
        let ghost before = seen@;
        seen.insert(make4(u.0[0].0, u.0[1].0, u.0[2].0, u.0[3].0));
        proof {
            assert forall|t: TetKey|
                seen@.contains(#[trigger] key4(t.0, t.1, t.2, t.3)) implies exists|k: int|
                0 <= k < i + 1 && (#[trigger] q[k])@ == t by {
                lemma_key4(t.0, t.1, t.2, t.3);
                lemma_key4(u@.0, u@.1, u@.2, u@.3);
                if before.contains(key4(t.0, t.1, t.2, t.3)) {
                    let k = choose|k: int| 0 <= k < i && (#[trigger] q[k])@ == t;
                    assert(0 <= k < i + 1 && q[k]@ == t);
                } else {
                    assert(q[i as int]@ == t);
                }
            }
        }
        i = i + 1;
    }
    seen
}

// Puts the tetrahedron `u`, which lies across a face of the member at
// `head`, behind the list unless it stands in it.
fn enqueue(
    u: TetId,
    queue: &mut Vec<TetId>,
    seen: &mut KeySet,
    Ghost(tets): Ghost<Set<TetKey>>,
    Ghost(v): Ghost<u32>,
    Ghost(head): Ghost<int>,
)
    requires
        tets.contains(u@),
        0 <= head < old(queue).len(),
        adjacent(old(queue)[head]@, u@),
        searching(tets, v, old(queue)@, old(seen)@),
    ensures
        searching(tets, v, final(queue)@, final(seen)@),
        old(queue).len() <= final(queue).len() <= old(queue).len() + 1,
        forall|k: int| 0 <= k < old(queue).len() ==> #[trigger] final(queue)[k] == old(queue)[k],
        holds_tet(final(queue)@, u@),
{
    let key: u128 = make4(u.0[0].0, u.0[1].0, u.0[2].0, u.0[3].0);
    let ghost q0 = queue@;
    let ghost seen0 = seen@;
    if !seen.contains(&key) {
        seen.insert(key);
        queue.push(u);
        proof {
            assert(queue[queue.len() - 1]@ == u@);
            assert forall|k1: int, k2: int| 0 <= k1 < k2 < queue.len() implies (
            #[trigger] queue[k1])@ != (#[trigger] queue[k2])@ by {
                if k2 == queue.len() - 1 {
                    assert(queue[k1] == q0[k1]);
                    assert(seen0.contains(key4(q0[k1]@.0, q0[k1]@.1, q0[k1]@.2, q0[k1]@.3)));
                } else {
                    assert(queue[k1] == q0[k1] && queue[k2] == q0[k2]);
                }
            }
            assert(linked(tets, v, q0[head]@));
            lemma_linked_on(tets, v, q0[head]@, u@);
        }
    } else {
        proof {
            assert(holds_tet(q0, u@));
        }
    }
    proof {
        assert forall|k: int| 0 <= k < q0.len() implies #[trigger] queue[k] == q0[k] by {}
        assert forall|x: TetKey| holds_tet(q0, x) implies holds_tet(queue@, x) by {
            let k = choose|k: int| 0 <= k < q0.len() && (#[trigger] q0[k])@ == x;
            assert(queue[k]@ == x);
        }
        assert forall|k: int| 0 <= k < queue.len() implies tets.contains((#[trigger] queue[k])@)
            && linked(tets, v, queue[k]@) && seen@.contains(
            key4(queue[k]@.0, queue[k]@.1, queue[k]@.2, queue[k]@.3),
        ) by {
            if k < q0.len() {
                assert(queue[k] == q0[k]);
            }
        }
        assert forall|t: TetKey|
            seen@.contains(#[trigger] key4(t.0, t.1, t.2, t.3)) implies holds_tet(queue@, t) by {
            lemma_key4(t.0, t.1, t.2, t.3);
            lemma_key4(u@.0, u@.1, u@.2, u@.3);
            if seen0.contains(key4(t.0, t.1, t.2, t.3)) {
                assert(holds_tet(q0, t));
            } else {
                assert(t == u@);
                assert(queue[queue.len() - 1]@ == t);
            }
        }
        assert forall|x: TetKey|
            tets.contains(x) && tet_has_vertex(x, v) implies #[trigger] holds_tet(queue@, x) by {
            assert(holds_tet(q0, x));
        }
    }
}

// Looks from the tetrahedra at `vertex` across faces for a tetrahedron
// whose sphere holds `new_vertex`: the tetrahedra at the vertex come
// first, then what lies across the faces of each in turn, each once. The
// first that is judged to hold the new vertex comes back; none comes back
// only where every tetrahedron that can be reached was judged not to.
fn search_from<V, E, F, T, O, S>(
    mesh: &Mesh<V, E, F, T, true>,
    vertex: VertexId,
    new_vertex: VertexId,
    ghost: VertexId,
    orient: &O,
    in_sphere: &S,
) -> (r: Option<TetId>) where
    O: Fn(VertexId, VertexId, VertexId, VertexId) -> bool,
    S: Fn(VertexId, VertexId, VertexId, VertexId, VertexId) -> bool,

    requires
        mesh.wf(),
        forall|a: VertexId, b: VertexId, c: VertexId, d: VertexId|
            call_requires(*orient, (a, b, c, d)),
        forall|a: VertexId, b: VertexId, c: VertexId, d: VertexId, e: VertexId|
            call_requires(*in_sphere, (a, b, c, d, e)),
    ensures
        r is Some ==> mesh@.tets.contains_key(r->0@) && linked(
            mesh@.tets.dom(),
            vertex.0,
            r->0@,
        ) && judged(*orient, *in_sphere, r->0@, new_vertex.0, ghost.0, true),
        r is None ==> forall|x: TetKey| #[trigger]
            linked(mesh@.tets.dom(), vertex.0, x) ==> judged(
                *orient,
                *in_sphere,
                x,
                new_vertex.0,
                ghost.0,
                false,
            ),
{
    let n: usize = mesh.num_tets();
    let mut queue = mesh.vertex_tets(vertex);
    let mut seen: KeySet = keys_of_tets(&queue);
    let mut head: usize = 0;
    let ghost tets = mesh@.tets.dom();
    proof {
        assert forall|k: int| 0 <= k < queue.len() implies tets.contains((#[trigger] queue[k])@)
            && linked(tets, vertex.0, queue[k]@) by {
            assert(holds_tet(queue@, queue[k]@));
            let p = seq![queue[k]@];
            assert(is_path(tets, vertex.0, p) && p.last() == queue[k]@);
        }
        assert forall|x: TetKey|
            tets.contains(x) && tet_has_vertex(x, vertex.0) implies #[trigger] holds_tet(
            queue@,
            x,
        ) by {
            assert(mesh@.tets.contains_key(x));
        }
        lemma_distinct_bound(queue@, tets);
    }
    while head < queue.len()
        invariant
            0 <= head <= queue.len() <= n,
            n == tets.len(),
            tets.finite(),
            tets == mesh@.tets.dom(),
            mesh.wf(),
            forall|a: VertexId, b: VertexId, c: VertexId, d: VertexId|
                call_requires(*orient, (a, b, c, d)),
            forall|a: VertexId, b: VertexId, c: VertexId, d: VertexId, e: VertexId|
                call_requires(*in_sphere, (a, b, c, d, e)),
            searching(tets, vertex.0, queue@, seen@),
            closed_up_to(mesh, queue@, Set::<TetKey>::empty(), head as int),
            forall|k: int|
                0 <= k < head ==> judged(
                    *orient,
                    *in_sphere,
                    (#[trigger] queue[k])@,
                    new_vertex.0,
                    ghost.0,
                    false,
                ),
        decreases n - head,
    {
        let t: TetId = queue[head];
        proof {
            assert(tets.contains(queue[head as int]@));
            assert(mesh@.tets.contains_key(t@));
            crate::simplex::lemma_canon_tet_fixed(t@);
            assert(t.key() == t@);
        }
        if in_sphere_with_ghosts(t, new_vertex, ghost, orient, in_sphere) {
            proof {
                assert(linked(tets, vertex.0, queue[head as int]@));
            }
            return Some(t);
        }
        let next = mesh.adjacent_tets(t);
        let mut j: usize = 0;
        while j < next.len()
            invariant
                0 <= j <= next.len(),
                0 <= head < queue.len() <= n,
                n == tets.len(),
                tets.finite(),
                tets == mesh@.tets.dom(),
                queue[head as int] == t,
                searching(tets, vertex.0, queue@, seen@),
                closed_up_to(mesh, queue@, Set::<TetKey>::empty(), head as int),
                forall|k: int|
                    0 <= k < head ==> judged(
                        *orient,
                        *in_sphere,
                        (#[trigger] queue[k])@,
                        new_vertex.0,
                        ghost.0,
                        false,
                    ),
                judged(*orient, *in_sphere, t@, new_vertex.0, ghost.0, false),
                forall|u: TetKey|
                    #![trigger holds_tet(next@, u)]
                    holds_tet(next@, u) ==> mesh@.tets.contains_key(u) && adjacent(t@, u),
                forall|q: int| 0 <= q < j ==> holds_tet(queue@, (#[trigger] next[q])@),
            decreases next.len() - j,
        {
            let u: TetId = next[j];
            let ghost q0 = queue@;
            proof {
                assert(holds_tet(next@, next[j as int]@));
            }
            enqueue(u, &mut queue, &mut seen, Ghost(tets), Ghost(vertex.0), Ghost(head as int));
            proof {
                let none = Set::<TetKey>::empty();
                lemma_closed_kept(mesh, q0, queue@, none, none, head as int);
                lemma_distinct_bound(queue@, tets);
                assert(queue[head as int] == q0[head as int]);
                assert forall|k: int| 0 <= k < head implies judged(
                    *orient,
                    *in_sphere,
                    (#[trigger] queue[k])@,
                    new_vertex.0,
                    ghost.0,
                    false,
                ) by {
                    assert(queue[k] == q0[k]);
                }
                assert forall|q: int| 0 <= q < j + 1 implies holds_tet(
                    queue@,
                    (#[trigger] next[q])@,
                ) by {
                    if q < j {
                        assert(holds_tet(q0, next[q]@));
                    }
                }
            }
            j = j + 1;
        }
        proof {
            assert forall|k: int, x: TetKey|
                0 <= k < head + 1 && mesh@.tets.contains_key(x) && #[trigger] adjacent(
                    queue[k]@,
                    x,
                ) implies holds_tet(queue@, x) || Set::<TetKey>::empty().contains(x) by {
                if k == head {
                    assert(holds_tet(next@, x));
                    let q = choose|q: int| 0 <= q < next.len() && (#[trigger] next[q])@ == x;
                    assert(holds_tet(queue@, next[q]@));
                }
            }
        }
        head = head + 1;
    }
    proof {
        assert forall|x: TetKey| #[trigger] linked(tets, vertex.0, x) implies judged(
            *orient,
            *in_sphere,
            x,
            new_vertex.0,
            ghost.0,
            false,
        ) by {
            let p = choose|p: Seq<TetKey>| #[trigger] is_path(tets, vertex.0, p) && p.last() == x;
            assert forall|k: int, u: TetKey|
                0 <= k < queue.len() && tets.contains(u) && #[trigger] adjacent(
                    queue[k]@,
                    u,
                ) implies holds_tet(queue@, u) by {
                assert(mesh@.tets.contains_key(u));
            }
            lemma_path_held(tets, vertex.0, queue@, p, p.len() - 1);
            let k = choose|k: int| 0 <= k < queue.len() && (#[trigger] queue[k])@ == x;
            assert(judged(*orient, *in_sphere, queue[k]@, new_vertex.0, ghost.0, false));
        }
    }
    None
}

/// Finds a tetrahedron of the mesh whose sphere holds `new_vertex`.
///
/// The search walks from `start` towards the new vertex, looks through the
/// tetrahedra at the place where the walk ends and on across faces, and
/// where that finds none goes through all tetrahedra of the mesh. It
/// returns none only where every tetrahedron was judged not to hold the
/// vertex.
pub fn find_tet_to_delete<V, E, F, T, O, S, C>(
    mesh: &Mesh<V, E, F, T, true>,
    start: VertexId,
    new_vertex: VertexId,
    ghost: VertexId,
    orient: &O,
    in_sphere: &S,
    closer: &C,
) -> (r: Option<TetId>) where
    O: Fn(VertexId, VertexId, VertexId, VertexId) -> bool,
    S: Fn(VertexId, VertexId, VertexId, VertexId, VertexId) -> bool,
    C: Fn(VertexId, VertexId, VertexId) -> bool,

    requires
        mesh.wf(),
        total(*orient, *in_sphere, *closer),
    ensures
        r is Some ==> mesh@.tets.contains_key(r->0@) && judged(
            *orient,
            *in_sphere,
            r->0@,
            new_vertex.0,
            ghost.0,
            true,
        ),
        r is None ==> forall|t: TetKey| #[trigger]
            mesh@.tets.contains_key(t) ==> judged(
                *orient,
                *in_sphere,
                t,
                new_vertex.0,
                ghost.0,
                false,
            ),
{
    let (vertex, _) = closest_vertex(mesh, start, new_vertex, closer);
    let found = search_from(mesh, vertex, new_vertex, ghost, orient, in_sphere);
    if found.is_some() {
        return found;
    }
    let all = mesh.tet_ids();
    let mut i: usize = 0;
    while i < all.len()
        invariant
            0 <= i <= all.len(),
            mesh.wf(),
            total(*orient, *in_sphere, *closer),
            forall|k: int| 0 <= k < all.len() ==> mesh@.tets.contains_key((#[trigger] all[k])@),
            forall|k: int|
                0 <= k < i ==> judged(
                    *orient,
                    *in_sphere,
                    (#[trigger] all[k])@,
                    new_vertex.0,
                    ghost.0,
                    false,
                ),
        decreases all.len() - i,
    {
        let t: TetId = all[i];
        proof {
            assert(mesh@.tets.contains_key(all[i as int]@));
            crate::simplex::lemma_canon_tet_fixed(t@);
        }
        if in_sphere_with_ghosts(t, new_vertex, ghost, orient, in_sphere) {
            return Some(t);
        }
        i = i + 1;
    }
    proof {
        assert forall|t: TetKey| #[trigger] mesh@.tets.contains_key(t) implies judged(
            *orient,
            *in_sphere,
            t,
            new_vertex.0,
            ghost.0,
            false,
        ) by {
            let k = choose|k: int| 0 <= k < all.len() && all[k]@ == t;
            assert(judged(*orient, *in_sphere, all[k]@, new_vertex.0, ghost.0, false));
        }
    }
    None
}

/// Whether `x` lies across a face of one of the first `n` tetrahedra of the
/// list.
pub open spec fn next_to(c: Seq<TetId>, n: int, x: TetKey) -> bool {
    exists|j: int| 0 <= j < n && #[trigger] adjacent(c[j]@, x)
}

/// Whether the list is a cavity among the tetrahedra `tets` for
/// `new_vertex`, grown from its first member: different tetrahedra of the
/// set, each but the first judged to hold the vertex in its sphere and lying
/// across a face of a member before it, and every tetrahedron of the set
/// that lies across a face of a member is a member too or was judged not to
/// hold the vertex.
pub open spec fn is_cavity<O, S>(
    tets: Set<TetKey>,
    c: Seq<TetId>,
    new_vertex: u32,
    ghost: u32,
    orient: O,
    in_sphere: S,
) -> bool where
    O: Fn(VertexId, VertexId, VertexId, VertexId) -> bool,
    S: Fn(VertexId, VertexId, VertexId, VertexId, VertexId) -> bool,
 {
    &&& distinct_tets(c)
    &&& forall|k: int| 0 <= k < c.len() ==> tets.contains((#[trigger] c[k])@)
    &&& forall|k: int|
        1 <= k < c.len() ==> judged(orient, in_sphere, (#[trigger] c[k])@, new_vertex, ghost, true)
    &&& forall|k: int| 1 <= k < c.len() ==> next_to(c, k, (#[trigger] c[k])@)
    &&& forall|k: int, u: TetKey|
        0 <= k < c.len() && tets.contains(u) && #[trigger] adjacent(c[k]@, u) ==> holds_tet(c, u)
            || judged(orient, in_sphere, u, new_vertex, ghost, false)
}

/// The state of a search that grows a cavity: `c` lists the members found
/// so far, `seen` the keys of the tetrahedra judged so far, `out` those that
/// were judged not to hold the vertex.
pub open spec fn grown<V, E, F, T, O, S>(
    mesh: &Mesh<V, E, F, T, true>,
    c: Seq<TetId>,
    seen: Set<u128>,
    out: Set<TetKey>,
    new_vertex: u32,
    ghost: u32,
    orient: O,
    in_sphere: S,
) -> bool where
    O: Fn(VertexId, VertexId, VertexId, VertexId) -> bool,
    S: Fn(VertexId, VertexId, VertexId, VertexId, VertexId) -> bool,
 {
    &&& distinct_tets(c)
    &&& forall|k: int| 0 <= k < c.len() ==> mesh@.tets.contains_key((#[trigger] c[k])@)
    &&& forall|k: int|
        1 <= k < c.len() ==> judged(orient, in_sphere, (#[trigger] c[k])@, new_vertex, ghost, true)
    &&& forall|k: int| 1 <= k < c.len() ==> next_to(c, k, (#[trigger] c[k])@)
    &&& forall|k: int|
        0 <= k < c.len() ==> seen.contains(key4((#[trigger] c[k])@.0, c[k]@.1, c[k]@.2, c[k]@.3))
    &&& forall|t: TetKey|
        seen.contains(#[trigger] key4(t.0, t.1, t.2, t.3)) ==> holds_tet(c, t) || out.contains(t)
    &&& forall|t: TetKey| #[trigger]
        out.contains(t) ==> judged(orient, in_sphere, t, new_vertex, ghost, false)
}

/// Whether every tetrahedron of the mesh that lies across a face of one of
/// the first `head` members of `c` is a member too or stands in `out`.
pub open spec fn closed_up_to<V, E, F, T>(
    mesh: &Mesh<V, E, F, T, true>,
    c: Seq<TetId>,
    out: Set<TetKey>,
    head: int,
) -> bool {
    forall|k: int, u: TetKey|
        0 <= k < head && mesh@.tets.contains_key(u) && #[trigger] adjacent(c[k]@, u) ==> holds_tet(
            c,
            u,
        ) || out.contains(u)
}

// A longer list with the same first members, and a larger set, leave what
// was closed closed.
proof fn lemma_closed_kept<V, E, F, T>(
    mesh: &Mesh<V, E, F, T, true>,
    c0: Seq<TetId>,
    c: Seq<TetId>,
    out0: Set<TetKey>,
    out: Set<TetKey>,
    head: int,
)
    requires
        closed_up_to(mesh, c0, out0, head),
        0 <= head <= c0.len() <= c.len(),
        forall|k: int| 0 <= k < c0.len() ==> #[trigger] c[k] == c0[k],
        forall|x: TetKey| out0.contains(x) ==> out.contains(x),
    ensures
        closed_up_to(mesh, c, out, head),
        forall|x: TetKey| holds_tet(c0, x) ==> holds_tet(c, x),
{
    assert forall|x: TetKey| holds_tet(c0, x) implies holds_tet(c, x) by {
        let k = choose|k: int| 0 <= k < c0.len() && (#[trigger] c0[k])@ == x;
        assert(c[k]@ == x);
    }
    assert forall|k: int, u: TetKey|
        0 <= k < head && mesh@.tets.contains_key(u) && #[trigger] adjacent(
            c[k]@,
            u,
        ) implies holds_tet(c, u) || out.contains(u) by {
        assert(c[k] == c0[k]);
        assert(adjacent(c0[k]@, u));
        assert(holds_tet(c0, u) || out0.contains(u));
    }
}

// Judges the tetrahedron `u`, which lies across a face of the member at
// `head`, unless it was judged before: it joins the members where its
// sphere holds the vertex, and `out` where it does not.
fn take_in<V, E, F, T, O, S>(
    mesh: &Mesh<V, E, F, T, true>,
    u: TetId,
    r: &mut Vec<TetId>,
    seen: &mut KeySet,
    Ghost(out): Ghost<Set<TetKey>>,
    Ghost(head): Ghost<int>,
    new_vertex: VertexId,
    ghost: VertexId,
    orient: &O,
    in_sphere: &S,
) -> (res: Ghost<Set<TetKey>>) where
    O: Fn(VertexId, VertexId, VertexId, VertexId) -> bool,
    S: Fn(VertexId, VertexId, VertexId, VertexId, VertexId) -> bool,

    requires
        mesh@.tets.contains_key(u@),
        is_canon_tet(u@),
        0 <= head < old(r).len(),
        adjacent(old(r)[head]@, u@),
        grown(mesh, old(r)@, old(seen)@, out, new_vertex.0, ghost.0, *orient, *in_sphere),
        forall|a: VertexId, b: VertexId, c: VertexId, d: VertexId|
            call_requires(*orient, (a, b, c, d)),
        forall|a: VertexId, b: VertexId, c: VertexId, d: VertexId, e: VertexId|
            call_requires(*in_sphere, (a, b, c, d, e)),
    ensures
        grown(mesh, final(r)@, final(seen)@, res@, new_vertex.0, ghost.0, *orient, *in_sphere),
        old(r).len() <= final(r).len() <= old(r).len() + 1,
        forall|k: int| 0 <= k < old(r).len() ==> #[trigger] final(r)[k] == old(r)[k],
        forall|x: TetKey| out.contains(x) ==> res@.contains(x),
        holds_tet(final(r)@, u@) || res@.contains(u@),
{
    let key: u128 = make4(u.0[0].0, u.0[1].0, u.0[2].0, u.0[3].0);
    let ghost r0 = r@;
    let ghost seen0 = seen@;
    let ghost mut now: Set<TetKey> = out;
    if !seen.contains(&key) {
        seen.insert(key);
        let inside = in_sphere_with_ghosts(u, new_vertex, ghost, orient, in_sphere);
        if inside {
            r.push(u);
            proof {
                assert(r[r.len() - 1]@ == u@);
                assert forall|k1: int, k2: int| 0 <= k1 < k2 < r.len() implies (#[trigger] r[k1])@
                    != (#[trigger] r[k2])@ by {
                    if k2 == r.len() - 1 {
                        assert(r[k1] == r0[k1]);
                        assert(seen0.contains(key4(r0[k1]@.0, r0[k1]@.1, r0[k1]@.2, r0[k1]@.3)));
                    } else {
                        assert(r[k1] == r0[k1] && r[k2] == r0[k2]);
                    }
                }
                assert(r[head] == r0[head]);
                assert(adjacent(r[head]@, u@));
                assert forall|k: int| 1 <= k < r.len() implies next_to(r@, k, (#[trigger] r[k])@) by {
                    if k < r.len() - 1 {
                        assert(r[k] == r0[k]);
                        assert(next_to(r0, k, r0[k]@));
                        let j = choose|j: int| 0 <= j < k && #[trigger] adjacent(r0[j]@, r0[k]@);
                        assert(r[j] == r0[j]);
                        assert(adjacent(r[j]@, r[k]@));
                    }
                }
                assert forall|k: int| 1 <= k < r.len() implies judged(
                    *orient,
                    *in_sphere,
                    (#[trigger] r[k])@,
                    new_vertex.0,
                    ghost.0,
                    true,
                ) by {
                    if k < r.len() - 1 {
                        assert(r[k] == r0[k]);
                    }
                }
            }
        } else {
            proof {
                now = out.insert(u@);
            }
        }
    }
    proof {
        assert forall|k: int| 0 <= k < r0.len() implies #[trigger] r[k] == r0[k] by {}
        assert forall|x: TetKey| holds_tet(r0, x) implies holds_tet(r@, x) by {
            let k = choose|k: int| 0 <= k < r0.len() && (#[trigger] r0[k])@ == x;
            assert(r[k]@ == x);
        }
        assert forall|x: TetKey|
            seen@.contains(#[trigger] key4(x.0, x.1, x.2, x.3)) implies holds_tet(r@, x)
            || now.contains(x) by {
            lemma_key4(x.0, x.1, x.2, x.3);
            lemma_key4(u@.0, u@.1, u@.2, u@.3);
            if seen0.contains(key4(x.0, x.1, x.2, x.3)) {
                assert(holds_tet(r0, x) || out.contains(x));
            } else {
                assert(x == u@);
                if !now.contains(x) {
                    assert(r[r.len() - 1]@ == x);
                }
            }
        }
        assert(seen@.contains(key4(u@.0, u@.1, u@.2, u@.3)));
        assert forall|k: int| 0 <= k < r.len() implies seen@.contains(
            key4((#[trigger] r[k])@.0, r[k]@.1, r[k]@.2, r[k]@.3),
        ) by {
            if k < r0.len() {
                assert(r[k] == r0[k]);
            }
        }
        assert forall|k: int| 0 <= k < r.len() implies mesh@.tets.contains_key(
            (#[trigger] r[k])@,
        ) by {
            if k < r0.len() {
                assert(r[k] == r0[k]);
            }
        }
    }
    Ghost(now)
}

/// Grows the cavity for `new_vertex` from the tetrahedron `seed`: goes
/// across faces from each member to the tetrahedra next to it, and takes in
/// those whose sphere holds the vertex. Each tetrahedron is judged once.
pub fn grow_cavity<V, E, F, T, O, S>(
    mesh: &Mesh<V, E, F, T, true>,
    seed: TetId,
    new_vertex: VertexId,
    ghost: VertexId,
    orient: &O,
    in_sphere: &S,
) -> (r: Vec<TetId>) where
    O: Fn(VertexId, VertexId, VertexId, VertexId) -> bool,
    S: Fn(VertexId, VertexId, VertexId, VertexId, VertexId) -> bool,

    requires
        mesh.wf(),
        mesh@.tets.contains_key(seed@),
        forall|a: VertexId, b: VertexId, c: VertexId, d: VertexId|
            call_requires(*orient, (a, b, c, d)),
        forall|a: VertexId, b: VertexId, c: VertexId, d: VertexId, e: VertexId|
            call_requires(*in_sphere, (a, b, c, d, e)),
    ensures
        r.len() > 0,
        r[0] == seed,
        is_cavity(mesh@.tets.dom(), r@, new_vertex.0, ghost.0, *orient, *in_sphere),
{
    let n: usize = mesh.num_tets();
    let mut r: Vec<TetId> = Vec::new();
    r.push(seed);
    let mut seen: KeySet = KeySet::new();
    seen.insert(make4(seed.0[0].0, seed.0[1].0, seed.0[2].0, seed.0[3].0));
    let mut out: Ghost<Set<TetKey>> = Ghost(Set::empty());
    let mut head: usize = 0;
    proof {
        lemma_distinct_bound(r@, mesh@.tets.dom());
        assert forall|t: TetKey| seen@.contains(key4(t.0, t.1, t.2, t.3)) implies holds_tet(r@, t)
            || out@.contains(t) by {
            lemma_key4(t.0, t.1, t.2, t.3);
            lemma_key4(seed@.0, seed@.1, seed@.2, seed@.3);
            assert(r[0]@ == t);
        }
    }
    while head < r.len()
        invariant
            0 <= head <= r.len() <= n,
            n == mesh@.tets.dom().len(),
            mesh@.tets.dom().finite(),
            mesh.wf(),
            forall|a: VertexId, b: VertexId, c: VertexId, d: VertexId|
                call_requires(*orient, (a, b, c, d)),
            forall|a: VertexId, b: VertexId, c: VertexId, d: VertexId, e: VertexId|
                call_requires(*in_sphere, (a, b, c, d, e)),
            r.len() > 0,
            r[0] == seed,
            grown(mesh, r@, seen@, out@, new_vertex.0, ghost.0, *orient, *in_sphere),
            closed_up_to(mesh, r@, out@, head as int),
        decreases n - head,
    {
        let t: TetId = r[head];
        proof {
            assert(mesh@.tets.contains_key(r[head as int]@));
            crate::simplex::lemma_canon_tet_fixed(t@);
            assert(t.key() == t@);
        }
        let next = mesh.adjacent_tets(t);
        let mut j: usize = 0;
        while j < next.len()
            invariant
                0 <= j <= next.len(),
                0 <= head < r.len() <= n,
                n == mesh@.tets.dom().len(),
                mesh@.tets.dom().finite(),
                mesh.wf(),
                forall|a: VertexId, b: VertexId, c: VertexId, d: VertexId|
                    call_requires(*orient, (a, b, c, d)),
                forall|a: VertexId, b: VertexId, c: VertexId, d: VertexId, e: VertexId|
                    call_requires(*in_sphere, (a, b, c, d, e)),
                r[0] == seed,
                r[head as int] == t,
                grown(mesh, r@, seen@, out@, new_vertex.0, ghost.0, *orient, *in_sphere),
                closed_up_to(mesh, r@, out@, head as int),
                forall|u: TetKey|
                    #![trigger holds_tet(next@, u)]
                    holds_tet(next@, u) ==> mesh@.tets.contains_key(u) && adjacent(t@, u),
                forall|q: int|
                    0 <= q < j ==> holds_tet(r@, (#[trigger] next[q])@) || out@.contains(
                        next[q]@,
                    ),
            decreases next.len() - j,
        {
            let u: TetId = next[j];
            proof {
                assert(holds_tet(next@, next[j as int]@));
                crate::simplex::lemma_canon_tet_fixed(u@);
            }
            let ghost r0 = r@;
            let ghost out0 = out@;
            out =
            take_in(
                mesh,
                u,
                &mut r,
                &mut seen,
                out,
                Ghost(head as int),
                new_vertex,
                ghost,
                orient,
                in_sphere,
            );
            proof {
                lemma_closed_kept(mesh, r0, r@, out0, out@, head as int);
                lemma_distinct_bound(r@, mesh@.tets.dom());
                assert(r[0] == r0[0]);
                assert(r[head as int] == r0[head as int]);
                assert forall|q: int| 0 <= q < j + 1 implies holds_tet(r@, (#[trigger] next[q])@)
                    || out@.contains(next[q]@) by {
                    if q < j {
                        assert(holds_tet(r0, next[q]@) || out0.contains(next[q]@));
                    }
                }
            }
            j = j + 1;
        }
        proof {
            assert forall|k: int, x: TetKey|
                0 <= k < head + 1 && mesh@.tets.contains_key(x) && #[trigger] adjacent(
                    r[k]@,
                    x,
                ) implies holds_tet(r@, x) || out@.contains(x) by {
                if k == head {
                    assert(holds_tet(next@, x));
                    let q = choose|q: int| 0 <= q < next.len() && (#[trigger] next[q])@ == x;
                    assert(holds_tet(r@, next[q]@) || out@.contains(next[q]@));
                }
            }
        }
        head = head + 1;
    }
    r
}

/// The tetrahedra that the insertion of `new_vertex` replaces: the cavity
/// grown from a tetrahedron whose sphere holds the vertex. The list is
/// empty only where every tetrahedron of the mesh was judged not to hold the
/// vertex.
pub fn tets_to_delete<V, E, F, T, O, S, C>(
    mesh: &Mesh<V, E, F, T, true>,
    start: VertexId,
    new_vertex: VertexId,
    ghost: VertexId,
    orient: &O,
    in_sphere: &S,
    closer: &C,
) -> (r: Vec<TetId>) where
    O: Fn(VertexId, VertexId, VertexId, VertexId) -> bool,
    S: Fn(VertexId, VertexId, VertexId, VertexId, VertexId) -> bool,
    C: Fn(VertexId, VertexId, VertexId) -> bool,

    requires
        mesh.wf(),
        total(*orient, *in_sphere, *closer),
    ensures
        is_cavity(mesh@.tets.dom(), r@, new_vertex.0, ghost.0, *orient, *in_sphere),
        r.len() > 0 ==> judged(*orient, *in_sphere, r[0]@, new_vertex.0, ghost.0, true),
        r.len() == 0 ==> forall|t: TetKey| #[trigger]
            mesh@.tets.contains_key(t) ==> judged(
                *orient,
                *in_sphere,
                t,
                new_vertex.0,
                ghost.0,
                false,
            ),
{
    match find_tet_to_delete(mesh, start, new_vertex, ghost, orient, in_sphere, closer) {
        Some(seed) => grow_cavity(mesh, seed, new_vertex, ghost, orient, in_sphere),
        None => Vec::new(),
    }
}

/// Whether `f` is a face of one of the first `n` tetrahedra of the list.
pub open spec fn face_within(c: Seq<TetId>, n: int, f: TriKey) -> bool {
    exists|k: int| 0 <= k < n && #[trigger] tet_has_face(c[k]@, f)
}

/// The list with the face `f` behind it, unless the other side of `f` is a
/// face of a tetrahedron of the cavity or `f` stands in the list.
pub open spec fn with_face(s: Seq<TriKey>, c: Seq<TetId>, f: TriKey) -> Seq<TriKey> {
    if !face_within(c, c.len() as int, tri_twin(f)) && !s.contains(f) {
        s.push(f)
    } else {
        s
    }
}

/// The boundary of the first `n` tetrahedra of a cavity, in the order in
/// which `boundary_tris` lists it: tetrahedron by tetrahedron, and for each
/// from the face opposite its first vertex to the face opposite its last.
pub open spec fn rim(c: Seq<TetId>, n: nat) -> Seq<TriKey>
    decreases n,
{
    if n == 0 {
        Seq::empty()
    } else {
        let x = c[n - 1]@;
        with_face(
            with_face(
                with_face(with_face(rim(c, (n - 1) as nat), c, tet_face(x, 0)), c, tet_face(x, 1)),
                c,
                tet_face(x, 2),
            ),
            c,
            tet_face(x, 3),
        )
    }
}

// Whether the set holds the keys of exactly the triangles of the list.
spec fn tracks(emitted: Set<u128>, out: Seq<TriId>) -> bool {
    forall|f: TriKey| emitted.contains(#[trigger] key3(f.0, f.1, f.2)) <==> holds_tri(out, f)
}

// Puts the keys of the four faces of `t` into the set.
fn note_faces(faces: &mut KeySet, t: (u32, u32, u32, u32))
    ensures
        forall|g: TriKey|
            final(faces)@.contains(#[trigger] key3(g.0, g.1, g.2)) <==> old(faces)@.contains(
                key3(g.0, g.1, g.2),
            ) || tet_has_face(t, g),
{
    let f0 = face(t, 0);
    let f1 = face(t, 1);
    let f2 = face(t, 2);
    let f3 = face(t, 3);
    faces.insert(make3(f0.0, f0.1, f0.2));
    faces.insert(make3(f1.0, f1.1, f1.2));
    faces.insert(make3(f2.0, f2.1, f2.2));
    faces.insert(make3(f3.0, f3.1, f3.2));
    proof {
        assert forall|g: TriKey|
            faces@.contains(#[trigger] key3(g.0, g.1, g.2)) <==> old(faces)@.contains(
                key3(g.0, g.1, g.2),
            ) || tet_has_face(t, g) by {
            lemma_key3(g.0, g.1, g.2);
            lemma_key3(f0.0, f0.1, f0.2);
            lemma_key3(f1.0, f1.1, f1.2);
            lemma_key3(f2.0, f2.1, f2.2);
            lemma_key3(f3.0, f3.1, f3.2);
        }
    }
}

// Puts the canonical triangle `f` behind the list unless its twin is among
// `faces` or it stands in the list.
fn emit_face(
    out: &mut Vec<TriId>,
    emitted: &mut KeySet,
    faces: &KeySet,
    f: (u32, u32, u32),
)
    requires
        is_canon_tri(f),
        distinct_tris(old(out)@),
        tracks(old(emitted)@, old(out)@),
    ensures
        distinct_tris(final(out)@),
        tracks(final(emitted)@, final(out)@),
        forall|g: TriKey|
            #![trigger holds_tri(final(out)@, g)]
            holds_tri(final(out)@, g) <==> holds_tri(old(out)@, g) || (g == f && !faces@.contains(
                key3(tri_twin(f).0, tri_twin(f).1, tri_twin(f).2),
            )),
        tri_keys(final(out)@) =~= if !faces@.contains(
            key3(tri_twin(f).0, tri_twin(f).1, tri_twin(f).2),
        ) && !tri_keys(old(out)@).contains(f) {
            tri_keys(old(out)@).push(f)
        } else {
            tri_keys(old(out)@)
        },
{
    proof {
        if holds_tri(out@, f) {
            let k = choose|k: int| 0 <= k < out.len() && (#[trigger] out[k])@ == f;
            assert(tri_keys(out@)[k] == f);
        }
        if tri_keys(out@).contains(f) {
            let k = choose|k: int| 0 <= k < tri_keys(out@).len() && tri_keys(out@)[k] == f;
            assert(out[k]@ == f);
        }
    }
    let w = canon3(f.0, f.2, f.1);
    let kw: u128 = make3(w.0, w.1, w.2);
    let kf: u128 = make3(f.0, f.1, f.2);
    if !faces.contains(&kw) && !emitted.contains(&kf) {
        let ghost out0 = out@;
        emitted.insert(kf);
        out.push(TriId([VertexId(f.0), VertexId(f.1), VertexId(f.2)]));
        proof {
            assert(out[out.len() - 1]@ == f);
            assert(!holds_tri(out0, f));
            assert forall|k1: int, k2: int| 0 <= k1 < k2 < out.len() implies (#[trigger] out[k1])@
                != (#[trigger] out[k2])@ by {
                assert(out[k1] == out0[k1]);
                if k2 < out.len() - 1 {
                    assert(out[k2] == out0[k2]);
                } else {
                    if out0[k1]@ == f {
                        assert(holds_tri(out0, f));
                    }
                }
            }
            assert forall|g: TriKey|
                #![trigger holds_tri(out@, g)]
                holds_tri(out@, g) <==> holds_tri(out0, g) || g == f by {
                if holds_tri(out0, g) {
                    let k = choose|k: int| 0 <= k < out0.len() && (#[trigger] out0[k])@ == g;
                    assert(out[k]@ == g);
                }
                if holds_tri(out@, g) && g != f {
                    let k = choose|k: int| 0 <= k < out.len() && (#[trigger] out[k])@ == g;
                    assert(out0[k]@ == g);
                }
            }
            assert forall|g: TriKey|
                emitted@.contains(#[trigger] key3(g.0, g.1, g.2)) <==> holds_tri(out@, g) by {
                lemma_key3(g.0, g.1, g.2);
                lemma_key3(f.0, f.1, f.2);
            }
        }
    } else {
        proof {
            if !faces@.contains(kw) {
                assert(holds_tri(out@, f));
            }
        }
    }
}

/// The boundary of a cavity: the faces of its tetrahedra whose twin is not
/// a face of one of its tetrahedra, each once, in the order of `rim`.
pub fn boundary_tris(cavity: &Vec<TetId>) -> (r: Vec<TriId>)
    requires
        forall|k: int| 0 <= k < cavity.len() ==> is_canon_tet((#[trigger] cavity[k])@),
    ensures
        tri_keys(r@) =~= rim(cavity@, cavity.len() as nat),
        distinct_tris(r@),
        forall|f: TriKey|
            #![trigger holds_tri(r@, f)]
            holds_tri(r@, f) <==> face_within(cavity@, cavity.len() as int, f) && !face_within(
                cavity@,
                cavity.len() as int,
                tri_twin(f),
            ),
{
    let mut faces: KeySet = KeySet::new();
    let mut i: usize = 0;
    while i < cavity.len()
        invariant
            0 <= i <= cavity.len(),
            forall|g: TriKey|
                faces@.contains(#[trigger] key3(g.0, g.1, g.2)) <==> face_within(
                    cavity@,
                    i as int,
                    g,
                ),
        decreases cavity.len() - i,
    {
        let t: TetId = cavity[i];
        let ghost before = faces@;
        note_faces(&mut faces, (t.0[0].0, t.0[1].0, t.0[2].0, t.0[3].0));
        proof {
            assert forall|g: TriKey|
                faces@.contains(#[trigger] key3(g.0, g.1, g.2)) <==> face_within(
                    cavity@,
                    i + 1,
                    g,
                ) by {
                if face_within(cavity@, i + 1, g) {
                    let k = choose|k: int| 0 <= k < i + 1 && #[trigger] tet_has_face(cavity[k]@, g);
                    if k < i {
                        assert(face_within(cavity@, i as int, g));
                    }
                }
                if before.contains(key3(g.0, g.1, g.2)) {
                    let k = choose|k: int| 0 <= k < i && #[trigger] tet_has_face(cavity[k]@, g);
                    assert(tet_has_face(cavity[k]@, g));
                }
                if tet_has_face(cavity[i as int]@, g) {
                }
            }
        }
        i = i + 1;
    }
    let mut r: Vec<TriId> = Vec::new();
    let mut emitted: KeySet = KeySet::new();
    let mut j: usize = 0;
    let ghost n = cavity.len() as int;
    while j < cavity.len()
        invariant
            0 <= j <= cavity.len(),
            n == cavity.len(),
            forall|k: int| 0 <= k < cavity.len() ==> is_canon_tet((#[trigger] cavity[k])@),
            forall|g: TriKey|
                faces@.contains(#[trigger] key3(g.0, g.1, g.2)) <==> face_within(cavity@, n, g),
            distinct_tris(r@),
            tracks(emitted@, r@),
            tri_keys(r@) =~= rim(cavity@, j as nat),
            forall|f: TriKey|
                #![trigger holds_tri(r@, f)]
                holds_tri(r@, f) <==> face_within(cavity@, j as int, f) && !face_within(
                    cavity@,
                    n,
                    tri_twin(f),
                ),
        decreases cavity.len() - j,
    {
        let t: TetId = cavity[j];
        let x = (t.0[0].0, t.0[1].0, t.0[2].0, t.0[3].0);
        let f0 = face(x, 0);
        let f1 = face(x, 1);
        let f2 = face(x, 2);
        let f3 = face(x, 3);
        proof {
            assert(is_canon_tet(cavity[j as int]@));
            lemma_face_gives_tet(x, 0);
            lemma_face_gives_tet(x, 1);
            lemma_face_gives_tet(x, 2);
            lemma_face_gives_tet(x, 3);
        }
        let ghost r0 = r@;
        proof {
            let w0 = tri_twin(f0);
            let w1 = tri_twin(f1);
            let w2 = tri_twin(f2);
            let w3 = tri_twin(f3);
            assert(faces@.contains(key3(w0.0, w0.1, w0.2)) <==> face_within(cavity@, n, w0));
            assert(faces@.contains(key3(w1.0, w1.1, w1.2)) <==> face_within(cavity@, n, w1));
            assert(faces@.contains(key3(w2.0, w2.1, w2.2)) <==> face_within(cavity@, n, w2));
            assert(faces@.contains(key3(w3.0, w3.1, w3.2)) <==> face_within(cavity@, n, w3));
        }
        emit_face(&mut r, &mut emitted, &faces, f0);
        let ghost r1 = r@;
        emit_face(&mut r, &mut emitted, &faces, f1);
        let ghost r2 = r@;
        emit_face(&mut r, &mut emitted, &faces, f2);
        let ghost r3 = r@;
        emit_face(&mut r, &mut emitted, &faces, f3);
        proof {
            assert(x == cavity[j as int]@);
            assert(((j + 1) as nat - 1) as nat == j as nat);
            assert(tri_keys(r1) =~= with_face(tri_keys(r0), cavity@, tet_face(x, 0)));
            assert(tri_keys(r2) =~= with_face(tri_keys(r1), cavity@, tet_face(x, 1)));
            assert(tri_keys(r3) =~= with_face(tri_keys(r2), cavity@, tet_face(x, 2)));
            assert(tri_keys(r@) =~= with_face(tri_keys(r3), cavity@, tet_face(x, 3)));
            assert(tri_keys(r@) =~= rim(cavity@, (j + 1) as nat));
            assert forall|f: TriKey|
                #![trigger holds_tri(r@, f)]
                holds_tri(r@, f) <==> face_within(cavity@, j + 1, f) && !face_within(
                    cavity@,
                    n,
                    tri_twin(f),
                ) by {
                let w = tri_twin(f);
                assert(faces@.contains(key3(w.0, w.1, w.2)) <==> face_within(cavity@, n, w));
                if face_within(cavity@, j + 1, f) {
                    let k = choose|k: int| 0 <= k < j + 1 && #[trigger] tet_has_face(cavity[k]@, f);
                    if k < j {
                        assert(face_within(cavity@, j as int, f));
                    } else {
                        assert(tet_has_face(x, f));
                    }
                }
                if holds_tri(r0, f) {
                    let k = choose|k: int| 0 <= k < j && #[trigger] tet_has_face(cavity[k]@, f);
                    assert(tet_has_face(cavity[k]@, f));
                }
                if tet_has_face(x, f) {
                    assert(tet_has_face(cavity[j as int]@, f));
                }
            }
        }
        j = j + 1;
    }
    r
}

/// Whether `x` is one of the first `n` tetrahedra of the list.
pub open spec fn among(cavity: Seq<TetId>, n: int, x: TetKey) -> bool {
    exists|k: int| 0 <= k < n && (#[trigger] cavity[k]).key() == x
}

/// The tetrahedra of the set but the first `n` of the cavity.
pub open spec fn without(tets: Set<TetKey>, cavity: Seq<TetId>, n: int) -> Set<TetKey> {
    tets.filter(|x: TetKey| !among(cavity, n, x))
}

/// Whether the face `f` gets a tetrahedron with the vertex `p`: the four
/// vertices differ and are among `vertices`.
pub open spec fn fans(f: TriKey, p: u32, vertices: Set<u32>) -> bool {
    distinct4(f.0, f.1, f.2, p) && vertices.contains(f.0) && vertices.contains(f.1)
        && vertices.contains(f.2) && vertices.contains(p)
}

/// The tetrahedra after the face `f` got its tetrahedron with `p`, as
/// `add_tet` adds it where no face may belong to two tetrahedra: the
/// tetrahedra that have a face of the new one go.
pub open spec fn fan_one(tets: Set<TetKey>, f: TriKey, p: u32, vertices: Set<u32>) -> Set<TetKey> {
    if fans(f, p, vertices) {
        tets.filter(|x: TetKey| !collides(x, canon_tet(f.0, f.1, f.2, p))).insert(
            canon_tet(f.0, f.1, f.2, p),
        )
    } else {
        tets
    }
}

/// The tetrahedra after the first `n` faces of the boundary got their
/// tetrahedron with `p`, in order, each as `fan_one` has it.
pub open spec fn fan(
    tets: Set<TetKey>,
    boundary: Seq<TriId>,
    p: u32,
    vertices: Set<u32>,
    n: nat,
) -> Set<TetKey>
    decreases n,
{
    if n == 0 {
        tets
    } else {
        fan_one(fan(tets, boundary, p, vertices, (n - 1) as nat), boundary[n - 1]@, p, vertices)
    }
}

/// The mesh after `remove_tet_pruning` of the first `n` tetrahedra of the
/// cavity, in order.
#[verifier::opaque]
pub open spec fn emptied<V, E, F, T>(
    m: MeshView<V, E, F, T>,
    cavity: Seq<TetId>,
    n: nat,
) -> MeshView<V, E, F, T>
    decreases n,
{
    if n == 0 {
        m
    } else {
        emptied(m, cavity, (n - 1) as nat).without_tet(cavity[n - 1].key())
    }
}

/// Whether `post` is the mesh `pre` after `add_tet` of the canonical
/// tetrahedron `k`, in a mesh where no face belongs to two tetrahedra, with
/// the payload that the tetrahedron has in `post`.
#[verifier::opaque]
pub open spec fn gained<V, E, F, T>(
    pre: MeshView<V, E, F, T>,
    post: MeshView<V, E, F, T>,
    k: TetKey,
) -> bool {
    pre.tet_put(post, k, post.tets[k], true)
}

// What `add_tet` makes of a mesh is what `gained` has.
proof fn lemma_gained<V, E, F, T>(
    pre: MeshView<V, E, F, T>,
    post: MeshView<V, E, F, T>,
    k: TetKey,
    value: T,
)
    requires
        pre.tet_put(post, k, value, true),
    ensures
        gained(pre, post, k),
{
    reveal(gained);
    assert(post.tets[k] == value);
}

/// Whether `post` is the mesh `mid` after the face `f` got its tetrahedron
/// with the vertex `p`, as `gained` has it; the mesh as it is where the
/// face gets none.
pub open spec fn fan_step<V, E, F, T>(
    mid: MeshView<V, E, F, T>,
    post: MeshView<V, E, F, T>,
    f: TriKey,
    p: u32,
) -> bool {
    if fans(f, p, mid.vertices.dom()) {
        gained(mid, post, canon_tet(f.0, f.1, f.2, p))
    } else {
        post == mid
    }
}

/// Whether `post` is the mesh `pre` after the first `n` faces of the
/// boundary got their tetrahedron with `p`, in order, each as `fan_step` has
/// it.
#[verifier::opaque]
pub open spec fn fanned<V, E, F, T>(
    pre: MeshView<V, E, F, T>,
    post: MeshView<V, E, F, T>,
    boundary: Seq<TriId>,
    p: u32,
    n: nat,
) -> bool
    decreases n,
{
    if n == 0 {
        post == pre
    } else {
        exists|mid: MeshView<V, E, F, T>|
            fanned(pre, mid, boundary, p, (n - 1) as nat) && #[trigger] fan_step(
                mid,
                post,
                boundary[n - 1]@,
                p,
            )
    }
}

// `emptied` one tetrahedron at a time.
proof fn lemma_emptied<V, E, F, T>(m: MeshView<V, E, F, T>, cavity: Seq<TetId>, n: nat)
    ensures
        emptied(m, cavity, 0) == m,
        emptied(m, cavity, n + 1) == emptied(m, cavity, n).without_tet(cavity[n as int].key()),
{
    reveal_with_fuel(emptied, 2);
    assert(((n + 1) - 1) as nat == n);
}

// `fanned` one face at a time.
proof fn lemma_fanned<V, E, F, T>(
    pre: MeshView<V, E, F, T>,
    mid: MeshView<V, E, F, T>,
    post: MeshView<V, E, F, T>,
    boundary: Seq<TriId>,
    p: u32,
    n: nat,
)
    requires
        fanned(pre, mid, boundary, p, n),
        fan_step(mid, post, boundary[n as int]@, p),
    ensures
        fanned(pre, post, boundary, p, n + 1),
        fanned(pre, pre, boundary, p, 0),
{
    reveal_with_fuel(fanned, 2);
    assert(((n + 1) - 1) as nat == n);
}

// Adds the tetrahedron that the face `f` makes with `new_vertex`, unless
// the face gets none.
fn fan_face<V, E, F, T, DE, DF, DT>(
    mesh: &mut Mesh<V, E, F, T, true>,
    f: TriId,
    new_vertex: VertexId,
    default_edge: &DE,
    default_tri: &DF,
    default_tet: &DT,
) where DE: Fn() -> E, DF: Fn() -> F, DT: Fn() -> T
    requires
        old(mesh).wf(),
        call_requires(*default_edge, ()),
        call_requires(*default_tri, ()),
        call_requires(*default_tet, ()),
    ensures
        final(mesh).wf(),
        final(mesh)@.vertices == old(mesh)@.vertices,
        final(mesh)@.next_id == old(mesh)@.next_id,
        fan_step(old(mesh)@, final(mesh)@, f@, new_vertex.0),
        final(mesh)@.tets.dom() =~= fan_one(
            old(mesh)@.tets.dom(),
            f@,
            new_vertex.0,
            old(mesh)@.vertices.dom(),
        ),
        forall|x: TetKey| #[trigger]
            final(mesh)@.tets.contains_key(x) ==> (old(mesh)@.tets.contains_key(x) && final(mesh)@.tets[x] == old(mesh)@.tets[x]) || call_ensures(
                *default_tet,
                (),
                final(mesh)@.tets[x],
            ),
        forall|g: TriKey| #[trigger]
            final(mesh)@.tris.contains_key(g) ==> (old(mesh)@.tris.contains_key(g) && final(mesh)@.tris[g] == old(mesh)@.tris[g]) || call_ensures(
                *default_tri,
                (),
                final(mesh)@.tris[g],
            ),
        forall|e: EdgeKey| #[trigger]
            final(mesh)@.edges.contains_key(e) ==> (old(mesh)@.edges.contains_key(e) && final(mesh)@.edges[e] == old(mesh)@.edges[e]) || call_ensures(
                *default_edge,
                (),
                final(mesh)@.edges[e],
            ),
{
    let a: VertexId = f.0[0];
    let b: VertexId = f.0[1];
    let c: VertexId = f.0[2];
    let ghost verts = mesh@.vertices.dom();
    proof {
        assert(f@ == (a.0, b.0, c.0));
    }
    match TetId::try_new([a, b, c, new_vertex]) {
        Some(t) => {
            if mesh.has_vertex(a.0) && mesh.has_vertex(b.0) && mesh.has_vertex(c.0)
                && mesh.has_vertex(new_vertex.0) {
                let value = default_tet();
                proof {
                    lemma_canon_tet(a.0, b.0, c.0, new_vertex.0);
                    assert(fans(f@, new_vertex.0, verts));
                }
                mesh.put_tet(
                    (t.0[0].0, t.0[1].0, t.0[2].0, t.0[3].0),
                    value,
                    default_edge,
                    default_tri,
                );
                proof {
                    let k = canon_tet(a.0, b.0, c.0, new_vertex.0);
                    assert(t@ == k);
                    assert(mesh@.tets.dom() =~= old(mesh)@.tets.dom().filter(
                        |x: TetKey| !collides(x, k),
                    ).insert(k));
                    lemma_gained(old(mesh)@, mesh@, k, value);
                    assert forall|x: TetKey| #[trigger] mesh@.tets.contains_key(x) implies (old(mesh)@.tets.contains_key(x) && mesh@.tets[x] == old(mesh)@.tets[x])
                        || call_ensures(*default_tet, (), mesh@.tets[x]) by {
                        if x != k {
                            assert(old(mesh)@.tets.contains_key(x));
                        }
                    }
                    assert forall|g: TriKey| #[trigger] mesh@.tris.contains_key(g) implies (old(mesh)@.tris.contains_key(g) && mesh@.tris[g] == old(mesh)@.tris[g])
                        || call_ensures(*default_tri, (), mesh@.tris[g]) by {
                        if old(mesh)@.tris.contains_key(g) {
                        }
                    }
                    assert forall|e: EdgeKey| #[trigger] mesh@.edges.contains_key(e) implies (old(mesh)@.edges.contains_key(e) && mesh@.edges[e] == old(mesh)@.edges[e])
                        || call_ensures(*default_edge, (), mesh@.edges[e]) by {
                        if old(mesh)@.edges.contains_key(e) {
                        }
                    }
                }
            } else {
                proof {
                    assert(!fans(f@, new_vertex.0, verts));
                }
            }
        },
        None => {
            proof {
                assert(!fans(f@, new_vertex.0, verts));
            }
        },
    }
}

/// Replaces a cavity by a fan around `new_vertex`: removes the tetrahedra
/// of the cavity, each with the faces and edges that it leaves alone, then
/// adds for each face `(a, b, c)` of the boundary the tetrahedron
/// `(a, b, c, new_vertex)`, with payloads that the defaults make. A face
/// that has `new_vertex`, or a vertex that is not in the mesh, gets no
/// tetrahedron.
pub fn retriangulate<V, E, F, T, DE, DF, DT>(
    mesh: &mut Mesh<V, E, F, T, true>,
    cavity: &Vec<TetId>,
    boundary: &Vec<TriId>,
    new_vertex: VertexId,
    default_edge: &DE,
    default_tri: &DF,
    default_tet: &DT,
) where DE: Fn() -> E, DF: Fn() -> F, DT: Fn() -> T
    requires
        old(mesh).wf(),
        forall|k: int| 0 <= k < cavity.len() ==> (#[trigger] cavity[k]).valid(),
        call_requires(*default_edge, ()),
        call_requires(*default_tri, ()),
        call_requires(*default_tet, ()),
    ensures
        final(mesh).wf(),
        final(mesh)@.vertices == old(mesh)@.vertices,
        final(mesh)@.next_id == old(mesh)@.next_id,
        fanned(
            emptied(old(mesh)@, cavity@, cavity.len() as nat),
            final(mesh)@,
            boundary@,
            new_vertex.0,
            boundary.len() as nat,
        ),
        final(mesh)@.tets.dom() =~= fan(
            without(old(mesh)@.tets.dom(), cavity@, cavity.len() as int),
            boundary@,
            new_vertex.0,
            old(mesh)@.vertices.dom(),
            boundary.len() as nat,
        ),
        forall|x: TetKey| #[trigger]
            final(mesh)@.tets.contains_key(x) ==> (old(mesh)@.tets.contains_key(x) && final(mesh)@.tets[x] == old(mesh)@.tets[x]) || call_ensures(
                *default_tet,
                (),
                final(mesh)@.tets[x],
            ),
        forall|g: TriKey| #[trigger]
            final(mesh)@.tris.contains_key(g) ==> (old(mesh)@.tris.contains_key(g) && final(mesh)@.tris[g] == old(mesh)@.tris[g]) || call_ensures(
                *default_tri,
                (),
                final(mesh)@.tris[g],
            ),
        forall|e: EdgeKey| #[trigger]
            final(mesh)@.edges.contains_key(e) ==> (old(mesh)@.edges.contains_key(e) && final(mesh)@.edges[e] == old(mesh)@.edges[e]) || call_ensures(
                *default_edge,
                (),
                final(mesh)@.edges[e],
            ),
{
    proof {
        lemma_emptied(mesh@, cavity@, 0);
    }
    let mut i: usize = 0;
    while i < cavity.len()
        invariant
            0 <= i <= cavity.len(),
            mesh.wf(),
            forall|k: int| 0 <= k < cavity.len() ==> (#[trigger] cavity[k]).valid(),
            mesh@.vertices == old(mesh)@.vertices,
            mesh@.next_id == old(mesh)@.next_id,
            mesh@ == emptied(old(mesh)@, cavity@, i as nat),
            mesh@.tets.dom() =~= without(old(mesh)@.tets.dom(), cavity@, i as int),
            forall|x: TetKey| #[trigger]
                mesh@.tets.contains_key(x) ==> old(mesh)@.tets.contains_key(x) && mesh@.tets[x]
                    == old(mesh)@.tets[x],
            forall|g: TriKey| #[trigger]
                mesh@.tris.contains_key(g) ==> old(mesh)@.tris.contains_key(g) && mesh@.tris[g]
                    == old(mesh)@.tris[g],
            forall|e: EdgeKey| #[trigger]
                mesh@.edges.contains_key(e) ==> old(mesh)@.edges.contains_key(e) && mesh@.edges[e]
                    == old(mesh)@.edges[e],
        decreases cavity.len() - i,
    {
        let ghost before = mesh@;
        let t = crate::simplex::canon4(
            cavity[i].0[0].0,
            cavity[i].0[1].0,
            cavity[i].0[2].0,
            cavity[i].0[3].0,
        );
        mesh.discard_tet(t);
        proof {
            assert(cavity[i as int].key() == t);
            lemma_emptied(old(mesh)@, cavity@, i as nat);
            assert forall|g: TriKey| #[trigger] mesh@.tris.contains_key(g) implies old(mesh)@.tris.contains_key(g) && mesh@.tris[g] == old(mesh)@.tris[g] by {
                assert(before.tris.contains_key(g));
            }
            assert forall|e: EdgeKey| #[trigger] mesh@.edges.contains_key(e) implies old(mesh)@.edges.contains_key(e) && mesh@.edges[e] == old(mesh)@.edges[e] by {
                assert(before.edges.contains_key(e));
            }
            assert forall|x: TetKey| among(cavity@, i + 1, x) <==> among(cavity@, i as int, x) || x
                == t by {
                if among(cavity@, i + 1, x) {
                    let k = choose|k: int| 0 <= k < i + 1 && (#[trigger] cavity[k]).key() == x;
                    if k < i {
                        assert(among(cavity@, i as int, x));
                    }
                }
                if among(cavity@, i as int, x) {
                    let k = choose|k: int| 0 <= k < i && (#[trigger] cavity[k]).key() == x;
                    assert(cavity[k].key() == x);
                }
            }
            assert(mesh@.tets.dom() =~= without(old(mesh)@.tets.dom(), cavity@, i + 1));
        }
        i = i + 1;
    }
    let ghost base = mesh@.tets.dom();
    let ghost hollow = mesh@;
    let ghost verts = old(mesh)@.vertices.dom();
    let mut j: usize = 0;
    proof {
        reveal_with_fuel(fanned, 1);
        assert(fanned(hollow, hollow, boundary@, new_vertex.0, 0));
    }
    while j < boundary.len()
        invariant
            0 <= j <= boundary.len(),
            mesh.wf(),
            call_requires(*default_edge, ()),
            call_requires(*default_tri, ()),
            call_requires(*default_tet, ()),
            mesh@.vertices == old(mesh)@.vertices,
            verts == old(mesh)@.vertices.dom(),
            mesh@.next_id == old(mesh)@.next_id,
            mesh@.tets.dom() =~= fan(base, boundary@, new_vertex.0, verts, j as nat),
            fanned(hollow, mesh@, boundary@, new_vertex.0, j as nat),
            forall|x: TetKey| #[trigger]
                mesh@.tets.contains_key(x) ==> (old(mesh)@.tets.contains_key(x) && mesh@.tets[x]
                    == old(mesh)@.tets[x]) || call_ensures(*default_tet, (), mesh@.tets[x]),
            forall|g: TriKey| #[trigger]
                mesh@.tris.contains_key(g) ==> (old(mesh)@.tris.contains_key(g) && mesh@.tris[g]
                    == old(mesh)@.tris[g]) || call_ensures(*default_tri, (), mesh@.tris[g]),
            forall|e: EdgeKey| #[trigger]
                mesh@.edges.contains_key(e) ==> (old(mesh)@.edges.contains_key(e) && mesh@.edges[e]
                    == old(mesh)@.edges[e]) || call_ensures(*default_edge, (), mesh@.edges[e]),
        decreases boundary.len() - j,
    {
        let ghost before = mesh@;
        fan_face(mesh, boundary[j], new_vertex, default_edge, default_tri, default_tet);
        proof {
            lemma_fanned(hollow, before, mesh@, boundary@, new_vertex.0, j as nat);
            assert(((j + 1) as nat - 1) as nat == j as nat);
            assert forall|x: TetKey| #[trigger] mesh@.tets.contains_key(x) implies (old(mesh)@.tets.contains_key(x) && mesh@.tets[x] == old(mesh)@.tets[x]) || call_ensures(
                *default_tet,
                (),
                mesh@.tets[x],
            ) by {
                if before.tets.contains_key(x) {
                }
            }
            assert forall|g: TriKey| #[trigger] mesh@.tris.contains_key(g) implies (old(mesh)@.tris.contains_key(g) && mesh@.tris[g] == old(mesh)@.tris[g]) || call_ensures(
                *default_tri,
                (),
                mesh@.tris[g],
            ) by {
                if before.tris.contains_key(g) {
                }
            }
            assert forall|e: EdgeKey| #[trigger] mesh@.edges.contains_key(e) implies (old(mesh)@.edges.contains_key(e) && mesh@.edges[e] == old(mesh)@.edges[e]) || call_ensures(
                *default_edge,
                (),
                mesh@.edges[e],
            ) by {
                if before.edges.contains_key(e) {
                }
            }
        }
        j = j + 1;
    }
}

/// Whether `b` lists, each once, the faces of the tetrahedra of `c` whose
/// other side is no face of a tetrahedron of `c`.
pub open spec fn is_boundary(c: Seq<TetId>, b: Seq<TriId>) -> bool {
    &&& distinct_tris(b)
    &&& forall|f: TriKey|
        #![trigger holds_tri(b, f)]
        holds_tri(b, f) <==> face_within(c, c.len() as int, f) && !face_within(
            c,
            c.len() as int,
            tri_twin(f),
        )
}

/// Whether `post` holds the tetrahedra that `insert_vertex` of `new_vertex`
/// makes of the tetrahedra `pre`, with the cavity `c` and its boundary `b`:
/// the cavity starts with a tetrahedron judged to hold the vertex in its
/// sphere, or is empty where every tetrahedron was judged not to; the
/// tetrahedra of the cavity went, and the fan around the vertex came.
pub open spec fn replaces<O, S>(
    pre: Set<TetKey>,
    post: Set<TetKey>,
    vertices: Set<u32>,
    new_vertex: u32,
    ghost: u32,
    orient: O,
    in_sphere: S,
    c: Seq<TetId>,
    b: Seq<TriId>,
) -> bool where
    O: Fn(VertexId, VertexId, VertexId, VertexId) -> bool,
    S: Fn(VertexId, VertexId, VertexId, VertexId, VertexId) -> bool,
 {
    &&& is_cavity(pre, c, new_vertex, ghost, orient, in_sphere)
    &&& c.len() > 0 ==> judged(orient, in_sphere, c[0]@, new_vertex, ghost, true)
    &&& c.len() == 0 ==> forall|t: TetKey| #[trigger]
        pre.contains(t) ==> judged(orient, in_sphere, t, new_vertex, ghost, false)
    &&& is_boundary(c, b)
    &&& post =~= fan(without(pre, c, c.len() as int), b, new_vertex, vertices, b.len())
}

/// Whether `post` is the mesh `pre` after `insert_vertex` of `new_vertex`,
/// with the cavity `c` and its boundary `b`: the tetrahedra are as
/// `replaces` has them, the boundary is listed as `rim` has it, and the
/// mesh is `pre` after the tetrahedra of the cavity went, each as
/// `remove_tet_pruning` has it, and the tetrahedra of the fan came, each as
/// `add_tet` has it.
#[verifier::opaque]
pub open spec fn inserted<V, E, F, T, O, S>(
    pre: MeshView<V, E, F, T>,
    post: MeshView<V, E, F, T>,
    new_vertex: u32,
    ghost: u32,
    orient: O,
    in_sphere: S,
    c: Seq<TetId>,
    b: Seq<TriId>,
) -> bool where
    O: Fn(VertexId, VertexId, VertexId, VertexId) -> bool,
    S: Fn(VertexId, VertexId, VertexId, VertexId, VertexId) -> bool,
 {
    &&& replaces(
        pre.tets.dom(),
        post.tets.dom(),
        pre.vertices.dom(),
        new_vertex,
        ghost,
        orient,
        in_sphere,
        c,
        b,
    )
    &&& tri_keys(b) =~= rim(c, c.len())
    &&& fanned(emptied(pre, c, c.len()), post, b, new_vertex, b.len())
}

/// Whether `post` is a mesh that `insert_vertex` of `new_vertex` can make
/// of the mesh `pre`.
pub open spec fn put_in<V, E, F, T, O, S>(
    pre: MeshView<V, E, F, T>,
    post: MeshView<V, E, F, T>,
    new_vertex: u32,
    ghost: u32,
    orient: O,
    in_sphere: S,
) -> bool where
    O: Fn(VertexId, VertexId, VertexId, VertexId) -> bool,
    S: Fn(VertexId, VertexId, VertexId, VertexId, VertexId) -> bool,
 {
    exists|c: Seq<TetId>, b: Seq<TriId>|
        inserted(pre, post, new_vertex, ghost, orient, in_sphere, c, b)
}

/// Puts the vertex `new_vertex` into the tetrahedralization: finds the
/// cavity for it by `tets_to_delete`, and replaces the cavity by the fan
/// around the vertex on the boundary of the cavity. Where no tetrahedron
/// holds the vertex in its sphere, nothing changes.
///
/// Returns the cavity and its boundary.
pub fn insert_vertex<V, E, F, T, DE, DF, DT, O, S, C>(
    mesh: &mut Mesh<V, E, F, T, true>,
    start: VertexId,
    new_vertex: VertexId,
    ghost: VertexId,
    default_edge: &DE,
    default_tri: &DF,
    default_tet: &DT,
    orient: &O,
    in_sphere: &S,
    closer: &C,
) -> (r: (Vec<TetId>, Vec<TriId>)) where
    DE: Fn() -> E,
    DF: Fn() -> F,
    DT: Fn() -> T,
    O: Fn(VertexId, VertexId, VertexId, VertexId) -> bool,
    S: Fn(VertexId, VertexId, VertexId, VertexId, VertexId) -> bool,
    C: Fn(VertexId, VertexId, VertexId) -> bool,

    requires
        old(mesh).wf(),
        call_requires(*default_edge, ()),
        call_requires(*default_tri, ()),
        call_requires(*default_tet, ()),
        total(*orient, *in_sphere, *closer),
    ensures
        final(mesh).wf(),
        final(mesh)@.vertices == old(mesh)@.vertices,
        final(mesh)@.next_id == old(mesh)@.next_id,
        inserted(
            old(mesh)@,
            final(mesh)@,
            new_vertex.0,
            ghost.0,
            *orient,
            *in_sphere,
            r.0@,
            r.1@,
        ),
        r.0.len() == 0 ==> final(mesh)@ == old(mesh)@,
        forall|x: TetKey| #[trigger]
            final(mesh)@.tets.contains_key(x) ==> (old(mesh)@.tets.contains_key(x) && final(mesh)@.tets[x]
                == old(mesh)@.tets[x]) || call_ensures(*default_tet, (), final(mesh)@.tets[x]),
        forall|g: TriKey| #[trigger]
            final(mesh)@.tris.contains_key(g) ==> (old(mesh)@.tris.contains_key(g) && final(mesh)@.tris[g]
                == old(mesh)@.tris[g]) || call_ensures(*default_tri, (), final(mesh)@.tris[g]),
        forall|e: EdgeKey| #[trigger]
            final(mesh)@.edges.contains_key(e) ==> (old(mesh)@.edges.contains_key(e) && final(mesh)@.edges[e]
                == old(mesh)@.edges[e]) || call_ensures(*default_edge, (), final(mesh)@.edges[e]),
{
    proof {
        reveal(inserted);
    }
    let cavity = tets_to_delete(mesh, start, new_vertex, ghost, orient, in_sphere, closer);
    if cavity.len() == 0 {
        let boundary: Vec<TriId> = Vec::new();
        proof {
            assert forall|x: TetKey| !among(cavity@, 0, x) by {}
            assert(without(mesh@.tets.dom(), cavity@, 0) =~= mesh@.tets.dom());
            assert forall|f: TriKey| !face_within(cavity@, 0, f) by {}
            assert forall|f: TriKey| !holds_tri(boundary@, f) by {}
            lemma_emptied(mesh@, cavity@, 0);
            reveal_with_fuel(fanned, 1);
        }
        return (cavity, boundary);
    }
    proof {
        assert forall|k: int| 0 <= k < cavity.len() implies is_canon_tet((#[trigger] cavity[k])@)
            && cavity[k].valid() by {
            assert(mesh@.tets.contains_key(cavity[k]@));
            crate::simplex::lemma_canon_tet_fixed(cavity[k]@);
        }
    }
    let boundary = boundary_tris(&cavity);
    retriangulate(mesh, &cavity, &boundary, new_vertex, default_edge, default_tri, default_tet);
    (cavity, boundary)
}

/// The tetrahedron that the ghost vertex makes with the other side of the
/// canonical triangle `f`.
pub open spec fn hull_tet(f: TriKey, ghost: u32) -> TetKey {
    canon_tet(f.0, f.2, f.1, ghost)
}

// A tetrahedron and the ghost tetrahedra on two of its faces share no
// oriented face.
proof fn lemma_hull_tets(t: TetKey, ghost: u32, i: int, j: int)
    requires
        is_canon_tet(t),
        t.0 < ghost,
        t.1 < ghost,
        t.2 < ghost,
        t.3 < ghost,
        0 <= i < 4,
        0 <= j < 4,
        i != j,
    ensures
        is_canon_tet(hull_tet(tet_face(t, i), ghost)),
        !collides(t, hull_tet(tet_face(t, i), ghost)),
        !collides(hull_tet(tet_face(t, j), ghost), hull_tet(tet_face(t, i), ghost)),
{
    let f = tet_face(t, i);
    lemma_canon_tet(f.0, f.2, f.1, ghost);
}

/// The first tetrahedron with the ghost tetrahedra on its four faces.
pub open spec fn first_tets(t: TetKey, ghost: u32) -> Set<TetKey> {
    Set::empty().insert(t).insert(hull_tet(tet_face(t, 0), ghost)).insert(
        hull_tet(tet_face(t, 1), ghost),
    ).insert(hull_tet(tet_face(t, 2), ghost)).insert(hull_tet(tet_face(t, 3), ghost))
}

/// Whether `ids` lists the vertices, each once, in the order of their
/// numbers.
pub open spec fn is_listing(ids: Seq<VertexId>, vertices: Set<u32>) -> bool {
    &&& forall|i: int, j: int| 0 <= i < j < ids.len() ==> ids[i].0 < ids[j].0
    &&& forall|i: int| 0 <= i < ids.len() ==> vertices.contains(#[trigger] ids[i].0)
    &&& forall|a: u32| vertices.contains(a) ==> exists|i: int| 0 <= i < ids.len() && ids[i].0 == a
}

/// Whether `post` is the mesh `pre` after the tetrahedron `t` was added
/// and then the ghost tetrahedron on each of its faces, from the face
/// opposite its last vertex to the face opposite its first, each as
/// `gained` has it; `mids` holds the mesh after each of the first four.
pub open spec fn hulled<V, E, F, T>(
    pre: MeshView<V, E, F, T>,
    post: MeshView<V, E, F, T>,
    t: TetKey,
    ghost: u32,
    mids: Seq<MeshView<V, E, F, T>>,
) -> bool {
    &&& mids.len() == 4
    &&& gained(pre, mids[0], t)
    &&& gained(mids[0], mids[1], hull_tet(tet_face(t, 3), ghost))
    &&& gained(mids[1], mids[2], hull_tet(tet_face(t, 2), ghost))
    &&& gained(mids[2], mids[3], hull_tet(tet_face(t, 1), ghost))
    &&& gained(mids[3], post, hull_tet(tet_face(t, 0), ghost))
    &&& post.tets.dom() =~= first_tets(t, ghost)
}

/// Whether `first` is the mesh with which the tetrahedralization of the
/// vertices `ids` starts from the mesh `pre`: the tetrahedron of the last
/// four vertices, in the order in which `orient` holds of them, with the
/// ghost tetrahedra around, as `hulled` has it.
pub open spec fn starts<V, E, F, T, O>(
    ids: Seq<VertexId>,
    ghost: u32,
    orient: O,
    pre: MeshView<V, E, F, T>,
    first: MeshView<V, E, F, T>,
) -> bool where O: Fn(VertexId, VertexId, VertexId, VertexId) -> bool {
    let n = ids.len() as int;
    let a = ids[n - 1];
    let b = ids[n - 2];
    let c = ids[n - 3];
    let d = ids[n - 4];
    ||| call_ensures(orient, (a, b, c, d), true) && exists|mids: Seq<MeshView<V, E, F, T>>| #[trigger]
        hulled(pre, first, canon_tet(a.0, b.0, c.0, d.0), ghost, mids)
    ||| call_ensures(orient, (a, b, c, d), false) && exists|mids: Seq<MeshView<V, E, F, T>>| #[trigger]
        hulled(pre, first, canon_tet(a.0, b.0, d.0, c.0), ghost, mids)
}

/// The tetrahedra of the set that do not have the vertex `ghost`.
pub open spec fn real_tets(tets: Set<TetKey>, ghost: u32) -> Set<TetKey> {
    tets.filter(|x: TetKey| !tet_has_vertex(x, ghost))
}

/// Whether `result` is the mesh that `delaunay_tets` makes of the mesh
/// `orig`, with `ids` as the listing of its vertices and `hist` as the mesh
/// after each step: the ghost vertex is added, `hist` starts as `starts`
/// has it, each further vertex, from the fifth from the end of the listing
/// down to the first, is put in as `put_in` has it, and in the end the ghost
/// vertex goes as `remove_vertex_pruning` has it, which leaves the
/// tetrahedra without the ghost vertex.
pub open spec fn made_by<V, E, F, T, O, S>(
    orig: MeshView<V, E, F, T>,
    ghost_value: V,
    orient: O,
    in_sphere: S,
    ids: Seq<VertexId>,
    hist: Seq<MeshView<V, E, F, T>>,
    result: MeshView<V, E, F, T>,
) -> bool where
    O: Fn(VertexId, VertexId, VertexId, VertexId) -> bool,
    S: Fn(VertexId, VertexId, VertexId, VertexId, VertexId) -> bool,
 {
    &&& is_listing(ids, orig.vertices.dom())
    &&& ids.len() >= 4
    &&& hist.len() == ids.len() - 3
    &&& starts(ids, orig.next_id, orient, orig.add_vertex(ghost_value), hist[0])
    &&& forall|i: int|
        0 <= i < ids.len() - 4 ==> put_in(
            #[trigger] hist[i],
            hist[i + 1],
            ids[ids.len() - 5 - i].0,
            orig.next_id,
            orient,
            in_sphere,
        )
    &&& hist.last().vertex_purged(result, orig.next_id)
    &&& result.tets.dom() =~= real_tets(hist.last().tets.dom(), orig.next_id)
}

// Adds the ghost tetrahedron on the face of `first` opposite its vertex at
// place `i`.
fn add_hull_tet<V, E, F, T, DE, DF, DT>(
    mesh: &mut Mesh<V, E, F, T, true>,
    first: TetId,
    i: usize,
    ghost: VertexId,
    default_edge: &DE,
    default_tri: &DF,
    default_tet: &DT,
) where DE: Fn() -> E, DF: Fn() -> F, DT: Fn() -> T
    requires
        old(mesh).wf(),
        is_canon_tet(first@),
        0 <= i < 4,
        forall|v: u32|
            tet_has_vertex(first@, v) ==> v < ghost.0 && old(mesh)@.vertices.contains_key(v),
        old(mesh)@.vertices.contains_key(ghost.0),
        forall|x: TetKey| #[trigger]
            old(mesh)@.tets.contains_key(x) ==> x == first@ || exists|j: int|
                i < j < 4 && x == hull_tet(#[trigger] tet_face(first@, j), ghost.0),
        call_requires(*default_edge, ()),
        call_requires(*default_tri, ()),
        call_requires(*default_tet, ()),
    ensures
        final(mesh).wf(),
        final(mesh)@.vertices == old(mesh)@.vertices,
        final(mesh)@.next_id == old(mesh)@.next_id,
        gained(old(mesh)@, final(mesh)@, hull_tet(tet_face(first@, i as int), ghost.0)),
        final(mesh)@.tets.dom() =~= old(mesh)@.tets.dom().insert(
            hull_tet(tet_face(first@, i as int), ghost.0),
        ),
        forall|x: TetKey| #[trigger]
            final(mesh)@.tets.contains_key(x) ==> (old(mesh)@.tets.contains_key(x) && final(mesh)@.tets[x] == old(mesh)@.tets[x]) || call_ensures(
                *default_tet,
                (),
                final(mesh)@.tets[x],
            ),
        forall|g: TriKey| #[trigger]
            final(mesh)@.tris.contains_key(g) ==> (old(mesh)@.tris.contains_key(g) && final(mesh)@.tris[g] == old(mesh)@.tris[g]) || call_ensures(
                *default_tri,
                (),
                final(mesh)@.tris[g],
            ),
        forall|e: EdgeKey| #[trigger]
            final(mesh)@.edges.contains_key(e) ==> (old(mesh)@.edges.contains_key(e) && final(mesh)@.edges[e] == old(mesh)@.edges[e]) || call_ensures(
                *default_edge,
                (),
                final(mesh)@.edges[e],
            ),
{
    let tri: (u32, u32, u32) = face((first.0[0].0, first.0[1].0, first.0[2].0, first.0[3].0), i);
    proof {
        lemma_face_gives_tet(first@, i as int);
        lemma_face_vertices(first@, i as int);
        assert(tri == tet_face(first@, i as int));
        assert(is_canon_tri(tri));
        assert(tri_has_vertex(tri, tri.0) && tri_has_vertex(tri, tri.1) && tri_has_vertex(
            tri,
            tri.2,
        ));
        assert(tet_has_vertex(first@, tri.0) && tet_has_vertex(first@, tri.1) && tet_has_vertex(
            first@,
            tri.2,
        ));
        assert(tri.0 < ghost.0 && tri.1 < ghost.0 && tri.2 < ghost.0);
        lemma_canon_tet(tri.0, tri.2, tri.1, ghost.0);
    }
    let t = canon4(tri.0, tri.2, tri.1, ghost.0);
    let value = default_tet();
    mesh.put_tet(t, value, default_edge, default_tri);
    proof {
        let h = hull_tet(tet_face(first@, i as int), ghost.0);
        assert(t == h);
        assert(tet_has_vertex(first@, first@.0) && tet_has_vertex(first@, first@.1)
            && tet_has_vertex(first@, first@.2) && tet_has_vertex(first@, first@.3));
        assert forall|x: TetKey| #[trigger] old(mesh)@.tets.contains_key(x) implies !collides(
            x,
            h,
        ) by {
            if x != first@ {
                let j = choose|j: int|
                    i < j < 4 && x == hull_tet(#[trigger] tet_face(first@, j), ghost.0);
                lemma_hull_tets(first@, ghost.0, i as int, j);
            } else {
                lemma_hull_tets(first@, ghost.0, i as int, if i == 0 {
                    1
                } else {
                    0
                });
            }
        }
        assert(mesh@.tets.dom() =~= old(mesh)@.tets.dom().insert(h));
        lemma_gained(old(mesh)@, mesh@, h, value);
        assert forall|x: TetKey| #[trigger] mesh@.tets.contains_key(x) implies (old(mesh)@.tets.contains_key(x) && mesh@.tets[x] == old(mesh)@.tets[x]) || call_ensures(
            *default_tet,
            (),
            mesh@.tets[x],
        ) by {
            if x != h {
                assert(old(mesh)@.tets.contains_key(x));
            }
        }
        assert forall|g: TriKey| #[trigger] mesh@.tris.contains_key(g) implies (old(mesh)@.tris.contains_key(g) && mesh@.tris[g] == old(mesh)@.tris[g]) || call_ensures(
            *default_tri,
            (),
            mesh@.tris[g],
        ) by {
            if old(mesh)@.tris.contains_key(g) {
            }
        }
        assert forall|e: EdgeKey| #[trigger] mesh@.edges.contains_key(e) implies (old(mesh)@.edges.contains_key(e) && mesh@.edges[e] == old(mesh)@.edges[e]) || call_ensures(
            *default_edge,
            (),
            mesh@.edges[e],
        ) by {
            if old(mesh)@.edges.contains_key(e) {
            }
        }
    }
}

// Adds the first tetrahedron and the ghost tetrahedra on its four faces to
// a mesh that holds vertices only.
fn seed<V, E, F, T, DE, DF, DT>(
    mesh: &mut Mesh<V, E, F, T, true>,
    first: TetId,
    ghost: VertexId,
    default_edge: &DE,
    default_tri: &DF,
    default_tet: &DT,
) where DE: Fn() -> E, DF: Fn() -> F, DT: Fn() -> T
    requires
        old(mesh).wf(),
        is_canon_tet(first@),
        forall|v: u32|
            tet_has_vertex(first@, v) ==> v < ghost.0 && old(mesh)@.vertices.contains_key(v),
        old(mesh)@.vertices.contains_key(ghost.0),
        forall|x: TetKey| !old(mesh)@.tets.contains_key(x),
        forall|g: TriKey| !old(mesh)@.tris.contains_key(g),
        forall|e: EdgeKey| !old(mesh)@.edges.contains_key(e),
        call_requires(*default_edge, ()),
        call_requires(*default_tri, ()),
        call_requires(*default_tet, ()),
    ensures
        final(mesh).wf(),
        final(mesh)@.vertices == old(mesh)@.vertices,
        final(mesh)@.next_id == old(mesh)@.next_id,
        exists|mids: Seq<MeshView<V, E, F, T>>| #[trigger]
            hulled(old(mesh)@, final(mesh)@, first@, ghost.0, mids),
        forall|x: TetKey| #[trigger]
            final(mesh)@.tets.contains_key(x) ==> call_ensures(
                *default_tet,
                (),
                final(mesh)@.tets[x],
            ),
        forall|g: TriKey| #[trigger]
            final(mesh)@.tris.contains_key(g) ==> call_ensures(
                *default_tri,
                (),
                final(mesh)@.tris[g],
            ),
        forall|e: EdgeKey| #[trigger]
            final(mesh)@.edges.contains_key(e) ==> call_ensures(
                *default_edge,
                (),
                final(mesh)@.edges[e],
            ),
{
    let t = (first.0[0].0, first.0[1].0, first.0[2].0, first.0[3].0);
    let value = default_tet();
    proof {
        assert(tet_has_vertex(first@, first@.0) && tet_has_vertex(first@, first@.1)
            && tet_has_vertex(first@, first@.2) && tet_has_vertex(first@, first@.3));
    }
    mesh.put_tet(t, value, default_edge, default_tri);
    let ghost m0 = mesh@;
    proof {
        lemma_gained(old(mesh)@, m0, t, value);
        assert(m0.tets.dom() =~= Set::<TetKey>::empty().insert(t));
    }
    add_hull_tet(mesh, first, 3, ghost, default_edge, default_tri, default_tet);
    let ghost m1 = mesh@;
    proof {
        assert forall|x: TetKey| #[trigger] m1.tets.contains_key(x) implies x == first@
            || exists|j: int| 2 < j < 4 && x == hull_tet(#[trigger] tet_face(first@, j), ghost.0) by {
            if x != first@ {
                assert(x == hull_tet(tet_face(first@, 3), ghost.0));
            }
        }
    }
    add_hull_tet(mesh, first, 2, ghost, default_edge, default_tri, default_tet);
    let ghost m2 = mesh@;
    proof {
        assert forall|x: TetKey| #[trigger] m2.tets.contains_key(x) implies x == first@
            || exists|j: int| 1 < j < 4 && x == hull_tet(#[trigger] tet_face(first@, j), ghost.0) by {
            if x != first@ {
                if x == hull_tet(tet_face(first@, 3), ghost.0) {
                } else {
                    assert(x == hull_tet(tet_face(first@, 2), ghost.0));
                }
            }
        }
    }
    add_hull_tet(mesh, first, 1, ghost, default_edge, default_tri, default_tet);
    let ghost m3 = mesh@;
    proof {
        assert forall|x: TetKey| #[trigger] m3.tets.contains_key(x) implies x == first@
            || exists|j: int| 0 < j < 4 && x == hull_tet(#[trigger] tet_face(first@, j), ghost.0) by {
            if x != first@ {
                if x == hull_tet(tet_face(first@, 3), ghost.0) {
                } else if x == hull_tet(tet_face(first@, 2), ghost.0) {
                } else {
                    assert(x == hull_tet(tet_face(first@, 1), ghost.0));
                }
            }
        }
    }
    add_hull_tet(mesh, first, 0, ghost, default_edge, default_tri, default_tet);
    proof {
        let mids = seq![m0, m1, m2, m3];
        assert(mesh@.tets.dom() =~= first_tets(first@, ghost.0));
        assert(hulled(old(mesh)@, mesh@, first@, ghost.0, mids));
        assert forall|x: TetKey| #[trigger] mesh@.tets.contains_key(x) implies call_ensures(
            *default_tet,
            (),
            mesh@.tets[x],
        ) by {
            if m3.tets.contains_key(x) {
                if m2.tets.contains_key(x) {
                    if m1.tets.contains_key(x) {
                        if m0.tets.contains_key(x) {
                        }
                    }
                }
            }
        }
        assert forall|g: TriKey| #[trigger] mesh@.tris.contains_key(g) implies call_ensures(
            *default_tri,
            (),
            mesh@.tris[g],
        ) by {
            if m3.tris.contains_key(g) {
                if m2.tris.contains_key(g) {
                    if m1.tris.contains_key(g) {
                        if m0.tris.contains_key(g) {
                        }
                    }
                }
            }
        }
        assert forall|e: EdgeKey| #[trigger] mesh@.edges.contains_key(e) implies call_ensures(
            *default_edge,
            (),
            mesh@.edges[e],
        ) by {
            if m3.edges.contains_key(e) {
                if m2.edges.contains_key(e) {
                    if m1.edges.contains_key(e) {
                        if m0.edges.contains_key(e) {
                        }
                    }
                }
            }
        }
    }
}

/// Tetrahedralizes the vertices of a mesh that holds vertices only.
///
/// With fewer than four vertices the mesh comes back as it is. Else a ghost
/// vertex with the payload `ghost_value` is added, the last four vertices
/// make the first tetrahedron (turned so that `orient` holds of it) with a
/// ghost tetrahedron on each face, and each further vertex, from the last
/// to the first, is put in by `insert_vertex`, which starts its search at
/// the vertex put in before; a vertex for which no tetrahedron is found is
/// left out. At the end the ghost vertex goes, and with it every simplex
/// that has it and what those leave alone.
///
/// Whatever the predicates answer, the result is a mesh in order with the
/// vertices that came in, in which no oriented triangle is a face of two
/// tetrahedra; it is the mesh that the steps make of the answers, as
/// `made_by` has it, with payloads that the defaults made.
pub fn delaunay_tets<V, E, F, T, DE, DF, DT, O, S, C>(
    mesh: Mesh<V, E, F, T, true>,
    ghost_value: V,
    default_edge: DE,
    default_tri: DF,
    default_tet: DT,
    orient: O,
    in_sphere: S,
    closer: C,
) -> (r: Mesh<V, E, F, T, true>) where
    DE: Fn() -> E,
    DF: Fn() -> F,
    DT: Fn() -> T,
    O: Fn(VertexId, VertexId, VertexId, VertexId) -> bool,
    S: Fn(VertexId, VertexId, VertexId, VertexId, VertexId) -> bool,
    C: Fn(VertexId, VertexId, VertexId) -> bool,

    requires
        mesh.wf(),
        mesh@.edges.dom() == Set::<EdgeKey>::empty(),
        mesh@.next_id < u32::MAX,
        call_requires(default_edge, ()),
        call_requires(default_tri, ()),
        call_requires(default_tet, ()),
        total(orient, in_sphere, closer),
    ensures
        r.wf(),
        r@.vertices == mesh@.vertices,
        mesh@.vertices.dom().len() < 4 ==> r@ == mesh@,
        mesh@.vertices.dom().len() >= 4 ==> r@.next_id == mesh@.next_id + 1,
        mesh@.vertices.dom().len() >= 4 ==> exists|
            ids: Seq<VertexId>,
            hist: Seq<MeshView<V, E, F, T>>,
        | made_by(mesh@, ghost_value, orient, in_sphere, ids, hist, r@),
        forall|x: TetKey| #[trigger]
            r@.tets.contains_key(x) ==> call_ensures(default_tet, (), r@.tets[x]),
        forall|g: TriKey| #[trigger]
            r@.tris.contains_key(g) ==> call_ensures(default_tri, (), r@.tris[g]),
        forall|e: EdgeKey| #[trigger]
            r@.edges.contains_key(e) ==> call_ensures(default_edge, (), r@.edges[e]),
{
    let mut mesh = mesh;
    let ghost orig = mesh@;
    proof {
        assert forall|e: EdgeKey| !orig.edges.contains_key(e) by {
            assert(!orig.edges.dom().contains(e));
        }
        assert forall|g: TriKey| !orig.tris.contains_key(g) by {
            if orig.tris.contains_key(g) {
                assert(orig.edges.contains_key((g.0, g.1)));
            }
        }
        assert forall|x: TetKey| !orig.tets.contains_key(x) by {
            if orig.tets.contains_key(x) {
                assert(orig.tris.contains_key(tet_face(x, 0)));
            }
        }
    }
    let mut v_ids = mesh.vertex_ids();
    if v_ids.len() < 4 {
        return mesh;
    }
    let ghost all = v_ids@;
    let ghost n = all.len() as int;
    let ghost_id: VertexId = mesh.add_vertex(ghost_value);
    let ghost bare = mesh@;
    let v0: VertexId = v_ids.pop().unwrap();
    let v1: VertexId = v_ids.pop().unwrap();
    let mut v2: VertexId = v_ids.pop().unwrap();
    let mut v3: VertexId = v_ids.pop().unwrap();
    proof {
        assert(v0 == all[n - 1] && v1 == all[n - 2] && v2 == all[n - 3] && v3 == all[n - 4]);
        assert(all[n - 4].0 < all[n - 3].0 < all[n - 2].0 < all[n - 1].0);
        assert(orig.vertices.contains_key(all[n - 1].0));
        assert(orig.vertices.contains_key(all[n - 2].0));
        assert(orig.vertices.contains_key(all[n - 3].0));
        assert(orig.vertices.contains_key(all[n - 4].0));
        assert(v_ids@ =~= all.subrange(0, n - 4));
    }
    let up = orient(v0, v1, v2, v3);
    if !up {
        let tmp: VertexId = v2;
        v2 = v3;
        v3 = tmp;
    }
    let first = TetId::from_valid([v0, v1, v2, v3]);
    seed(&mut mesh, first, ghost_id, &default_edge, &default_tri, &default_tet);
    let ghost mut hist: Seq<MeshView<V, E, F, T>> = seq![mesh@];
    proof {
        assert(starts(all, ghost_id.0, orient, bare, hist[0]));
    }
    let mut start: VertexId = v0;
    while v_ids.len() > 0
        invariant
            mesh.wf(),
            call_requires(default_edge, ()),
            call_requires(default_tri, ()),
            call_requires(default_tet, ()),
            total(orient, in_sphere, closer),
            mesh@.vertices == bare.vertices,
            mesh@.next_id == orig.next_id + 1,
            n == all.len(),
            v_ids.len() <= n - 4,
            v_ids@ =~= all.subrange(0, v_ids.len() as int),
            hist.len() == n - 3 - v_ids.len(),
            starts(all, ghost_id.0, orient, bare, hist[0]),
            hist.last() == mesh@,
            forall|k: int|
                0 <= k < hist.len() - 1 ==> put_in(
                    #[trigger] hist[k],
                    hist[k + 1],
                    all[n - 5 - k].0,
                    ghost_id.0,
                    orient,
                    in_sphere,
                ),
            forall|x: TetKey| #[trigger]
                mesh@.tets.contains_key(x) ==> call_ensures(default_tet, (), mesh@.tets[x]),
            forall|g: TriKey| #[trigger]
                mesh@.tris.contains_key(g) ==> call_ensures(default_tri, (), mesh@.tris[g]),
            forall|e: EdgeKey| #[trigger]
                mesh@.edges.contains_key(e) ==> call_ensures(default_edge, (), mesh@.edges[e]),
        decreases v_ids.len(),
    {
        let ghost before = hist;
        let ghost pre = mesh@;
        let ghost m = v_ids.len() as int;
        let vertex: VertexId = v_ids.pop().unwrap();
        let found = insert_vertex(
            &mut mesh,
            start,
            vertex,
            ghost_id,
            &default_edge,
            &default_tri,
            &default_tet,
            &orient,
            &in_sphere,
            &closer,
        );
        proof {
            hist = before.push(mesh@);
            assert(vertex == all[m - 1]);
            assert(m - 1 == n - 5 - (before.len() - 1));
            assert(put_in(before.last(), mesh@, vertex.0, ghost_id.0, orient, in_sphere)) by {
                assert(inserted(
                    before.last(),
                    mesh@,
                    vertex.0,
                    ghost_id.0,
                    orient,
                    in_sphere,
                    found.0@,
                    found.1@,
                ));
            }
            assert forall|k: int| 0 <= k < hist.len() - 1 implies put_in(
                #[trigger] hist[k],
                hist[k + 1],
                all[n - 5 - k].0,
                ghost_id.0,
                orient,
                in_sphere,
            ) by {
                if k < before.len() - 1 {
                    assert(hist[k] == before[k] && hist[k + 1] == before[k + 1]);
                } else {
                    assert(hist[k] == before.last());
                    assert(hist[k + 1] == mesh@);
                }
            }
            assert(hist[0] == before[0]);
            assert(v_ids@ =~= all.subrange(0, m - 1));
            assert forall|x: TetKey| #[trigger] mesh@.tets.contains_key(x) implies call_ensures(
                default_tet,
                (),
                mesh@.tets[x],
            ) by {
                if pre.tets.contains_key(x) {
                }
            }
            assert forall|g: TriKey| #[trigger] mesh@.tris.contains_key(g) implies call_ensures(
                default_tri,
                (),
                mesh@.tris[g],
            ) by {
                if pre.tris.contains_key(g) {
                }
            }
            assert forall|e: EdgeKey| #[trigger] mesh@.edges.contains_key(e) implies call_ensures(
                default_edge,
                (),
                mesh@.edges[e],
            ) by {
                if pre.edges.contains_key(e) {
                }
            }
        }
        start = vertex;
    }
    let ghost full = mesh@;
    mesh.remove_vertex_pruning(ghost_id);
    proof {
        assert(mesh@.vertices =~= orig.vertices);
        assert(mesh@.tets.dom() =~= real_tets(hist.last().tets.dom(), ghost_id.0));
        assert(is_listing(all, orig.vertices.dom()));
        assert(full.vertex_purged(mesh@, ghost_id.0));
        assert(bare == orig.add_vertex(ghost_value));
        assert(made_by(orig, ghost_value, orient, in_sphere, all, hist, mesh@));
        assert forall|x: TetKey| #[trigger] mesh@.tets.contains_key(x) implies call_ensures(
            default_tet,
            (),
            mesh@.tets[x],
        ) by {
            assert(full.tets.contains_key(x));
        }
        assert forall|g: TriKey| #[trigger] mesh@.tris.contains_key(g) implies call_ensures(
            default_tri,
            (),
            mesh@.tris[g],
        ) by {
            assert(full.tris.contains_key(g));
        }
        assert forall|e: EdgeKey| #[trigger] mesh@.edges.contains_key(e) implies call_ensures(
            default_edge,
            (),
            mesh@.edges[e],
        ) by {
            assert(full.edges.contains_key(e));
        }
    }
    mesh
}

} // verus!
