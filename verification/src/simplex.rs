//! Oriented simplices as tuples of vertex numbers: canonical forms, faces,
//! and the facts about them that the incidence structure rests on.
//!
//! An oriented triangle is a cyclic order of three vertices; its canonical
//! form starts at the smallest. An oriented tetrahedron is an order of four
//! vertices up to even permutations; its canonical form starts with the
//! smallest, then the second smallest.

use vstd::prelude::*;

verus! {

/// A directed edge: source, target.
pub type EdgeKey = (u32, u32);

/// An oriented triangle.
pub type TriKey = (u32, u32, u32);

/// An oriented tetrahedron.
pub type TetKey = (u32, u32, u32, u32);

/// No two of the three are equal.
pub open spec fn distinct3(a: u32, b: u32, c: u32) -> bool {
    a != b && b != c && c != a
}

/// No two of the four are equal.
pub open spec fn distinct4(a: u32, b: u32, c: u32, d: u32) -> bool {
    a != b && a != c && a != d && b != c && b != d && c != d
}

/// Whether `t` is one of the three rotations of `(a, b, c)`.
pub open spec fn is_rotation(t: TriKey, a: u32, b: u32, c: u32) -> bool {
    t == (a, b, c) || t == (b, c, a) || t == (c, a, b)
}

/// Whether `t` is one of the twelve even permutations of `(a, b, c, d)`.
pub open spec fn is_even_perm(t: TetKey, a: u32, b: u32, c: u32, d: u32) -> bool {
    ||| is_rotation((t.0, t.1, t.2), a, b, c) && t.3 == d
    ||| is_rotation((t.0, t.1, t.2), b, a, d) && t.3 == c
    ||| is_rotation((t.0, t.1, t.2), c, d, a) && t.3 == b
    ||| is_rotation((t.0, t.1, t.2), d, c, b) && t.3 == a
}

/// A triangle in canonical form: three vertices, the smallest first.
pub open spec fn is_canon_tri(t: TriKey) -> bool {
    t.0 < t.1 && t.0 < t.2 && t.1 != t.2
}

/// A tetrahedron in canonical form: four vertices, the smallest first, the
/// second smallest second.
pub open spec fn is_canon_tet(t: TetKey) -> bool {
    t.0 < t.1 && t.1 < t.2 && t.1 < t.3 && t.2 != t.3
}

/// The rotation of `(a, b, c)` that starts at the smallest vertex.
pub open spec fn canon_tri(a: u32, b: u32, c: u32) -> TriKey {
    if a <= b && a <= c {
        (a, b, c)
    } else if b <= c {
        (b, c, a)
    } else {
        (c, a, b)
    }
}

/// The even permutation of `(a, b, c, d)` that starts with the smallest
/// vertex and goes on with the second smallest.
pub open spec fn canon_tet(a: u32, b: u32, c: u32, d: u32) -> TetKey {
    let s = if a <= b && a <= c && a <= d {
        (a, b, c, d)
    } else if b <= c && b <= d {
        (b, a, d, c)
    } else if c <= d {
        (c, d, a, b)
    } else {
        (d, c, b, a)
    };
    let r = canon_tri(s.1, s.2, s.3);
    (s.0, r.0, r.1, r.2)
}

/// The same triangle with the opposite orientation, in canonical form.
pub open spec fn tri_twin(t: TriKey) -> TriKey {
    canon_tri(t.0, t.2, t.1)
}

/// The same tetrahedron with the opposite orientation, in canonical form.
pub open spec fn tet_twin(t: TetKey) -> TetKey {
    canon_tet(t.0, t.1, t.3, t.2)
}

/// Whether `v` is a vertex of the triangle.
pub open spec fn tri_has_vertex(t: TriKey, v: u32) -> bool {
    t.0 == v || t.1 == v || t.2 == v
}

/// Whether `v` is a vertex of the tetrahedron.
pub open spec fn tet_has_vertex(t: TetKey, v: u32) -> bool {
    t.0 == v || t.1 == v || t.2 == v || t.3 == v
}

/// Whether `e` is one of the three directed edges of the triangle.
pub open spec fn tri_has_edge(t: TriKey, e: EdgeKey) -> bool {
    e == (t.0, t.1) || e == (t.1, t.2) || e == (t.2, t.0)
}

/// The face of the tetrahedron opposite its vertex at place `i`, in
/// canonical form. The four faces carry the orientation of the tetrahedron.
pub open spec fn tet_face(t: TetKey, i: int) -> TriKey {
    if i == 3 {
        canon_tri(t.0, t.1, t.2)
    } else if i == 2 {
        canon_tri(t.1, t.0, t.3)
    } else if i == 1 {
        canon_tri(t.2, t.3, t.0)
    } else {
        canon_tri(t.3, t.2, t.1)
    }
}

/// The vertex of the tetrahedron at place `i`.
pub open spec fn tet_vertex(t: TetKey, i: int) -> u32 {
    if i == 0 {
        t.0
    } else if i == 1 {
        t.1
    } else if i == 2 {
        t.2
    } else {
        t.3
    }
}

/// Whether the oriented triangle `f` is one of the four faces of the
/// tetrahedron.
pub open spec fn tet_has_face(t: TetKey, f: TriKey) -> bool {
    f == tet_face(t, 0) || f == tet_face(t, 1) || f == tet_face(t, 2) || f == tet_face(t, 3)
}

/// Whether the directed edge `e` lies on one of the faces of the tetrahedron,
/// which it does as soon as both its ends are vertices of the tetrahedron.
pub open spec fn tet_has_edge(t: TetKey, e: EdgeKey) -> bool {
    e.0 != e.1 && tet_has_vertex(t, e.0) && tet_has_vertex(t, e.1)
}

/// Whether the tetrahedron `x` has one of the faces of `t`, orientation
/// included (as `t` itself does).
pub open spec fn collides(x: TetKey, t: TetKey) -> bool {
    tet_has_face(x, tet_face(t, 0)) || tet_has_face(x, tet_face(t, 1)) || tet_has_face(
        x,
        tet_face(t, 2),
    ) || tet_has_face(x, tet_face(t, 3))
}

/// The tetrahedron as seen from its vertex `v`: the even permutation of it
/// that starts with `v` and goes on with the smallest of the other three.
pub open spec fn star_form(x: TetKey, v: u32) -> TetKey {
    let s = if x.0 == v {
        x
    } else if x.1 == v {
        (x.1, x.0, x.3, x.2)
    } else if x.2 == v {
        (x.2, x.3, x.0, x.1)
    } else {
        (x.3, x.2, x.1, x.0)
    };
    let r = canon_tri(s.1, s.2, s.3);
    (s.0, r.0, r.1, r.2)
}

/// The face of a tetrahedron at its vertex `v` that stands for the
/// tetrahedron in the star of `v`: the first three vertices of `star_form`.
pub open spec fn lead_face(x: TetKey, v: u32) -> TriKey {
    let s = star_form(x, v);
    canon_tri(s.0, s.1, s.2)
}

/// Whether the tetrahedron `x` lies across a face of `t`: it has a face of
/// `t` with the opposite orientation.
pub open spec fn adjacent(t: TetKey, x: TetKey) -> bool {
    tet_has_face(x, tri_twin(tet_face(t, 0))) || tet_has_face(x, tri_twin(tet_face(t, 1)))
        || tet_has_face(x, tri_twin(tet_face(t, 2))) || tet_has_face(x, tri_twin(tet_face(t, 3)))
}

/// Computes `star_form`.
pub fn star4(x: TetKey, v: u32) -> (r: TetKey)
    ensures
        r == star_form(x, v),
{
    let s: (u32, u32, u32, u32) = if x.0 == v {
        x
    } else if x.1 == v {
        (x.1, x.0, x.3, x.2)
    } else if x.2 == v {
        (x.2, x.3, x.0, x.1)
    } else {
        (x.3, x.2, x.1, x.0)
    };
    let r = canon3(s.1, s.2, s.3);
    (s.0, r.0, r.1, r.2)
}

/// Computes the canonical form of a triangle.
pub fn canon3(a: u32, b: u32, c: u32) -> (r: TriKey)
    ensures
        r == canon_tri(a, b, c),
{
    if a <= b && a <= c {
        (a, b, c)
    } else if b <= c {
        (b, c, a)
    } else {
        (c, a, b)
    }
}

/// Computes the canonical form of a tetrahedron.
pub fn canon4(a: u32, b: u32, c: u32, d: u32) -> (r: TetKey)
    ensures
        r == canon_tet(a, b, c, d),
{
    let s: (u32, u32, u32, u32) = if a <= b && a <= c && a <= d {
        (a, b, c, d)
    } else if b <= c && b <= d {
        (b, a, d, c)
    } else if c <= d {
        (c, d, a, b)
    } else {
        (d, c, b, a)
    };
    let r = canon3(s.1, s.2, s.3);
    (s.0, r.0, r.1, r.2)
}

/// Computes the face of a tetrahedron opposite its vertex at place `i`.
pub fn face(t: TetKey, i: usize) -> (r: TriKey)
    requires
        i < 4,
    ensures
        r == tet_face(t, i as int),
{
    if i == 3 {
        canon3(t.0, t.1, t.2)
    } else if i == 2 {
        canon3(t.1, t.0, t.3)
    } else if i == 1 {
        canon3(t.2, t.3, t.0)
    } else {
        canon3(t.3, t.2, t.1)
    }
}

/// The canonical form of a triangle is the one rotation of it that starts at
/// the smallest vertex.
pub proof fn lemma_canon_tri(a: u32, b: u32, c: u32)
    requires
        distinct3(a, b, c),
    ensures
        is_canon_tri(canon_tri(a, b, c)),
        is_rotation(canon_tri(a, b, c), a, b, c),
        canon_tri(b, c, a) == canon_tri(a, b, c),
        canon_tri(c, a, b) == canon_tri(a, b, c),
        forall|t: TriKey| is_canon_tri(t) && is_rotation(t, a, b, c) ==> t == canon_tri(a, b, c),
{
}

/// A triangle in canonical form is its own canonical form.
pub proof fn lemma_canon_tri_fixed(t: TriKey)
    requires
        is_canon_tri(t),
    ensures
        canon_tri(t.0, t.1, t.2) == t,
{
}

/// Two triangles with the same canonical form are rotations of each other,
/// so each directed edge with its opposite vertex belongs to one triangle only.
pub proof fn lemma_canon_tri_same(a: u32, b: u32, c: u32, x: u32, y: u32, z: u32)
    requires
        distinct3(a, b, c),
        canon_tri(a, b, c) == canon_tri(x, y, z),
    ensures
        is_rotation((x, y, z), a, b, c),
        distinct3(x, y, z),
{
}

/// The canonical form of a tetrahedron is the one even permutation of it
/// that starts with its two smallest vertices in order.
pub proof fn lemma_canon_tet(a: u32, b: u32, c: u32, d: u32)
    requires
        distinct4(a, b, c, d),
    ensures
        is_canon_tet(canon_tet(a, b, c, d)),
        is_even_perm(canon_tet(a, b, c, d), a, b, c, d),
{
}

/// Even permutations leave the canonical form of a tetrahedron unchanged.
pub proof fn lemma_canon_tet_even(a: u32, b: u32, c: u32, d: u32)
    requires
        distinct4(a, b, c, d),
    ensures
        canon_tet(b, c, a, d) == canon_tet(a, b, c, d),
        canon_tet(c, a, b, d) == canon_tet(a, b, c, d),
        canon_tet(b, a, d, c) == canon_tet(a, b, c, d),
        canon_tet(c, d, a, b) == canon_tet(a, b, c, d),
        canon_tet(d, c, b, a) == canon_tet(a, b, c, d),
{
}

/// A tetrahedron in canonical form is its own canonical form.
pub proof fn lemma_canon_tet_fixed(t: TetKey)
    requires
        is_canon_tet(t),
    ensures
        canon_tet(t.0, t.1, t.2, t.3) == t,
        distinct4(t.0, t.1, t.2, t.3),
{
}

/// Each face of a tetrahedron, completed by the vertex opposite it, gives the
/// tetrahedron back.
pub proof fn lemma_face_gives_tet(t: TetKey, i: int)
    requires
        is_canon_tet(t),
        0 <= i < 4,
    ensures
        is_canon_tri(tet_face(t, i)),
        !tri_has_vertex(tet_face(t, i), tet_vertex(t, i)),
        canon_tet(tet_face(t, i).0, tet_face(t, i).1, tet_face(t, i).2, tet_vertex(t, i)) == t,
        forall|j: int| 0 <= j < 4 && j != i ==> tet_face(t, j) != tet_face(t, i),
{
}

/// A canonical triangle completed by a vertex to a tetrahedron is a face of
/// that tetrahedron, opposite that vertex.
pub proof fn lemma_tet_gives_face(f: TriKey, d: u32)
    requires
        is_canon_tri(f),
        !tri_has_vertex(f, d),
    ensures
        ({
            let t = canon_tet(f.0, f.1, f.2, d);
            &&& is_canon_tet(t)
            &&& exists|i: int| 0 <= i < 4 && tet_face(t, i) == f && tet_vertex(t, i) == d
        }),
{
    let t = canon_tet(f.0, f.1, f.2, d);
    if t.0 == d {
        assert(tet_face(t, 0) == f);
    } else if t.1 == d {
        assert(tet_face(t, 1) == f);
    } else if t.2 == d {
        assert(tet_face(t, 2) == f);
    } else {
        assert(tet_face(t, 3) == f);
    }
}

/// A vertex completes a canonical triangle to a given tetrahedron only if the
/// triangle is a face of it and the vertex lies opposite.
pub proof fn lemma_tet_by_face(t: TetKey, f: TriKey, d: u32)
    requires
        is_canon_tet(t),
        is_canon_tri(f),
        canon_tet(f.0, f.1, f.2, d) == t,
    ensures
        !tri_has_vertex(f, d),
        exists|i: int| 0 <= i < 4 && tet_face(t, i) == f && tet_vertex(t, i) == d,
{
    lemma_tet_gives_face(f, d);
}

/// The vertices of a face are vertices of the tetrahedron, and its edges are
/// edges of the tetrahedron.
pub proof fn lemma_face_vertices(t: TetKey, i: int)
    requires
        is_canon_tet(t),
        0 <= i < 4,
    ensures
        forall|v: u32| tri_has_vertex(tet_face(t, i), v) <==> tet_has_vertex(t, v) && v != tet_vertex(t, i),
{
}

/// The lead face of a tetrahedron at one of its vertices is a face of it
/// that has the vertex.
pub proof fn lemma_lead_face(x: TetKey, v: u32)
    requires
        is_canon_tet(x),
        tet_has_vertex(x, v),
    ensures
        tet_has_face(x, lead_face(x, v)),
        tri_has_vertex(lead_face(x, v), v),
        is_canon_tri(lead_face(x, v)),
{
}

/// A tetrahedron whose lead face at `v` has the vertex `v` has `v` itself,
/// and the lead face is then a face of it.
pub proof fn lemma_star_form(x: TetKey, v: u32)
    requires
        is_canon_tet(x),
    ensures
        tri_has_vertex(lead_face(x, v), v) ==> tet_has_vertex(x, v),
        tet_has_vertex(x, v) ==> tet_has_face(x, lead_face(x, v)),
{
}

/// A tetrahedron is made by the canonical form of any of its faces and the
/// vertex opposite, whichever rotation of the face it is written with.
pub proof fn lemma_walker_face(a: u32, b: u32, c: u32, d: u32)
    ensures
        ({
            let f = canon_tri(a, b, c);
            is_canon_tet(canon_tet(a, b, c, d)) || (is_canon_tri(f) && is_canon_tet(
                canon_tet(f.0, f.1, f.2, d),
            )) ==> distinct4(a, b, c, d) && is_canon_tri(f) && canon_tet(f.0, f.1, f.2, d)
                == canon_tet(a, b, c, d)
        }),
{
}

/// A triangle has exactly one directed edge that leaves a given vertex of it.
pub proof fn lemma_edge_from_vertex(t: TriKey, v: u32)
    requires
        is_canon_tri(t),
        tri_has_vertex(t, v),
    ensures
        exists|b: u32, c: u32| tri_has_edge(t, (v, b)) && canon_tri(v, b, c) == t,
        forall|b1: u32, b2: u32| tri_has_edge(t, (v, b1)) && tri_has_edge(t, (v, b2)) ==> b1 == b2,
{
    if t.0 == v {
        assert(tri_has_edge(t, (v, t.1)) && canon_tri(v, t.1, t.2) == t);
    } else if t.1 == v {
        assert(tri_has_edge(t, (v, t.2)) && canon_tri(v, t.2, t.0) == t);
    } else {
        assert(tri_has_edge(t, (v, t.0)) && canon_tri(v, t.0, t.1) == t);
    }
}

/// Two faces of a tetrahedron that have a directed edge in common are one.
pub proof fn lemma_one_face_with_edge(t: TetKey, e: EdgeKey, g: TriKey, f: TriKey)
    requires
        is_canon_tet(t),
        tet_has_face(t, g),
        tet_has_face(t, f),
        tri_has_edge(g, e),
        tri_has_edge(f, e),
    ensures
        g == f,
{
}

/// An edge of a face of a tetrahedron joins two vertices of the tetrahedron.
pub proof fn lemma_face_edge(t: TetKey, g: TriKey, e: EdgeKey)
    requires
        is_canon_tet(t),
        tet_has_face(t, g),
        tri_has_edge(g, e),
    ensures
        tet_has_edge(t, e),
{
}

/// A directed edge between two vertices of a tetrahedron lies on exactly one
/// of its faces.
pub proof fn lemma_tet_edge_on_face(t: TetKey, e: EdgeKey)
    requires
        is_canon_tet(t),
        tet_has_edge(t, e),
    ensures
        exists|i: int| 0 <= i < 4 && tri_has_edge(tet_face(t, i), e),
{
    let f0 = tet_face(t, 0);
    let f1 = tet_face(t, 1);
    let f2 = tet_face(t, 2);
    let f3 = tet_face(t, 3);
    assert(tri_has_edge(f0, e) || tri_has_edge(f1, e) || tri_has_edge(f2, e) || tri_has_edge(f3, e));
}

} // verus!
