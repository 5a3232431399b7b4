//! Identifiers of vertices, directed edges, oriented triangles and oriented
//! tetrahedra.

use vstd::prelude::*;
use crate::simplex::{
    EdgeKey, TriKey, TetKey, distinct3, distinct4, canon_tri, canon_tet, tri_twin, tet_twin,
    tri_has_vertex, tri_has_edge, tet_has_vertex, tet_face, tet_vertex, is_canon_tri, is_canon_tet,
    lemma_canon_tri, lemma_canon_tet,
};

verus! {

/// Identifier of a vertex: its number in the order of creation.
#[derive(Clone, Copy, Debug, PartialEq, Eq, Hash, PartialOrd, Ord)]
pub struct VertexId(pub u32);

/// Identifier of a directed edge: source, then target.
#[derive(Clone, Copy, Debug, PartialEq, Eq, Hash, PartialOrd, Ord)]
pub struct EdgeId(pub [VertexId; 2]);

/// Identifier of an oriented triangle. The functions of this library hand
/// out triangles in canonical form, smallest vertex first.
#[derive(Clone, Copy, Debug, PartialEq, Eq, Hash, PartialOrd, Ord)]
pub struct TriId(pub [VertexId; 3]);

/// Identifier of an oriented tetrahedron. The functions of this library hand
/// out tetrahedra in canonical form, the two smallest vertices first.
#[derive(Clone, Copy, Debug, PartialEq, Eq, Hash, PartialOrd, Ord)]
pub struct TetId(pub [VertexId; 4]);

impl View for VertexId {
    type V = u32;

    open spec fn view(&self) -> u32 {
        self.0
    }
}

impl View for EdgeId {
    type V = EdgeKey;

    open spec fn view(&self) -> EdgeKey {
        (self.0[0].0, self.0[1].0)
    }
}

impl View for TriId {
    type V = TriKey;

    open spec fn view(&self) -> TriKey {
        (self.0[0].0, self.0[1].0, self.0[2].0)
    }
}

impl View for TetId {
    type V = TetKey;

    open spec fn view(&self) -> TetKey {
        (self.0[0].0, self.0[1].0, self.0[2].0, self.0[3].0)
    }
}

/// Whether the edge `e` stands in the list.
pub open spec fn holds_edge(s: Seq<EdgeId>, e: EdgeKey) -> bool {
    exists|i: int| 0 <= i < s.len() && (#[trigger] s[i])@ == e
}

/// Whether the triangle `t` stands in the list.
pub open spec fn holds_tri(s: Seq<TriId>, t: TriKey) -> bool {
    exists|i: int| 0 <= i < s.len() && (#[trigger] s[i])@ == t
}

/// Whether the tetrahedron `t` stands in the list.
pub open spec fn holds_tet(s: Seq<TetId>, t: TetKey) -> bool {
    exists|i: int| 0 <= i < s.len() && (#[trigger] s[i])@ == t
}

/// Whether no edge stands twice in the list.
pub open spec fn distinct_edges(s: Seq<EdgeId>) -> bool {
    forall|i: int, j: int| 0 <= i < j < s.len() ==> (#[trigger] s[i])@ != (#[trigger] s[j])@
}

/// Whether no triangle stands twice in the list.
pub open spec fn distinct_tris(s: Seq<TriId>) -> bool {
    forall|i: int, j: int| 0 <= i < j < s.len() ==> (#[trigger] s[i])@ != (#[trigger] s[j])@
}

/// Whether no tetrahedron stands twice in the list.
pub open spec fn distinct_tets(s: Seq<TetId>) -> bool {
    forall|i: int, j: int| 0 <= i < j < s.len() ==> (#[trigger] s[i])@ != (#[trigger] s[j])@
}

impl EdgeId {
    /// The two ends differ.
    pub open spec fn valid(&self) -> bool {
        self@.0 != self@.1
    }

    /// The edge from `v[0]` to `v[1]`, unless the two are the same vertex.
    pub fn try_new(v: [VertexId; 2]) -> (r: Option<EdgeId>)
        ensures
            r is Some <==> v[0].0 != v[1].0,
            r is Some ==> r->0@ == (v[0].0, v[1].0),
    {
        if v[0].0 == v[1].0 {
            None
        } else {
            Some(EdgeId(v))
        }
    }

    /// The edge from `v[0]` to `v[1]`.
    pub fn from_valid(v: [VertexId; 2]) -> (r: EdgeId)
        requires
            v[0].0 != v[1].0,
        ensures
            r@ == (v[0].0, v[1].0),
            r.valid(),
    {
        EdgeId(v)
    }

    /// The vertex the edge leaves.
    pub fn source(&self) -> (v: VertexId)
        ensures
            v.0 == self@.0,
    {
        self.0[0]
    }

    /// The vertex the edge reaches.
    pub fn target(&self) -> (v: VertexId)
        ensures
            v.0 == self@.1,
    {
        self.0[1]
    }

    /// The edge in the other direction.
    pub fn twin(&self) -> (r: EdgeId)
        ensures
            r@ == (self@.1, self@.0),
    {
        EdgeId([self.0[1], self.0[0]])
    }

    /// Whether `v` is an end of the edge.
    pub fn contains_vertex(&self, v: VertexId) -> (r: bool)
        ensures
            r == (self@.0 == v.0 || self@.1 == v.0),
    {
        self.0[0].0 == v.0 || self.0[1].0 == v.0
    }
}

impl TriId {
    /// The three vertices differ.
    pub open spec fn valid(&self) -> bool {
        distinct3(self@.0, self@.1, self@.2)
    }

    /// The canonical form, under which the triangle is stored.
    pub open spec fn key(&self) -> TriKey {
        canon_tri(self@.0, self@.1, self@.2)
    }

    /// The triangle through `v[0]`, `v[1]`, `v[2]` in canonical form, unless
    /// two of them are the same vertex.
    pub fn try_new(v: [VertexId; 3]) -> (r: Option<TriId>)
        ensures
            r is Some <==> distinct3(v[0].0, v[1].0, v[2].0),
            r is Some ==> r->0@ == canon_tri(v[0].0, v[1].0, v[2].0),
    {
        if v[0].0 == v[1].0 || v[1].0 == v[2].0 || v[2].0 == v[0].0 {
            None
        } else {
            Some(TriId::from_valid(v))
        }
    }

    /// The triangle through `v[0]`, `v[1]`, `v[2]` in canonical form.
    pub fn from_valid(v: [VertexId; 3]) -> (r: TriId)
        requires
            distinct3(v[0].0, v[1].0, v[2].0),
        ensures
            r@ == canon_tri(v[0].0, v[1].0, v[2].0),
            is_canon_tri(r@),
    {
        proof {
            lemma_canon_tri(v[0].0, v[1].0, v[2].0);
        }
        if v[0].0 <= v[1].0 && v[0].0 <= v[2].0 {
            TriId(v)
        } else if v[1].0 <= v[2].0 {
            TriId([v[1], v[2], v[0]])
        } else {
            TriId([v[2], v[0], v[1]])
        }
    }

    /// The same triangle in canonical form.
    pub fn canonical(&self) -> (r: TriId)
        requires
            self.valid(),
        ensures
            r@ == self.key(),
            is_canon_tri(r@),
    {
        TriId::from_valid(self.0)
    }

    /// The same triangle with the opposite orientation, in canonical form.
    pub fn twin(&self) -> (r: TriId)
        requires
            self.valid(),
        ensures
            r@ == tri_twin(self@),
            is_canon_tri(r@),
    {
        TriId::from_valid([self.0[0], self.0[2], self.0[1]])
    }

    /// The three directed edges, each from one vertex to the next.
    pub fn edges(&self) -> (r: [EdgeId; 3])
        ensures
            r[0]@ == (self@.0, self@.1),
            r[1]@ == (self@.1, self@.2),
            r[2]@ == (self@.2, self@.0),
    {
        [
            EdgeId([self.0[0], self.0[1]]),
            EdgeId([self.0[1], self.0[2]]),
            EdgeId([self.0[2], self.0[0]]),
        ]
    }

    /// Whether `v` is a vertex of the triangle.
    pub fn contains_vertex(&self, v: VertexId) -> (r: bool)
        ensures
            r == tri_has_vertex(self@, v.0),
    {
        self.0[0].0 == v.0 || self.0[1].0 == v.0 || self.0[2].0 == v.0
    }

    /// Whether `e` is one of the three directed edges of the triangle.
    pub fn contains_edge(&self, e: EdgeId) -> (r: bool)
        ensures
            r == tri_has_edge(self@, e@),
    {
        let a: u32 = e.0[0].0;
        let b: u32 = e.0[1].0;
        (self.0[0].0 == a && self.0[1].0 == b) || (self.0[1].0 == a && self.0[2].0 == b) || (
        self.0[2].0 == a && self.0[0].0 == b)
    }
}

impl TetId {
    /// The four vertices differ.
    pub open spec fn valid(&self) -> bool {
        distinct4(self@.0, self@.1, self@.2, self@.3)
    }

    /// The canonical form, under which the tetrahedron is stored.
    pub open spec fn key(&self) -> TetKey {
        canon_tet(self@.0, self@.1, self@.2, self@.3)
    }

    /// The tetrahedron through the four vertices in canonical form, unless
    /// two of them are the same vertex.
    pub fn try_new(v: [VertexId; 4]) -> (r: Option<TetId>)
        ensures
            r is Some <==> distinct4(v[0].0, v[1].0, v[2].0, v[3].0),
            r is Some ==> r->0@ == canon_tet(v[0].0, v[1].0, v[2].0, v[3].0),
    {
        if v[0].0 == v[1].0 || v[0].0 == v[2].0 || v[0].0 == v[3].0 || v[1].0 == v[2].0 || v[1].0
            == v[3].0 || v[2].0 == v[3].0 {
            None
        } else {
            Some(TetId::from_valid(v))
        }
    }

    /// The tetrahedron through the four vertices in canonical form.
    pub fn from_valid(v: [VertexId; 4]) -> (r: TetId)
        requires
            distinct4(v[0].0, v[1].0, v[2].0, v[3].0),
        ensures
            r@ == canon_tet(v[0].0, v[1].0, v[2].0, v[3].0),
            is_canon_tet(r@),
    {
        proof {
            lemma_canon_tet(v[0].0, v[1].0, v[2].0, v[3].0);
        }
        let s: [VertexId; 4] = if v[0].0 <= v[1].0 && v[0].0 <= v[2].0 && v[0].0 <= v[3].0 {
            v
        } else if v[1].0 <= v[2].0 && v[1].0 <= v[3].0 {
            [v[1], v[0], v[3], v[2]]
        } else if v[2].0 <= v[3].0 {
            [v[2], v[3], v[0], v[1]]
        } else {
            [v[3], v[2], v[1], v[0]]
        };
        if s[1].0 <= s[2].0 && s[1].0 <= s[3].0 {
            TetId(s)
        } else if s[2].0 <= s[3].0 {
            TetId([s[0], s[2], s[3], s[1]])
        } else {
            TetId([s[0], s[3], s[1], s[2]])
        }
    }

    /// The same tetrahedron in canonical form.
    pub fn canonical(&self) -> (r: TetId)
        requires
            self.valid(),
        ensures
            r@ == self.key(),
            is_canon_tet(r@),
    {
        TetId::from_valid(self.0)
    }

    /// The same tetrahedron with the opposite orientation, in canonical form.
    pub fn twin(&self) -> (r: TetId)
        requires
            self.valid(),
        ensures
            r@ == tet_twin(self@),
            is_canon_tet(r@),
    {
        TetId::from_valid([self.0[0], self.0[1], self.0[3], self.0[2]])
    }

    /// The four faces in canonical form, oriented as the tetrahedron is: the
    /// face at place `j` lies opposite the vertex at place `3 - j`.
    pub fn tris(&self) -> (r: [TriId; 4])
        requires
            self.valid(),
        ensures
            forall|j: int| 0 <= j < 4 ==> (#[trigger] r[j])@ == tet_face(self@, 3 - j),
            forall|j: int| 0 <= j < 4 ==> is_canon_tri((#[trigger] r[j])@),
    {
        let a: VertexId = self.0[0];
        let b: VertexId = self.0[1];
        let c: VertexId = self.0[2];
        let d: VertexId = self.0[3];
        [
            TriId::from_valid([a, b, c]),
            TriId::from_valid([b, a, d]),
            TriId::from_valid([c, d, a]),
            TriId::from_valid([d, c, b]),
        ]
    }

    /// Whether `v` is a vertex of the tetrahedron.
    pub fn contains_vertex(&self, v: VertexId) -> (r: bool)
        ensures
            r == tet_has_vertex(self@, v.0),
    {
        self.0[0].0 == v.0 || self.0[1].0 == v.0 || self.0[2].0 == v.0 || self.0[3].0 == v.0
    }

    /// The face opposite the vertex `v`, in canonical form.
    pub fn opp_tri(&self, v: VertexId) -> (r: TriId)
        requires
            self.valid(),
            tet_has_vertex(self@, v.0),
        ensures
            forall|i: int| 0 <= i < 4 && tet_vertex(self@, i) == v.0 ==> r@ == tet_face(self@, i),
            is_canon_tri(r@),
    {
        let a: VertexId = self.0[0];
        let b: VertexId = self.0[1];
        let c: VertexId = self.0[2];
        let d: VertexId = self.0[3];
        if d.0 == v.0 {
            TriId::from_valid([a, b, c])
        } else if c.0 == v.0 {
            TriId::from_valid([b, a, d])
        } else if b.0 == v.0 {
            TriId::from_valid([c, d, a])
        } else {
            TriId::from_valid([d, c, b])
        }
    }
}

} // verus!
