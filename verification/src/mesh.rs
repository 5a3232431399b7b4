//! The mesh: four stores of simplices and the rings that link them.

use vstd::prelude::*;
use crate::table::Table;
use vstd::set_lib::lemma_map_size;
use crate::key::{
    key2, key3, key4, make2, make3, make4, unmake2, unmake3, unmake4, is_key2, is_key3, pair_of,
    triple_of, quad_of, lemma_key2, lemma_key3, lemma_key4, lemma_pair_of, lemma_triple_of,
    lemma_quad_of,
};
use crate::ids::{VertexId, EdgeId, TriId, TetId};
use crate::ring::{LinkTable, added, dropped, succ, pred};
use crate::simplex::{EdgeKey, TriKey, TetKey};
use crate::view::MeshView;

verus! {

broadcast use vstd::std_specs::hash::group_hash_axioms;
// The keys of a store, each once, in the order in which the store walks them.
fn keys_of<R>(m: &Table<u128, R>) -> (v: Vec<u128>)
    ensures
        v@.no_duplicates(),
        forall|k: u128| v@.contains(k) <==> m@.contains_key(k),
        v@.len() == m@.dom().len(),
{
    let v = m.keys();
    proof {
        assert(v@.to_set() =~= m@.dom());
        v@.unique_seq_to_set();
    }
    v
}

/// What the mesh keeps of a vertex: its payload and the hints of the rings
/// of its outgoing and incoming edges.
#[derive(Clone, Debug)]
pub struct HigherVertex<V> {
    target: u32,
    source: u32,
    value: V,
}

/// What the mesh keeps of an edge: its payload and a vertex opposite it in
/// some triangle, or its own source where it has no triangle.
#[derive(Clone, Debug)]
pub struct HigherEdge<E> {
    tri_opp: u32,
    value: E,
}

/// What the mesh keeps of a triangle: its payload and a vertex opposite it
/// in some tetrahedron, or its own first vertex where it has no tetrahedron.
#[derive(Clone, Debug)]
pub struct HigherTri<F> {
    tet_opp: u32,
    value: F,
}

/// What the mesh keeps of a tetrahedron: its payload.
#[derive(Clone, Debug)]
pub struct Tet<T> {
    value: T,
}

/// What a mesh of vertices, edges and triangles keeps of a triangle.
pub type Tri<F> = HigherTri<F>;

/// What a mesh that is a manifold with boundary keeps of a triangle.
pub type ManifoldTri<F> = HigherTri<F>;

/// What a mesh in which no face belongs to two tetrahedra keeps of a
/// tetrahedron.
pub type MwbTet<T> = Tet<T>;

/// What a mesh that is a manifold with boundary keeps of a tetrahedron.
pub type ManifoldTet<T> = Tet<T>;

/// A simplicial complex of vertices, directed edges, oriented triangles and
/// oriented tetrahedra, each with a payload.
///
/// With `MWB` set the mesh is a manifold with boundary at the top: no
/// oriented triangle is a face of two tetrahedra.
#[derive(Clone)]
pub struct Mesh<V, E, F, T, const MWB: bool> {
    vertices: Table<u32, HigherVertex<V>>,
    edges: Table<u128, HigherEdge<E>>,
    tris: Table<u128, HigherTri<F>>,
    tets: Table<u128, Tet<T>>,
    out: LinkTable,
    inc: LinkTable,
    around_edge: LinkTable,
    around_tri: LinkTable,
    next_vertex_id: u32,
}

/// A mesh in which an oriented triangle may be a face of many tetrahedra.
pub type ComboMesh3<V, E, F, T> = Mesh<V, E, F, T, false>;

/// A mesh in which an oriented triangle is a face of at most one tetrahedron.
pub type MwbComboMesh3<V, E, F, T> = Mesh<V, E, F, T, true>;

/// A mesh in which an oriented triangle is a face of at most one tetrahedron.
pub type ManifoldComboMesh3<V, E, F, T> = Mesh<V, E, F, T, true>;

/// A mesh of vertices, edges and triangles.
pub type ComboMesh2<V, E, F> = Mesh<V, E, F, (), false>;

impl<V, E, F, T, const MWB: bool> Default for Mesh<V, E, F, T, MWB> {
    fn default() -> (m: Self)
        ensures
            m.wf(),
            m@ == MeshView::<V, E, F, T>::empty(),
    {
        Mesh::new()
    }
}

impl<V, E, F, T, const MWB: bool> View for Mesh<V, E, F, T, MWB> {
    type V = MeshView<V, E, F, T>;

    closed spec fn view(&self) -> MeshView<V, E, F, T> {
        MeshView {
            vertices: Map::new(
                |a: u32| self.vertices@.contains_key(a),
                |a: u32| self.vertices@[a].value,
            ),
            edges: Map::new(
                |e: EdgeKey| self.edges@.contains_key(key2(e.0, e.1)),
                |e: EdgeKey| self.edges@[key2(e.0, e.1)].value,
            ),
            tris: Map::new(
                |t: TriKey| self.tris@.contains_key(key3(t.0, t.1, t.2)),
                |t: TriKey| self.tris@[key3(t.0, t.1, t.2)].value,
            ),
            tets: Map::new(
                |t: TetKey| self.tets@.contains_key(key4(t.0, t.1, t.2, t.3)),
                |t: TetKey| self.tets@[key4(t.0, t.1, t.2, t.3)].value,
            ),
            targets: Map::total(|a: u32| self.out.ring(a as u128)),
            sources: Map::total(|b: u32| self.inc.ring(b as u128)),
            tri_opps: Map::total(|e: EdgeKey| self.around_edge.ring(key2(e.0, e.1))),
            tet_opps: Map::total(|f: TriKey| self.around_tri.ring(key3(f.0, f.1, f.2))),
            next_id: self.next_vertex_id,
        }
    }
}

impl<V, E, F, T, const MWB: bool> Mesh<V, E, F, T, MWB> {
    /// The stores and the link tables agree: every hint names the first
    /// member of its ring, and every key stands for a simplex.
    pub closed spec fn inv(&self) -> bool {
        &&& self.out.wf()
        &&& self.inc.wf()
        &&& self.around_edge.wf()
        &&& self.around_tri.wf()
        &&& self.vertices@.dom().finite()
        &&& self.edges@.dom().finite()
        &&& self.tris@.dom().finite()
        &&& self.tets@.dom().finite()
        &&& forall|k: u128| #[trigger] self.edges@.contains_key(k) ==> is_key2(k)
        &&& forall|k: u128| #[trigger] self.tris@.contains_key(k) ==> is_key3(k)
        &&& forall|a: u32| #[trigger]
            self.vertices@.contains_key(a) ==> self.out.hinted(
                a as u128,
                self.vertices@[a].target,
                a,
            ) && self.inc.hinted(a as u128, self.vertices@[a].source, a)
        &&& forall|a: u32, b: u32| #[trigger]
            self.edges@.contains_key(key2(a, b)) ==> self.around_edge.hinted(
                key2(a, b),
                self.edges@[key2(a, b)].tri_opp,
                a,
            )
        &&& forall|a: u32, b: u32, c: u32| #[trigger]
            self.tris@.contains_key(key3(a, b, c)) ==> self.around_tri.hinted(
                key3(a, b, c),
                self.tris@[key3(a, b, c)].tet_opp,
                a,
            )
    }

    /// The mesh is in order: its parts agree with each other, and what it
    /// holds satisfies the invariants of a mesh.
    pub open spec fn wf(&self) -> bool {
        &&& self.inv()
        &&& self@.wf(MWB)
    }

    /// An empty mesh.
    pub fn new() -> (m: Self)
        ensures
            m.wf(),
            m@ == MeshView::<V, E, F, T>::empty(),
    {
        let m = Mesh {
            vertices: Table::new(),
            edges: Table::new(),
            tris: Table::new(),
            tets: Table::new(),
            out: LinkTable::new(),
            inc: LinkTable::new(),
            around_edge: LinkTable::new(),
            around_tri: LinkTable::new(),
            next_vertex_id: 0,
        };
        proof {
            let e = MeshView::<V, E, F, T>::empty();
            assert(m@.vertices =~= e.vertices);
            assert(m@.edges =~= e.edges);
            assert(m@.tris =~= e.tris);
            assert(m@.tets =~= e.tets);
            assert(m@.targets =~= e.targets);
            assert(m@.sources =~= e.sources);
            assert(m@.tri_opps =~= e.tri_opps);
            assert(m@.tet_opps =~= e.tet_opps);
        }
        m
    }

    // ------------------------------------------------------------------
    // Rings, one step at a time. Each step keeps `inv` and changes one ring.

    pub(crate) fn out_add(&mut self, a: u32, b: u32)
        requires
            old(self).inv(),
            old(self)@.vertices.contains_key(a),
            a != b,
            !old(self)@.targets[a].contains(b),
        ensures
            final(self).inv(),
            final(self)@ == (MeshView {
                targets: old(self)@.targets.insert(a, added(old(self)@.targets[a], b, false)),
                ..old(self)@
            }),
    {
        let rec = self.vertices.remove(&a).unwrap();
        let h: u32 = self.out.add(a as u128, rec.target, a, b, false);
        self.vertices.insert(a, HigherVertex { target: h, source: rec.source, value: rec.value });
        proof {
            assert(self@.vertices =~= old(self)@.vertices);
            assert(self@.targets =~= old(self)@.targets.insert(
                a,
                added(old(self)@.targets[a], b, false),
            ));
        }
    }

    pub(crate) fn out_del(&mut self, a: u32, b: u32)
        requires
            old(self).inv(),
            old(self)@.vertices.contains_key(a),
            old(self)@.targets[a].contains(b),
        ensures
            final(self).inv(),
            final(self)@ == (MeshView {
                targets: old(self)@.targets.insert(a, dropped(old(self)@.targets[a], b)),
                ..old(self)@
            }),
    {
        let rec = self.vertices.remove(&a).unwrap();
        let h: u32 = self.out.del(a as u128, rec.target, a, b);
        self.vertices.insert(a, HigherVertex { target: h, source: rec.source, value: rec.value });
        proof {
            assert(self@.vertices =~= old(self)@.vertices);
            assert(self@.targets =~= old(self)@.targets.insert(
                a,
                dropped(old(self)@.targets[a], b),
            ));
        }
    }

    pub(crate) fn in_add(&mut self, b: u32, a: u32)
        requires
            old(self).inv(),
            old(self)@.vertices.contains_key(b),
            a != b,
            !old(self)@.sources[b].contains(a),
        ensures
            final(self).inv(),
            final(self)@ == (MeshView {
                sources: old(self)@.sources.insert(b, added(old(self)@.sources[b], a, false)),
                ..old(self)@
            }),
    {
        let rec = self.vertices.remove(&b).unwrap();
        let h: u32 = self.inc.add(b as u128, rec.source, b, a, false);
        self.vertices.insert(b, HigherVertex { target: rec.target, source: h, value: rec.value });
        proof {
            assert(self@.vertices =~= old(self)@.vertices);
            assert(self@.sources =~= old(self)@.sources.insert(
                b,
                added(old(self)@.sources[b], a, false),
            ));
        }
    }

    pub(crate) fn in_del(&mut self, b: u32, a: u32)
        requires
            old(self).inv(),
            old(self)@.vertices.contains_key(b),
            old(self)@.sources[b].contains(a),
        ensures
            final(self).inv(),
            final(self)@ == (MeshView {
                sources: old(self)@.sources.insert(b, dropped(old(self)@.sources[b], a)),
                ..old(self)@
            }),
    {
        let rec = self.vertices.remove(&b).unwrap();
        let h: u32 = self.inc.del(b as u128, rec.source, b, a);
        self.vertices.insert(b, HigherVertex { target: rec.target, source: h, value: rec.value });
        proof {
            assert(self@.vertices =~= old(self)@.vertices);
            assert(self@.sources =~= old(self)@.sources.insert(
                b,
                dropped(old(self)@.sources[b], a),
            ));
        }
    }

    pub(crate) fn edge_ring_add(&mut self, a: u32, b: u32, c: u32)
        requires
            old(self).inv(),
            old(self)@.edges.contains_key((a, b)),
            c != a,
            !old(self)@.tri_opps[(a, b)].contains(c),
        ensures
            final(self).inv(),
            final(self)@ == (MeshView {
                tri_opps: old(self)@.tri_opps.insert(
                    (a, b),
                    added(old(self)@.tri_opps[(a, b)], c, true),
                ),
                ..old(self)@
            }),
    {
        let k: u128 = make2(a, b);
        let rec = self.edges.remove(&k).unwrap();
        let h: u32 = self.around_edge.add(k, rec.tri_opp, a, c, true);
        self.edges.insert(k, HigherEdge { tri_opp: h, value: rec.value });
        proof {
            lemma_key2(a, b);
            assert forall|a2: u32, b2: u32| #[trigger]
                self.edges@.contains_key(key2(a2, b2)) implies self.around_edge.hinted(
                key2(a2, b2),
                self.edges@[key2(a2, b2)].tri_opp,
                a2,
            ) by {
                lemma_key2(a2, b2);
                if key2(a2, b2) != k {
                    assert(old(self).edges@.contains_key(key2(a2, b2)));
                }
            }
            assert(self@.edges =~= old(self)@.edges);
            assert(self@.tri_opps =~= old(self)@.tri_opps.insert(
                (a, b),
                added(old(self)@.tri_opps[(a, b)], c, true),
            )) by {
                assert forall|e: EdgeKey| e != (a, b) implies key2(e.0, e.1) != k by {
                    lemma_key2(e.0, e.1);
                }
            }
        }
    }

    pub(crate) fn edge_ring_del(&mut self, a: u32, b: u32, c: u32)
        requires
            old(self).inv(),
            old(self)@.edges.contains_key((a, b)),
            old(self)@.tri_opps[(a, b)].contains(c),
        ensures
            final(self).inv(),
            final(self)@ == (MeshView {
                tri_opps: old(self)@.tri_opps.insert((a, b), dropped(old(self)@.tri_opps[(a, b)], c)),
                ..old(self)@
            }),
    {
        let k: u128 = make2(a, b);
        let rec = self.edges.remove(&k).unwrap();
        let h: u32 = self.around_edge.del(k, rec.tri_opp, a, c);
        self.edges.insert(k, HigherEdge { tri_opp: h, value: rec.value });
        proof {
            lemma_key2(a, b);
            assert forall|a2: u32, b2: u32| #[trigger]
                self.edges@.contains_key(key2(a2, b2)) implies self.around_edge.hinted(
                key2(a2, b2),
                self.edges@[key2(a2, b2)].tri_opp,
                a2,
            ) by {
                lemma_key2(a2, b2);
                if key2(a2, b2) != k {
                    assert(old(self).edges@.contains_key(key2(a2, b2)));
                }
            }
            assert(self@.edges =~= old(self)@.edges);
            assert(self@.tri_opps =~= old(self)@.tri_opps.insert(
                (a, b),
                dropped(old(self)@.tri_opps[(a, b)], c),
            )) by {
                assert forall|e: EdgeKey| e != (a, b) implies key2(e.0, e.1) != k by {
                    lemma_key2(e.0, e.1);
                }
            }
        }
    }

    pub(crate) fn tri_ring_add(&mut self, f: (u32, u32, u32), d: u32)
        requires
            old(self).inv(),
            old(self)@.tris.contains_key(f),
            d != f.0,
            !old(self)@.tet_opps[f].contains(d),
        ensures
            final(self).inv(),
            final(self)@ == (MeshView {
                tet_opps: old(self)@.tet_opps.insert(f, added(old(self)@.tet_opps[f], d, true)),
                ..old(self)@
            }),
    {
        let k: u128 = make3(f.0, f.1, f.2);
        let rec = self.tris.remove(&k).unwrap();
        let h: u32 = self.around_tri.add(k, rec.tet_opp, f.0, d, true);
        self.tris.insert(k, HigherTri { tet_opp: h, value: rec.value });
        proof {
            lemma_key3(f.0, f.1, f.2);
            assert forall|a2: u32, b2: u32, c2: u32| #[trigger]
                self.tris@.contains_key(key3(a2, b2, c2)) implies self.around_tri.hinted(
                key3(a2, b2, c2),
                self.tris@[key3(a2, b2, c2)].tet_opp,
                a2,
            ) by {
                lemma_key3(a2, b2, c2);
                if key3(a2, b2, c2) != k {
                    assert(old(self).tris@.contains_key(key3(a2, b2, c2)));
                }
            }
            assert(self@.tris =~= old(self)@.tris);
            assert(self@.tet_opps =~= old(self)@.tet_opps.insert(
                f,
                added(old(self)@.tet_opps[f], d, true),
            )) by {
                assert forall|g: TriKey| g != f implies key3(g.0, g.1, g.2) != k by {
                    lemma_key3(g.0, g.1, g.2);
                }
            }
        }
    }

    pub(crate) fn tri_ring_del(&mut self, f: (u32, u32, u32), d: u32)
        requires
            old(self).inv(),
            old(self)@.tris.contains_key(f),
            old(self)@.tet_opps[f].contains(d),
        ensures
            final(self).inv(),
            final(self)@ == (MeshView {
                tet_opps: old(self)@.tet_opps.insert(f, dropped(old(self)@.tet_opps[f], d)),
                ..old(self)@
            }),
    {
        let k: u128 = make3(f.0, f.1, f.2);
        let rec = self.tris.remove(&k).unwrap();
        let h: u32 = self.around_tri.del(k, rec.tet_opp, f.0, d);
        self.tris.insert(k, HigherTri { tet_opp: h, value: rec.value });
        proof {
            lemma_key3(f.0, f.1, f.2);
            assert forall|a2: u32, b2: u32, c2: u32| #[trigger]
                self.tris@.contains_key(key3(a2, b2, c2)) implies self.around_tri.hinted(
                key3(a2, b2, c2),
                self.tris@[key3(a2, b2, c2)].tet_opp,
                a2,
            ) by {
                lemma_key3(a2, b2, c2);
                if key3(a2, b2, c2) != k {
                    assert(old(self).tris@.contains_key(key3(a2, b2, c2)));
                }
            }
            assert(self@.tris =~= old(self)@.tris);
            assert(self@.tet_opps =~= old(self)@.tet_opps.insert(
                f,
                dropped(old(self)@.tet_opps[f], d),
            )) by {
                assert forall|g: TriKey| g != f implies key3(g.0, g.1, g.2) != k by {
                    lemma_key3(g.0, g.1, g.2);
                }
            }
        }
    }

    // ------------------------------------------------------------------
    // Stores, one step at a time. Each step keeps `inv` and changes one map.

    pub(crate) fn vertex_new(&mut self, value: V) -> (id: u32)
        requires
            old(self).inv(),
            old(self)@.next_id < u32::MAX,
            old(self)@.targets[old(self)@.next_id].len() == 0,
            old(self)@.sources[old(self)@.next_id].len() == 0,
        ensures
            final(self).inv(),
            id == old(self)@.next_id,
            final(self)@ == old(self)@.add_vertex(value),
    {
        let id: u32 = self.next_vertex_id;
        proof {
            self.out.lemma_rings_ok();
            self.inc.lemma_rings_ok();
        }
        self.vertices.insert(id, HigherVertex { target: id, source: id, value });
        self.next_vertex_id = id + 1;
        proof {
            assert(self@.vertices =~= old(self)@.vertices.insert(id, value));
        }
        id
    }

    pub(crate) fn vertex_take(&mut self, a: u32) -> (r: V)
        requires
            old(self).inv(),
            old(self)@.vertices.contains_key(a),
        ensures
            final(self).inv(),
            r == old(self)@.vertices[a],
            final(self)@ == old(self)@.remove_vertex(a),
    {
        let rec = self.vertices.remove(&a).unwrap();
        proof {
            assert(self@.vertices =~= old(self)@.vertices.remove(a));
        }
        rec.value
    }

    pub(crate) fn vertex_swap(&mut self, a: u32, value: V) -> (r: V)
        requires
            old(self).inv(),
            old(self)@.vertices.contains_key(a),
        ensures
            final(self).inv(),
            r == old(self)@.vertices[a],
            final(self)@ == (MeshView {
                vertices: old(self)@.vertices.insert(a, value),
                ..old(self)@
            }),
    {
        let rec = self.vertices.remove(&a).unwrap();
        self.vertices.insert(a, HigherVertex { target: rec.target, source: rec.source, value });
        proof {
            assert(self@.vertices =~= old(self)@.vertices.insert(a, value));
        }
        rec.value
    }

    pub(crate) fn edge_put(&mut self, a: u32, b: u32, value: E)
        requires
            old(self).inv(),
            !old(self)@.edges.contains_key((a, b)),
            old(self)@.tri_opps[(a, b)].len() == 0,
        ensures
            final(self).inv(),
            final(self)@ == (MeshView {
                edges: old(self)@.edges.insert((a, b), value),
                ..old(self)@
            }),
    {
        let k: u128 = make2(a, b);
        proof {
            lemma_key2(a, b);
            self.around_edge.lemma_rings_ok();
        }
        self.edges.insert(k, HigherEdge { tri_opp: a, value });
        proof {
            assert forall|a2: u32, b2: u32| #[trigger]
                self.edges@.contains_key(key2(a2, b2)) implies self.around_edge.hinted(
                key2(a2, b2),
                self.edges@[key2(a2, b2)].tri_opp,
                a2,
            ) by {
                lemma_key2(a2, b2);
                if key2(a2, b2) != k {
                    assert(old(self).edges@.contains_key(key2(a2, b2)));
                }
            }
            assert(self@.edges =~= old(self)@.edges.insert((a, b), value)) by {
                assert forall|e: EdgeKey| e != (a, b) implies key2(e.0, e.1) != k by {
                    lemma_key2(e.0, e.1);
                }
            }
        }
    }

    pub(crate) fn edge_take(&mut self, a: u32, b: u32) -> (r: E)
        requires
            old(self).inv(),
            old(self)@.edges.contains_key((a, b)),
        ensures
            final(self).inv(),
            r == old(self)@.edges[(a, b)],
            final(self)@ == (MeshView { edges: old(self)@.edges.remove((a, b)), ..old(self)@ }),
    {
        let k: u128 = make2(a, b);
        let rec = self.edges.remove(&k).unwrap();
        proof {
            lemma_key2(a, b);
            assert forall|a2: u32, b2: u32| #[trigger]
                self.edges@.contains_key(key2(a2, b2)) implies self.around_edge.hinted(
                key2(a2, b2),
                self.edges@[key2(a2, b2)].tri_opp,
                a2,
            ) by {
                assert(old(self).edges@.contains_key(key2(a2, b2)));
            }
            assert(self@.edges =~= old(self)@.edges.remove((a, b))) by {
                assert forall|e: EdgeKey| e != (a, b) implies key2(e.0, e.1) != k by {
                    lemma_key2(e.0, e.1);
                }
            }
        }
        rec.value
    }

    pub(crate) fn edge_swap(&mut self, a: u32, b: u32, value: E) -> (r: E)
        requires
            old(self).inv(),
            old(self)@.edges.contains_key((a, b)),
        ensures
            final(self).inv(),
            r == old(self)@.edges[(a, b)],
            final(self)@ == (MeshView {
                edges: old(self)@.edges.insert((a, b), value),
                ..old(self)@
            }),
    {
        let k: u128 = make2(a, b);
        let rec = self.edges.remove(&k).unwrap();
        self.edges.insert(k, HigherEdge { tri_opp: rec.tri_opp, value });
        proof {
            lemma_key2(a, b);
            assert forall|a2: u32, b2: u32| #[trigger]
                self.edges@.contains_key(key2(a2, b2)) implies self.around_edge.hinted(
                key2(a2, b2),
                self.edges@[key2(a2, b2)].tri_opp,
                a2,
            ) by {
                lemma_key2(a2, b2);
                if key2(a2, b2) != k {
                    assert(old(self).edges@.contains_key(key2(a2, b2)));
                }
            }
            assert(self@.edges =~= old(self)@.edges.insert((a, b), value)) by {
                assert forall|e: EdgeKey| e != (a, b) implies key2(e.0, e.1) != k by {
                    lemma_key2(e.0, e.1);
                }
            }
        }
        rec.value
    }

    pub(crate) fn tri_put(&mut self, f: (u32, u32, u32), value: F)
        requires
            old(self).inv(),
            !old(self)@.tris.contains_key(f),
            old(self)@.tet_opps[f].len() == 0,
        ensures
            final(self).inv(),
            final(self)@ == (MeshView { tris: old(self)@.tris.insert(f, value), ..old(self)@ }),
    {
        let k: u128 = make3(f.0, f.1, f.2);
        proof {
            lemma_key3(f.0, f.1, f.2);
            self.around_tri.lemma_rings_ok();
        }
        self.tris.insert(k, HigherTri { tet_opp: f.0, value });
        proof {
            assert forall|a2: u32, b2: u32, c2: u32| #[trigger]
                self.tris@.contains_key(key3(a2, b2, c2)) implies self.around_tri.hinted(
                key3(a2, b2, c2),
                self.tris@[key3(a2, b2, c2)].tet_opp,
                a2,
            ) by {
                lemma_key3(a2, b2, c2);
                if key3(a2, b2, c2) != k {
                    assert(old(self).tris@.contains_key(key3(a2, b2, c2)));
                }
            }
            assert(self@.tris =~= old(self)@.tris.insert(f, value)) by {
                assert forall|g: TriKey| g != f implies key3(g.0, g.1, g.2) != k by {
                    lemma_key3(g.0, g.1, g.2);
                }
            }
        }
    }

    pub(crate) fn tri_take(&mut self, f: (u32, u32, u32)) -> (r: F)
        requires
            old(self).inv(),
            old(self)@.tris.contains_key(f),
        ensures
            final(self).inv(),
            r == old(self)@.tris[f],
            final(self)@ == (MeshView { tris: old(self)@.tris.remove(f), ..old(self)@ }),
    {
        let k: u128 = make3(f.0, f.1, f.2);
        let rec = self.tris.remove(&k).unwrap();
        proof {
            lemma_key3(f.0, f.1, f.2);
            assert forall|a2: u32, b2: u32, c2: u32| #[trigger]
                self.tris@.contains_key(key3(a2, b2, c2)) implies self.around_tri.hinted(
                key3(a2, b2, c2),
                self.tris@[key3(a2, b2, c2)].tet_opp,
                a2,
            ) by {
                assert(old(self).tris@.contains_key(key3(a2, b2, c2)));
            }
            assert(self@.tris =~= old(self)@.tris.remove(f)) by {
                assert forall|g: TriKey| g != f implies key3(g.0, g.1, g.2) != k by {
                    lemma_key3(g.0, g.1, g.2);
                }
            }
        }
        rec.value
    }

    pub(crate) fn tri_swap(&mut self, f: (u32, u32, u32), value: F) -> (r: F)
        requires
            old(self).inv(),
            old(self)@.tris.contains_key(f),
        ensures
            final(self).inv(),
            r == old(self)@.tris[f],
            final(self)@ == (MeshView { tris: old(self)@.tris.insert(f, value), ..old(self)@ }),
    {
        let k: u128 = make3(f.0, f.1, f.2);
        let rec = self.tris.remove(&k).unwrap();
        self.tris.insert(k, HigherTri { tet_opp: rec.tet_opp, value });
        proof {
            lemma_key3(f.0, f.1, f.2);
            assert forall|a2: u32, b2: u32, c2: u32| #[trigger]
                self.tris@.contains_key(key3(a2, b2, c2)) implies self.around_tri.hinted(
                key3(a2, b2, c2),
                self.tris@[key3(a2, b2, c2)].tet_opp,
                a2,
            ) by {
                lemma_key3(a2, b2, c2);
                if key3(a2, b2, c2) != k {
                    assert(old(self).tris@.contains_key(key3(a2, b2, c2)));
                }
            }
            assert(self@.tris =~= old(self)@.tris.insert(f, value)) by {
                assert forall|g: TriKey| g != f implies key3(g.0, g.1, g.2) != k by {
                    lemma_key3(g.0, g.1, g.2);
                }
            }
        }
        rec.value
    }

    pub(crate) fn tet_put(&mut self, t: (u32, u32, u32, u32), value: T)
        requires
            old(self).inv(),
        ensures
            final(self).inv(),
            final(self)@ == (MeshView { tets: old(self)@.tets.insert(t, value), ..old(self)@ }),
    {
        let k: u128 = make4(t.0, t.1, t.2, t.3);
        self.tets.insert(k, Tet { value });
        proof {
            lemma_key4(t.0, t.1, t.2, t.3);
            assert(self@.tets =~= old(self)@.tets.insert(t, value)) by {
                assert forall|g: TetKey| g != t implies key4(g.0, g.1, g.2, g.3) != k by {
                    lemma_key4(g.0, g.1, g.2, g.3);
                }
            }
        }
    }

    pub(crate) fn tet_take(&mut self, t: (u32, u32, u32, u32)) -> (r: T)
        requires
            old(self).inv(),
            old(self)@.tets.contains_key(t),
        ensures
            final(self).inv(),
            r == old(self)@.tets[t],
            final(self)@ == (MeshView { tets: old(self)@.tets.remove(t), ..old(self)@ }),
    {
        let k: u128 = make4(t.0, t.1, t.2, t.3);
        let rec = self.tets.remove(&k).unwrap();
        proof {
            lemma_key4(t.0, t.1, t.2, t.3);
            assert(self@.tets =~= old(self)@.tets.remove(t)) by {
                assert forall|g: TetKey| g != t implies key4(g.0, g.1, g.2, g.3) != k by {
                    lemma_key4(g.0, g.1, g.2, g.3);
                }
            }
        }
        rec.value
    }

    // ------------------------------------------------------------------
    // Rings as lists.

    pub(crate) fn tet_ring(&self, f: (u32, u32, u32)) -> (v: Vec<u32>)
        requires
            self.inv(),
            self@.tris.contains_key(f),
        ensures
            v@ == self@.tet_opps[f],
    {
        let k: u128 = make3(f.0, f.1, f.2);
        let hint: u32 = self.tris.get(&k).unwrap().tet_opp;
        self.around_tri.list(k, hint, f.0)
    }

    pub(crate) fn tri_ring(&self, a: u32, b: u32) -> (v: Vec<u32>)
        requires
            self.inv(),
            self@.edges.contains_key((a, b)),
        ensures
            v@ == self@.tri_opps[(a, b)],
    {
        let k: u128 = make2(a, b);
        let hint: u32 = self.edges.get(&k).unwrap().tri_opp;
        self.around_edge.list(k, hint, a)
    }

    pub(crate) fn out_ring(&self, a: u32) -> (v: Vec<u32>)
        requires
            self.inv(),
            self@.vertices.contains_key(a),
        ensures
            v@ == self@.targets[a],
    {
        let hint: u32 = self.vertices.get(&a).unwrap().target;
        self.out.list(a as u128, hint, a)
    }

    pub(crate) fn in_ring(&self, b: u32) -> (v: Vec<u32>)
        requires
            self.inv(),
            self@.vertices.contains_key(b),
        ensures
            v@ == self@.sources[b],
    {
        let hint: u32 = self.vertices.get(&b).unwrap().source;
        self.inc.list(b as u128, hint, b)
    }

    // ------------------------------------------------------------------
    // The same stores under another type.

    // A mesh without tetrahedra, as a mesh of another kind of tetrahedra.
    pub(crate) fn retyped<U, const M: bool>(self) -> (m: Mesh<V, E, F, U, M>)
        requires
            self.wf(),
            self@.tets == Map::<TetKey, T>::empty(),
        ensures
            m.wf(),
            m@.tets == Map::<TetKey, U>::empty(),
            m@.tris == self@.tris,
            m@.edges == self@.edges,
            m@.vertices == self@.vertices,
            m@.targets == self@.targets,
            m@.sources == self@.sources,
            m@.tri_opps == self@.tri_opps,
            m@.tet_opps == self@.tet_opps,
            m@.next_id == self@.next_id,
    {
        let m = Mesh {
            vertices: self.vertices,
            edges: self.edges,
            tris: self.tris,
            tets: Table::new(),
            out: self.out,
            inc: self.inc,
            around_edge: self.around_edge,
            around_tri: self.around_tri,
            next_vertex_id: self.next_vertex_id,
        };
        proof {
            assert(m@.tets =~= Map::<TetKey, U>::empty());
            assert(m@.vertices =~= self@.vertices);
            assert(m@.edges =~= self@.edges);
            assert(m@.tris =~= self@.tris);
            assert(m@.targets =~= self@.targets);
            assert(m@.sources =~= self@.sources);
            assert(m@.tri_opps =~= self@.tri_opps);
            assert(m@.tet_opps =~= self@.tet_opps);
            assert forall|f: TriKey| #![trigger m@.tet_opps[f]] m@.tet_opps[f].len() == 0 by {
                let ring = self@.tet_opps[f];
                if ring.len() > 0 {
                    assert(ring.contains(ring[0]));
                    assert(self@.tets.contains_key(
                        crate::simplex::canon_tet(f.0, f.1, f.2, ring[0]),
                    ));
                }
            }
            assert forall|f: TriKey, d: u32|
                #![trigger m@.tet_opps[f].contains(d)]
                !m@.tet_opps[f].contains(d) by {
                assert(m@.tet_opps[f].len() == 0);
            }
        }
        m
    }

    // A mesh without triangles and tetrahedra, as a mesh of other kinds of
    // them.
    pub(crate) fn retyped_tris<G, U, const M: bool>(self) -> (m: Mesh<V, E, G, U, M>)
        requires
            self.wf(),
            self@.tets == Map::<TetKey, T>::empty(),
            self@.tris == Map::<TriKey, F>::empty(),
        ensures
            m.wf(),
            m@.tets == Map::<TetKey, U>::empty(),
            m@.tris == Map::<TriKey, G>::empty(),
            m@.edges == self@.edges,
            m@.vertices == self@.vertices,
            m@.targets == self@.targets,
            m@.sources == self@.sources,
            m@.next_id == self@.next_id,
    {
        proof {
            self.around_tri.lemma_rings_ok();
            assert forall|k: u128| !self.tris@.contains_key(k) by {
                if self.tris@.contains_key(k) {
                    lemma_triple_of(k);
                    let t = triple_of(k);
                    assert(self@.tris.contains_key(t));
                }
            }
            assert forall|e: EdgeKey| #![trigger self@.tri_opps[e]] self@.tri_opps[e].len() == 0 by {
                let ring = self@.tri_opps[e];
                if ring.len() > 0 {
                    assert(ring.contains(ring[0]));
                    assert(self@.tri_opps[(e.0, e.1)].contains(ring[0]));
                    assert(self@.tris.contains_key(
                        crate::simplex::canon_tri(e.0, e.1, ring[0]),
                    ));
                }
            }
        }
        let m = Mesh {
            vertices: self.vertices,
            edges: self.edges,
            tris: Table::new(),
            tets: Table::new(),
            out: self.out,
            inc: self.inc,
            around_edge: self.around_edge,
            around_tri: LinkTable::new(),
            next_vertex_id: self.next_vertex_id,
        };
        proof {
            assert(m@.tets =~= Map::<TetKey, U>::empty());
            assert(m@.tris =~= Map::<TriKey, G>::empty());
            assert(m@.vertices =~= self@.vertices);
            assert(m@.edges =~= self@.edges);
            assert(m@.targets =~= self@.targets);
            assert(m@.sources =~= self@.sources);
            assert(m@.tri_opps =~= self@.tri_opps);
            assert forall|a: u32, b: u32, c: u32|
                #![trigger m@.tri_opps[(a, b)].contains(c)]
                !m@.tri_opps[(a, b)].contains(c) by {
                assert(self@.tri_opps[(a, b)].len() == 0);
            }
        }
        m
    }

    // A mesh of vertices only, as a mesh of other kinds of edges, triangles
    // and tetrahedra.
    pub(crate) fn retyped_edges<D, G, U, const M: bool>(self) -> (m: Mesh<V, D, G, U, M>)
        requires
            self.wf(),
            self@.tets == Map::<TetKey, T>::empty(),
            self@.tris == Map::<TriKey, F>::empty(),
            self@.edges == Map::<EdgeKey, E>::empty(),
        ensures
            m.wf(),
            m@.tets == Map::<TetKey, U>::empty(),
            m@.tris == Map::<TriKey, G>::empty(),
            m@.edges == Map::<EdgeKey, D>::empty(),
            m@.vertices == self@.vertices,
            m@.next_id == self@.next_id,
    {
        proof {
            assert forall|a: u32| #![trigger self@.targets[a]] self@.targets[a].len() == 0 by {
                let ring = self@.targets[a];
                if ring.len() > 0 {
                    assert(ring.contains(ring[0]));
                    assert(self@.edges.contains_key((a, ring[0])));
                }
            }
            assert forall|b: u32| #![trigger self@.sources[b]] self@.sources[b].len() == 0 by {
                let ring = self@.sources[b];
                if ring.len() > 0 {
                    assert(ring.contains(ring[0]));
                    assert(self@.edges.contains_key((ring[0], b)));
                }
            }
        }
        let m = Mesh {
            vertices: self.vertices,
            edges: Table::new(),
            tris: Table::new(),
            tets: Table::new(),
            out: self.out,
            inc: self.inc,
            around_edge: LinkTable::new(),
            around_tri: LinkTable::new(),
            next_vertex_id: self.next_vertex_id,
        };
        proof {
            assert(m@.tets =~= Map::<TetKey, U>::empty());
            assert(m@.tris =~= Map::<TriKey, G>::empty());
            assert(m@.edges =~= Map::<EdgeKey, D>::empty());
            assert(m@.vertices =~= self@.vertices);
            assert(m@.targets =~= self@.targets);
            assert(m@.sources =~= self@.sources);
            assert forall|a: u32, b: u32|
                #![trigger m@.targets[a].contains(b)]
                !m@.targets[a].contains(b) by {
                assert(self@.targets[a].len() == 0);
            }
            assert forall|a: u32, b: u32|
                #![trigger m@.sources[b].contains(a)]
                !m@.sources[b].contains(a) by {
                assert(self@.sources[b].len() == 0);
            }
        }
        m
    }

    // The same mesh under another rule for faces, which it meets.
    pub(crate) fn relaxed<const M: bool>(self) -> (m: Mesh<V, E, F, T, M>)
        requires
            self.wf(),
            M ==> self@.exclusive(),
        ensures
            m.wf(),
            m@ == self@,
    {
        let m = Mesh {
            vertices: self.vertices,
            edges: self.edges,
            tris: self.tris,
            tets: self.tets,
            out: self.out,
            inc: self.inc,
            around_edge: self.around_edge,
            around_tri: self.around_tri,
            next_vertex_id: self.next_vertex_id,
        };
        proof {
            assert(m@.tets =~= self@.tets);
            assert(m@.vertices =~= self@.vertices);
            assert(m@.edges =~= self@.edges);
            assert(m@.tris =~= self@.tris);
            assert(m@.targets =~= self@.targets);
            assert(m@.sources =~= self@.sources);
            assert(m@.tri_opps =~= self@.tri_opps);
            assert(m@.tet_opps =~= self@.tet_opps);
        }
        m
    }

    // ------------------------------------------------------------------
    // Steps along rings.

    pub(crate) fn edge_hint(&self, a: u32, b: u32) -> (r: Option<u32>)
        requires
            self.inv(),
            self@.edges.contains_key((a, b)),
        ensures
            r is Some <==> self@.tri_opps[(a, b)].len() > 0,
            r is Some ==> r->0 == self@.tri_opps[(a, b)][0],
    {
        let k: u128 = make2(a, b);
        let hint: u32 = self.edges.get(&k).unwrap().tri_opp;
        proof {
            self.around_edge.lemma_rings_ok();
            if self.around_edge@.contains_key(k) {
                assert(self.around_edge.ring(k).contains(self.around_edge@[k][0]));
            }
        }
        if hint == a {
            None
        } else {
            Some(hint)
        }
    }

    pub(crate) fn tri_hint(&self, f: (u32, u32, u32)) -> (r: Option<u32>)
        requires
            self.inv(),
            self@.tris.contains_key(f),
        ensures
            r is Some <==> self@.tet_opps[f].len() > 0,
            r is Some ==> r->0 == self@.tet_opps[f][0],
    {
        let k: u128 = make3(f.0, f.1, f.2);
        let hint: u32 = self.tris.get(&k).unwrap().tet_opp;
        proof {
            self.around_tri.lemma_rings_ok();
            if self.around_tri@.contains_key(k) {
                assert(self.around_tri.ring(k).contains(self.around_tri@[k][0]));
            }
        }
        if hint == f.0 {
            None
        } else {
            Some(hint)
        }
    }

    pub(crate) fn edge_ring_step(&self, a: u32, b: u32, c: u32, forward: bool) -> (r: u32)
        requires
            self.inv(),
            self@.tri_opps[(a, b)].contains(c),
        ensures
            self@.tri_opps[(a, b)].contains(r),
            forall|i: int|
                #![trigger self@.tri_opps[(a, b)][i]]
                0 <= i < self@.tri_opps[(a, b)].len() && self@.tri_opps[(a, b)][i] == c ==> r
                    == self@.tri_opps[(a, b)][if forward {
                    succ(i, self@.tri_opps[(a, b)].len() as int)
                } else {
                    pred(i, self@.tri_opps[(a, b)].len() as int)
                }],
    {
        let k: u128 = make2(a, b);
        if forward {
            self.around_edge.next(k, c)
        } else {
            self.around_edge.prev(k, c)
        }
    }

    pub(crate) fn tri_ring_step(&self, f: (u32, u32, u32), d: u32, forward: bool) -> (r: u32)
        requires
            self.inv(),
            self@.tet_opps[f].contains(d),
        ensures
            self@.tet_opps[f].contains(r),
            forall|i: int|
                #![trigger self@.tet_opps[f][i]]
                0 <= i < self@.tet_opps[f].len() && self@.tet_opps[f][i] == d ==> r
                    == self@.tet_opps[f][if forward {
                    succ(i, self@.tet_opps[f].len() as int)
                } else {
                    pred(i, self@.tet_opps[f].len() as int)
                }],
    {
        let k: u128 = make3(f.0, f.1, f.2);
        if forward {
            self.around_tri.next(k, d)
        } else {
            self.around_tri.prev(k, d)
        }
    }

    // ------------------------------------------------------------------
    // What is there.

    pub(crate) fn has_vertex(&self, a: u32) -> (r: bool)
        ensures
            r == self@.vertices.contains_key(a),
    {
        self.vertices.contains_key(&a)
    }

    pub(crate) fn has_edge(&self, a: u32, b: u32) -> (r: bool)
        ensures
            r == self@.edges.contains_key((a, b)),
    {
        let k: u128 = make2(a, b);
        self.edges.contains_key(&k)
    }

    pub(crate) fn has_tri(&self, t: (u32, u32, u32)) -> (r: bool)
        ensures
            r == self@.tris.contains_key(t),
    {
        let k: u128 = make3(t.0, t.1, t.2);
        self.tris.contains_key(&k)
    }

    pub(crate) fn has_tet(&self, t: (u32, u32, u32, u32)) -> (r: bool)
        ensures
            r == self@.tets.contains_key(t),
    {
        let k: u128 = make4(t.0, t.1, t.2, t.3);
        self.tets.contains_key(&k)
    }

    // ------------------------------------------------------------------
    // Payloads and counts.

    /// The payload of the vertex `v`, if it is in the mesh.
    pub fn vertex(&self, v: VertexId) -> (r: Option<&V>)
        ensures
            r is Some <==> self@.vertices.contains_key(v.0),
            r is Some ==> *r->0 == self@.vertices[v.0],
    {
        match self.vertices.get(&v.0) {
            Some(rec) => Some(&rec.value),
            None => None,
        }
    }

    /// The payload of the edge `e`, if it is in the mesh.
    pub fn edge(&self, e: EdgeId) -> (r: Option<&E>)
        ensures
            r is Some <==> self@.edges.contains_key(e@),
            r is Some ==> *r->0 == self@.edges[e@],
    {
        let k: u128 = make2(e.0[0].0, e.0[1].0);
        match self.edges.get(&k) {
            Some(rec) => Some(&rec.value),
            None => None,
        }
    }

    /// The payload of the triangle `tri`, if it is in the mesh.
    pub fn tri(&self, tri: TriId) -> (r: Option<&F>)
        ensures
            r is Some <==> self@.tris.contains_key(tri.key()),
            r is Some ==> *r->0 == self@.tris[tri.key()],
    {
        let t = crate::simplex::canon3(tri.0[0].0, tri.0[1].0, tri.0[2].0);
        let k: u128 = make3(t.0, t.1, t.2);
        match self.tris.get(&k) {
            Some(rec) => Some(&rec.value),
            None => None,
        }
    }

    /// The payload of the tetrahedron `tet`, if it is in the mesh.
    pub fn tet(&self, tet: TetId) -> (r: Option<&T>)
        ensures
            r is Some <==> self@.tets.contains_key(tet.key()),
            r is Some ==> *r->0 == self@.tets[tet.key()],
    {
        let t = crate::simplex::canon4(tet.0[0].0, tet.0[1].0, tet.0[2].0, tet.0[3].0);
        let k: u128 = make4(t.0, t.1, t.2, t.3);
        match self.tets.get(&k) {
            Some(rec) => Some(&rec.value),
            None => None,
        }
    }

    /// The number that the next vertex gets.
    pub fn next_vertex_id(&self) -> (r: VertexId)
        ensures
            r.0 == self@.next_id,
    {
        VertexId(self.next_vertex_id)
    }

    /// The number of vertices.
    pub fn num_vertices(&self) -> (n: usize)
        requires
            self.wf(),
        ensures
            n == self@.vertices.dom().len(),
            self@.vertices.dom().finite(),
    {
        proof {
            assert(self@.vertices.dom() =~= self.vertices@.dom());
        }
        self.vertices.len()
    }

    proof fn lemma_edges_len(&self)
        requires
            self.inv(),
        ensures
            self@.edges.dom().len() == self.edges@.dom().len(),
            self@.edges.dom().finite(),
    {
        let f = |k: u128| pair_of(k);
        let x = self.edges@.dom();
        let y = self@.edges.dom();
        assert forall|k1: u128, k2: u128|
            x.contains(k1) && x.contains(k2) && #[trigger] f(k1) == #[trigger] f(k2) implies k1
            == k2 by {
            lemma_pair_of(k1);
            lemma_pair_of(k2);
        }
        assert(x.map(f) =~= y) by {
            assert forall|e: EdgeKey| y.contains(e) implies x.map(f).contains(e) by {
                lemma_key2(e.0, e.1);
                assert(x.contains(key2(e.0, e.1)) && f(key2(e.0, e.1)) == e);
            }
            assert forall|e: EdgeKey| x.map(f).contains(e) implies y.contains(e) by {
                let k = choose|k: u128| x.contains(k) && f(k) == e;
                lemma_pair_of(k);
            }
        }
        lemma_map_size(x, y, f);
    }

    /// The number of edges.
    pub fn num_edges(&self) -> (n: usize)
        requires
            self.wf(),
        ensures
            n == self@.edges.dom().len(),
            self@.edges.dom().finite(),
    {
        proof {
            self.lemma_edges_len();
        }
        self.edges.len()
    }

    proof fn lemma_tris_len(&self)
        requires
            self.inv(),
        ensures
            self@.tris.dom().len() == self.tris@.dom().len(),
            self@.tris.dom().finite(),
    {
        let f = |k: u128| triple_of(k);
        let x = self.tris@.dom();
        let y = self@.tris.dom();
        assert forall|k1: u128, k2: u128|
            x.contains(k1) && x.contains(k2) && #[trigger] f(k1) == #[trigger] f(k2) implies k1
            == k2 by {
            lemma_triple_of(k1);
            lemma_triple_of(k2);
        }
        assert(x.map(f) =~= y) by {
            assert forall|e: TriKey| y.contains(e) implies x.map(f).contains(e) by {
                lemma_key3(e.0, e.1, e.2);
                assert(x.contains(key3(e.0, e.1, e.2)) && f(key3(e.0, e.1, e.2)) == e);
            }
            assert forall|e: TriKey| x.map(f).contains(e) implies y.contains(e) by {
                let k = choose|k: u128| x.contains(k) && f(k) == e;
                lemma_triple_of(k);
            }
        }
        lemma_map_size(x, y, f);
    }

    /// The number of triangles.
    pub fn num_tris(&self) -> (n: usize)
        requires
            self.wf(),
        ensures
            n == self@.tris.dom().len(),
            self@.tris.dom().finite(),
    {
        proof {
            self.lemma_tris_len();
        }
        self.tris.len()
    }

    proof fn lemma_tets_len(&self)
        requires
            self.inv(),
        ensures
            self@.tets.dom().len() == self.tets@.dom().len(),
            self@.tets.dom().finite(),
    {
        let f = |k: u128| quad_of(k);
        let x = self.tets@.dom();
        let y = self@.tets.dom();
        assert forall|k1: u128, k2: u128|
            x.contains(k1) && x.contains(k2) && #[trigger] f(k1) == #[trigger] f(k2) implies k1
            == k2 by {
            lemma_quad_of(k1);
            lemma_quad_of(k2);
        }
        assert(x.map(f) =~= y) by {
            assert forall|e: TetKey| y.contains(e) implies x.map(f).contains(e) by {
                lemma_key4(e.0, e.1, e.2, e.3);
                assert(x.contains(key4(e.0, e.1, e.2, e.3)) && f(key4(e.0, e.1, e.2, e.3))
                    == e);
            }
            assert forall|e: TetKey| x.map(f).contains(e) implies y.contains(e) by {
                let k = choose|k: u128| x.contains(k) && f(k) == e;
                lemma_quad_of(k);
            }
        }
        lemma_map_size(x, y, f);
    }

    /// The number of tetrahedra.
    pub fn num_tets(&self) -> (n: usize)
        requires
            self.wf(),
        ensures
            n == self@.tets.dom().len(),
            self@.tets.dom().finite(),
    {
        proof {
            self.lemma_tets_len();
        }
        self.tets.len()
    }

    // ------------------------------------------------------------------
    // All simplices of one dimension.

    /// The vertices of the mesh, in the order of their numbers.
    pub fn vertex_ids(&self) -> (v: Vec<VertexId>)
        requires
            self.wf(),
        ensures
            v.len() == self@.vertices.dom().len(),
            forall|i: int, j: int| 0 <= i < j < v.len() ==> v[i].0 < v[j].0,
            forall|i: int| 0 <= i < v.len() ==> self@.vertices.contains_key(#[trigger] v[i].0),
            forall|a: u32|
                self@.vertices.contains_key(a) ==> exists|i: int| 0 <= i < v.len() && v[i].0 == a,
    {
        let mut v: Vec<VertexId> = Vec::new();
        let mut a: u32 = 0;
        while a < self.next_vertex_id
            invariant
                a <= self.next_vertex_id,
                forall|i: int, j: int| 0 <= i < j < v.len() ==> v[i].0 < v[j].0,
                forall|i: int| 0 <= i < v.len() ==> v[i].0 < a,
                forall|i: int| 0 <= i < v.len() ==> self@.vertices.contains_key(#[trigger] v[i].0),
                forall|b: u32|
                    self@.vertices.contains_key(b) && b < a ==> exists|i: int|
                        0 <= i < v.len() && v[i].0 == b,
            decreases self.next_vertex_id - a,
        {
            if self.vertices.contains_key(&a) {
                let ghost old_v = v@;
                v.push(VertexId(a));
                proof {
                    assert forall|b: u32| self@.vertices.contains_key(b) && b < a + 1 implies exists|
                        i: int,
                    | 0 <= i < v.len() && v[i].0 == b by {
                        if b < a {
                            let i = choose|i: int| 0 <= i < old_v.len() && old_v[i].0 == b;
                            assert(v[i].0 == b);
                        } else {
                            assert(v[v.len() - 1].0 == b);
                        }
                    }
                }
            }
            a = a + 1;
        }
        proof {
            let keys = v@.map_values(|x: VertexId| x.0);
            assert forall|i: int, j: int|
                0 <= i < keys.len() && 0 <= j < keys.len() && i != j implies keys[i] != keys[j] by {
                if i < j {
                    assert(v[i].0 < v[j].0);
                } else {
                    assert(v[j].0 < v[i].0);
                }
            }
            keys.unique_seq_to_set();
            assert(keys.to_set() =~= self@.vertices.dom()) by {
                assert forall|a: u32| keys.to_set().contains(a) implies self@.vertices.dom().contains(
                    a,
                ) by {
                    let i = choose|i: int| 0 <= i < keys.len() && keys[i] == a;
                    assert(self@.vertices.contains_key(v[i].0));
                }
                assert forall|a: u32| self@.vertices.dom().contains(a) implies keys.to_set().contains(
                    a,
                ) by {
                    let i = choose|i: int| 0 <= i < v.len() && v[i].0 == a;
                    assert(keys[i] == a);
                }
            }
        }
        v
    }

    /// The edges of the mesh, each once.
    pub fn edge_ids(&self) -> (v: Vec<EdgeId>)
        requires
            self.wf(),
        ensures
            v.len() == self@.edges.dom().len(),
            forall|i: int, j: int| 0 <= i < j < v.len() ==> v[i]@ != v[j]@,
            forall|i: int| 0 <= i < v.len() ==> self@.edges.contains_key(#[trigger] v[i]@),
            forall|e: EdgeKey|
                self@.edges.contains_key(e) ==> exists|i: int| 0 <= i < v.len() && v[i]@ == e,
    {
        let n = self.num_edges();
        let keys = keys_of(&self.edges);
        proof {
            self.lemma_edges_len();
            assert(keys.len() == n);
            assert forall|j: int| 0 <= j < keys.len() implies self.edges@.contains_key(
                #[trigger] keys[j],
            ) by {
                assert(keys@.contains(keys[j]));
            }
        }
        let mut v: Vec<EdgeId> = Vec::new();
        let mut i: usize = 0;
        while i < keys.len()
            invariant
                0 <= i <= keys.len(),
                v.len() == i,
                keys.len() == n,
                self.inv(),
                forall|j: int| 0 <= j < keys.len() ==> self.edges@.contains_key(#[trigger] keys[j]),
                forall|j: int| 0 <= j < i ==> key2((#[trigger] v[j])@.0, v[j]@.1) == keys[j],
            decreases keys.len() - i,
        {
            let k: u128 = keys[i];
            proof {
                assert(keys@.contains(keys[i as int]));
            }
            let (a, b) = unmake2(k);
            v.push(EdgeId([VertexId(a), VertexId(b)]));
            i = i + 1;
        }
        proof {
            assert forall|e: EdgeKey| self@.edges.contains_key(e) implies exists|i: int|
                0 <= i < v.len() && v[i]@ == e by {
                assert(keys@.contains(key2(e.0, e.1)));
                let j = choose|j: int| 0 <= j < keys.len() && keys[j] == key2(e.0, e.1);
                lemma_key2(e.0, e.1);
                lemma_key2(v[j]@.0, v[j]@.1);
            }
            assert forall|j: int| 0 <= j < v.len() implies self@.edges.contains_key(
                #[trigger] v[j]@,
            ) by {
                assert(self.edges@.contains_key(keys[j]));
            }
        }
        v
    }

    /// The triangles of the mesh, each once, in canonical form.
    pub fn tri_ids(&self) -> (v: Vec<TriId>)
        requires
            self.wf(),
        ensures
            v.len() == self@.tris.dom().len(),
            forall|i: int, j: int| 0 <= i < j < v.len() ==> v[i]@ != v[j]@,
            forall|i: int| 0 <= i < v.len() ==> self@.tris.contains_key(#[trigger] v[i]@),
            forall|t: TriKey|
                self@.tris.contains_key(t) ==> exists|i: int| 0 <= i < v.len() && v[i]@ == t,
    {
        let n = self.num_tris();
        let keys = keys_of(&self.tris);
        proof {
            self.lemma_tris_len();
            assert(keys.len() == n);
            assert forall|j: int| 0 <= j < keys.len() implies self.tris@.contains_key(
                #[trigger] keys[j],
            ) by {
                assert(keys@.contains(keys[j]));
            }
        }
        let mut v: Vec<TriId> = Vec::new();
        let mut i: usize = 0;
        while i < keys.len()
            invariant
                0 <= i <= keys.len(),
                v.len() == i,
                keys.len() == n,
                self.inv(),
                forall|j: int| 0 <= j < keys.len() ==> self.tris@.contains_key(#[trigger] keys[j]),
                forall|j: int|
                    0 <= j < i ==> key3((#[trigger] v[j])@.0, v[j]@.1, v[j]@.2) == keys[j],
            decreases keys.len() - i,
        {
            let k: u128 = keys[i];
            proof {
                assert(keys@.contains(keys[i as int]));
            }
            let (a, b, c) = unmake3(k);
            v.push(TriId([VertexId(a), VertexId(b), VertexId(c)]));
            i = i + 1;
        }
        proof {
            assert forall|t: TriKey| self@.tris.contains_key(t) implies exists|i: int|
                0 <= i < v.len() && v[i]@ == t by {
                assert(keys@.contains(key3(t.0, t.1, t.2)));
                let j = choose|j: int| 0 <= j < keys.len() && keys[j] == key3(t.0, t.1, t.2);
                lemma_key3(t.0, t.1, t.2);
                lemma_key3(v[j]@.0, v[j]@.1, v[j]@.2);
            }
            assert forall|j: int| 0 <= j < v.len() implies self@.tris.contains_key(
                #[trigger] v[j]@,
            ) by {
                assert(self.tris@.contains_key(keys[j]));
            }
        }
        v
    }

    /// The tetrahedra of the mesh, each once, in canonical form.
    pub fn tet_ids(&self) -> (v: Vec<TetId>)
        requires
            self.wf(),
        ensures
            v.len() == self@.tets.dom().len(),
            forall|i: int, j: int| 0 <= i < j < v.len() ==> v[i]@ != v[j]@,
            forall|i: int| 0 <= i < v.len() ==> self@.tets.contains_key(#[trigger] v[i]@),
            forall|t: TetKey|
                self@.tets.contains_key(t) ==> exists|i: int| 0 <= i < v.len() && v[i]@ == t,
    {
        let n = self.num_tets();
        let keys = keys_of(&self.tets);
        proof {
            self.lemma_tets_len();
            assert(keys.len() == n);
            assert forall|j: int| 0 <= j < keys.len() implies self.tets@.contains_key(
                #[trigger] keys[j],
            ) by {
                assert(keys@.contains(keys[j]));
            }
        }
        let mut v: Vec<TetId> = Vec::new();
        let mut i: usize = 0;
        while i < keys.len()
            invariant
                0 <= i <= keys.len(),
                v.len() == i,
                keys.len() == n,
                forall|j: int| 0 <= j < keys.len() ==> self.tets@.contains_key(#[trigger] keys[j]),
                forall|j: int|
                    0 <= j < i ==> key4((#[trigger] v[j])@.0, v[j]@.1, v[j]@.2, v[j]@.3)
                        == keys[j],
            decreases keys.len() - i,
        {
            let k: u128 = keys[i];
            let (a, b, c, d) = unmake4(k);
            v.push(TetId([VertexId(a), VertexId(b), VertexId(c), VertexId(d)]));
            i = i + 1;
        }
        proof {
            assert forall|t: TetKey| self@.tets.contains_key(t) implies exists|i: int|
                0 <= i < v.len() && v[i]@ == t by {
                assert(keys@.contains(key4(t.0, t.1, t.2, t.3)));
                let j = choose|j: int| 0 <= j < keys.len() && keys[j] == key4(t.0, t.1, t.2, t.3);
                lemma_key4(t.0, t.1, t.2, t.3);
                lemma_key4(v[j]@.0, v[j]@.1, v[j]@.2, v[j]@.3);
            }
            assert forall|j: int| 0 <= j < v.len() implies self@.tets.contains_key(
                #[trigger] v[j]@,
            ) by {
                assert(self.tets@.contains_key(keys[j]));
            }
        }
        v
    }
}

} // verus!
