use cimplex::ids::{TetId, TriId, VertexId};
use cimplex::mesh::{ComboMesh3, MwbComboMesh3};
use cimplex::tetrahedralize::{boundary_tris, closest_vertex};

// Five vertices and every tetrahedron that they make in one orientation or
// the other, added in an order that mixes the rings.
fn crowded() -> (ComboMesh3<(), (), (), ()>, Vec<VertexId>) {
    let mut mesh = ComboMesh3::new();
    let ids = mesh.extend_vertices(vec![(); 5]);
    let quads = [
        [0, 1, 2, 3],
        [4, 3, 2, 1],
        [0, 2, 1, 4],
        [1, 0, 3, 4],
        [2, 0, 4, 3],
        [0, 1, 3, 2],
        [3, 4, 1, 2],
    ];
    for q in quads.iter() {
        mesh.add_tet(
            TetId::from_valid([ids[q[0]], ids[q[1]], ids[q[2]], ids[q[3]]]),
            (),
            || (),
            || (),
        );
    }
    (mesh, ids)
}

// The place of `v` in the tetrahedron turned to the front, with the smallest
// of the other three behind it: the first three are the face that leads the
// tetrahedron at `v`.
fn lead_face(t: TetId, v: VertexId) -> TriId {
    let x = t.0;
    let s = if x[0] == v {
        [x[0], x[1], x[2], x[3]]
    } else if x[1] == v {
        [x[1], x[0], x[3], x[2]]
    } else if x[2] == v {
        [x[2], x[3], x[0], x[1]]
    } else {
        [x[3], x[2], x[1], x[0]]
    };
    let r = TriId::from_valid([s[1], s[2], s[3]]);
    TriId::from_valid([s[0], r.0[0], r.0[1]])
}

#[test]
fn vertex_tris_come_edge_by_edge() {
    let (mesh, ids) = crowded();
    for &v in ids.iter() {
        let mut expected = Vec::new();
        for e in mesh.vertex_edges_out(v) {
            expected.extend(mesh.edge_tris(e));
        }
        assert!(!expected.is_empty());
        assert_eq!(mesh.vertex_tris(v), expected);
    }
}

#[test]
fn edge_tets_come_triangle_by_triangle() {
    let (mesh, _) = crowded();
    for e in mesh.edge_ids() {
        let mut expected = Vec::new();
        for tri in mesh.edge_tris(e) {
            expected.extend(mesh.tri_tets(tri));
        }
        assert!(!expected.is_empty());
        assert_eq!(mesh.edge_tets(e), expected);
    }
}

#[test]
fn vertex_tets_come_with_the_face_that_leads_them() {
    let (mesh, ids) = crowded();
    for &v in ids.iter() {
        let mut expected = Vec::new();
        for tri in mesh.vertex_tris(v) {
            for tet in mesh.tri_tets(tri) {
                if lead_face(tet, v) == tri {
                    expected.push(tet);
                }
            }
        }
        assert!(!expected.is_empty());
        assert_eq!(mesh.vertex_tets(v), expected);
    }
}

#[test]
fn adjacent_tets_come_face_by_face() {
    let (mesh, _) = crowded();
    for tet in mesh.tet_ids() {
        let faces = tet.tris();
        let mut expected = Vec::new();
        for j in 0..4 {
            expected.extend(mesh.tri_tets(faces[3 - j].twin()));
        }
        assert_eq!(mesh.adjacent_tets(tet), expected);
    }
    // a tetrahedron and its mirror image meet across all four faces
    let t = TetId::from_valid([VertexId(0), VertexId(1), VertexId(2), VertexId(3)]);
    assert_eq!(mesh.adjacent_tets(t).iter().filter(|x| **x == t.twin()).count(), 4);
}

#[test]
fn boundary_lists_the_faces_from_the_first_vertex_on() {
    let v: Vec<VertexId> = (0..5).map(VertexId).collect();
    let t = TetId::from_valid([v[0], v[1], v[2], v[3]]);
    let faces = t.tris();
    assert_eq!(boundary_tris(&vec![t]), vec![faces[3], faces[2], faces[1], faces[0]]);

    // two tetrahedra on the face (1, 2, 3): the common face and its other
    // side are left out
    let u = TetId::from_valid([v[4], v[3], v[2], v[1]]);
    let inner = t.tris()[3 - 0];
    assert_eq!(inner, TriId::from_valid([v[3], v[2], v[1]]));
    let mut expected: Vec<TriId> = Vec::new();
    for x in [t, u].iter() {
        let f = x.tris();
        for j in 0..4 {
            let g = f[3 - j];
            if g != inner && g != inner.twin() {
                expected.push(g);
            }
        }
    }
    assert_eq!(expected.len(), 6);
    assert_eq!(boundary_tris(&vec![t, u]), expected);
    // a tetrahedron that comes twice gives its faces once
    assert_eq!(boundary_tris(&vec![t, t]), vec![faces[3], faces[2], faces[1], faces[0]]);
}

#[test]
fn closest_vertex_takes_the_preferred_target_of_each_place() {
    // a path 0 -> 1 -> 2 -> 3 with a side edge 1 -> 4
    let mut mesh: MwbComboMesh3<(), (), (), ()> = MwbComboMesh3::new();
    let v = mesh.extend_vertices(vec![(); 5]);
    for (a, b) in [(0, 1), (1, 4), (1, 2), (2, 3)].iter() {
        mesh.add_edge(cimplex::ids::EdgeId([v[*a], v[*b]]), ());
    }
    let p = v[3];
    // a larger number is closer
    let closer = |a: VertexId, b: VertexId, _: VertexId| a.0 > b.0;
    // at 1 the targets are held against each other: 4 beats 2, and 4 has
    // no way on
    assert_eq!(closest_vertex(&mesh, v[0], p, &closer), (v[4], true));
    // a smaller number is closer: nothing is preferred at the start
    let farther = |a: VertexId, b: VertexId, _: VertexId| a.0 < b.0;
    assert_eq!(closest_vertex(&mesh, v[0], p, &farther), (v[0], true));
    assert_eq!(closest_vertex(&mesh, v[2], p, &farther), (v[2], true));
    // on a ring every target is preferred, and the walk ends after as many
    // steps as there are vertices
    let mut ring: MwbComboMesh3<(), (), (), ()> = MwbComboMesh3::new();
    let w = ring.extend_vertices(vec![(); 3]);
    for (a, b) in [(0, 1), (1, 2), (2, 0)].iter() {
        ring.add_edge(cimplex::ids::EdgeId([w[*a], w[*b]]), ());
    }
    let always = |_: VertexId, _: VertexId, _: VertexId| true;
    assert_eq!(closest_vertex(&ring, w[0], w[1], &always), (w[0], false));
    assert_eq!(closest_vertex(&ring, w[1], w[1], &always), (w[1], false));
}
