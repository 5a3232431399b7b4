use std::fmt::Debug;
use std::hash::Hash;

use cimplex::ids::{EdgeId, TetId, TriId, VertexId};
use cimplex::mesh::{ComboMesh3, Mesh};
use fnv::FnvHashSet;


fn assert_vertices<V: Clone + Debug + Eq + Hash, E, F, T, const MWB: bool>(
    mesh: &Mesh<V, E, F, T, MWB>,
    vertices: Vec<(VertexId, V)>,
) {
    let result = mesh
        .vertex_ids()
        .into_iter()
        .map(|id| (id, mesh.vertex(id).unwrap().clone()))
        .collect::<FnvHashSet<_>>();
    let expect = vertices.into_iter().collect::<FnvHashSet<_>>();

    assert_eq!(result, expect);
}

fn assert_edges<V, E: Clone + Debug + Eq + Hash, F, T, const MWB: bool>(
    mesh: &Mesh<V, E, F, T, MWB>,
    edges: Vec<(EdgeId, E)>,
) {
    let result = mesh
        .edge_ids()
        .into_iter()
        .map(|id| (id, mesh.edge(id).unwrap().clone()))
        .collect::<FnvHashSet<_>>();
    let expect = edges
        .into_iter()
        .map(|(id, e)| (EdgeId::try_new(id.0).unwrap(), e))
        .collect::<FnvHashSet<_>>();

    assert_eq!(result, expect);
    assert_eq!(mesh.num_edges(), expect.len());
}

fn assert_tris<V, E, F: Clone + Debug + Eq + Hash, T, const MWB: bool>(
    mesh: &Mesh<V, E, F, T, MWB>,
    tris: Vec<(TriId, F)>,
) {
    let result = mesh
        .tri_ids()
        .into_iter()
        .map(|id| (id, mesh.tri(id).unwrap().clone()))
        .collect::<FnvHashSet<_>>();
    let expect = tris
        .into_iter()
        .map(|(id, f)| (TriId::try_new(id.0).unwrap(), f))
        .collect::<FnvHashSet<_>>();

    assert_eq!(result, expect);
    assert_eq!(mesh.num_tris(), expect.len());
}


fn assert_tets<V, E, F, T: Clone + Debug + Eq + Hash, const MWB: bool>(
    mesh: &Mesh<V, E, F, T, MWB>,
    tets: Vec<(TetId, T)>,
) {
    let result = mesh
        .tet_ids()
        .into_iter()
        .map(|id| (id, mesh.tet(id).unwrap().clone()))
        .collect::<FnvHashSet<_>>();
    let expect = tets
        .into_iter()
        .map(|(id, t)| (TetId::try_new(id.0).unwrap(), t))
        .collect::<FnvHashSet<_>>();

    assert_eq!(result, expect);
    assert_eq!(mesh.num_tets(), expect.len());
}

#[test]
fn mesh_3_test_default() {
    let mesh = ComboMesh3::<(), (), (), ()>::default();
    assert!(mesh.num_vertices() == 0);
    assert!(mesh.num_edges() == 0);
    assert!(mesh.num_tris() == 0);
    assert!(mesh.num_tets() == 0);
    assert_eq!(mesh.num_edges(), 0);
    assert_eq!(mesh.num_tris(), 0);
    assert_eq!(mesh.num_tets(), 0);
}

#[test]
fn mesh_3_test_add_vertex() {
    let mut mesh = ComboMesh3::<usize, usize, usize, usize>::default();
    let id = mesh.add_vertex(3);
    assert_eq!(mesh.vertex(id), Some(&3));

    let id2 = mesh.add_vertex(9);
    assert_eq!(mesh.vertex(id), Some(&3));
    assert_eq!(mesh.vertex(id2), Some(&9));
}

#[test]
fn mesh_3_test_extend_vertices() {
    let mut mesh = ComboMesh3::<usize, usize, usize, usize>::default();
    let ids = mesh.extend_vertices(vec![3, 6, 9, 2]);
    assert_eq!(mesh.vertex(ids[0]), Some(&3));
    assert_eq!(mesh.vertex(ids[1]), Some(&6));
    assert_eq!(mesh.vertex(ids[2]), Some(&9));
    assert_eq!(mesh.vertex(ids[3]), Some(&2));

    let ids2 = mesh.extend_vertices(vec![5, 8]);
    assert_vertices(
        &mesh,
        vec![
            (ids[0], 3),
            (ids[1], 6),
            (ids[2], 9),
            (ids[3], 2),
            (ids2[0], 5),
            (ids2[1], 8),
        ],
    );
}

#[test]
fn mesh_3_test_add_edge() {
    let mut mesh = ComboMesh3::<usize, usize, usize, usize>::default();
    let ids = mesh.extend_vertices(vec![3, 6, 9, 2]);
    let prev = mesh.add_edge(EdgeId([ids[1], ids[3]]), 54);
    assert_eq!(prev, None);
    assert_eq!(mesh.edge(EdgeId([ids[1], ids[3]])), Some(&54));
    assert_eq!(mesh.edge(EdgeId([ids[3], ids[1]])), None); // twin should not exist
    assert_eq!(mesh.num_edges(), 1);

    // Add twin
    let prev = mesh.add_edge(EdgeId([ids[3], ids[1]]), 27);
    assert_eq!(prev, None);
    assert_eq!(mesh.edge(EdgeId([ids[1], ids[3]])), Some(&54));
    assert_eq!(mesh.edge(EdgeId([ids[3], ids[1]])), Some(&27));
    assert_eq!(mesh.num_edges(), 2);

    // Modify edge
    let prev = mesh.add_edge(EdgeId([ids[1], ids[3]]), 1);
    assert_eq!(prev, Some(54));
    assert_eq!(mesh.edge(EdgeId([ids[1], ids[3]])), Some(&1));
    assert_eq!(mesh.edge(EdgeId([ids[3], ids[1]])), Some(&27));
    assert_eq!(mesh.num_edges(), 2);
}

#[test]
#[should_panic]
fn mesh_3_test_add_edge_bad() {
    let mut mesh = ComboMesh3::<usize, usize, usize, usize>::default();
    let ids = mesh.extend_vertices(vec![3, 6, 9, 2]);
    mesh.add_edge(EdgeId::try_new([ids[1], ids[1]]).unwrap(), 4);
}

#[test]
fn mesh_3_test_extend_edges() {
    let mut mesh = ComboMesh3::<usize, usize, usize, usize>::default();
    let ids = mesh.extend_vertices(vec![3, 6, 9, 2]);
    let edges = vec![
        (EdgeId([ids[0], ids[3]]), 5),
        (EdgeId([ids[1], ids[3]]), 3),
        (EdgeId([ids[3], ids[1]]), 2),
        (EdgeId([ids[2], ids[3]]), 8),
        (EdgeId([ids[1], ids[2]]), 9),
    ];
    mesh.extend_edges(edges.clone());

    for (edge, value) in edges {
        assert_eq!(mesh.edge(edge), Some(&value))
    }
    assert_eq!(mesh.num_edges(), 5);
}

#[test]
fn mesh_3_test_add_tri() {
    let mut mesh = ComboMesh3::<usize, usize, usize, usize>::default();
    let ids = mesh.extend_vertices(vec![3, 6, 9, 2]);
    assert_eq!(mesh.add_tri(TriId([ids[1], ids[0], ids[2]]), 5, || 0), None);

    assert_edges(
        &mesh,
        vec![
            (EdgeId([ids[1], ids[0]]), 0),
            (EdgeId([ids[0], ids[2]]), 0),
            (EdgeId([ids[2], ids[1]]), 0),
        ],
    );
    assert_tris(&mesh, vec![(TriId([ids[0], ids[2], ids[1]]), 5)]);

    // Prematurely add edge
    mesh.add_edge(EdgeId([ids[1], ids[2]]), 1);

    // Add twin
    assert_eq!(mesh.add_tri(TriId([ids[1], ids[2], ids[0]]), 6, || 0), None);
    assert_edges(
        &mesh,
        vec![
            (EdgeId([ids[1], ids[0]]), 0),
            (EdgeId([ids[0], ids[2]]), 0),
            (EdgeId([ids[2], ids[1]]), 0),
            (EdgeId([ids[1], ids[2]]), 1),
            (EdgeId([ids[0], ids[1]]), 0),
            (EdgeId([ids[2], ids[0]]), 0),
        ],
    );
    assert_tris(
        &mesh,
        vec![(TriId([ids[0], ids[2], ids[1]]), 5), (TriId([ids[0], ids[1], ids[2]]), 6)],
    );

    // Modify tri
    assert_eq!(mesh.add_tri(TriId([ids[1], ids[2], ids[0]]), 7, || 0), Some(6));
    assert_edges(
        &mesh,
        vec![
            (EdgeId([ids[1], ids[0]]), 0),
            (EdgeId([ids[0], ids[2]]), 0),
            (EdgeId([ids[2], ids[1]]), 0),
            (EdgeId([ids[1], ids[2]]), 1),
            (EdgeId([ids[0], ids[1]]), 0),
            (EdgeId([ids[2], ids[0]]), 0),
        ],
    );
    assert_tris(
        &mesh,
        vec![(TriId([ids[0], ids[2], ids[1]]), 5), (TriId([ids[0], ids[1], ids[2]]), 7)],
    );
}

#[test]
fn mesh_3_test_extend_tris() {
    let mut mesh = ComboMesh3::<usize, usize, usize, usize>::default();
    let ids = mesh.extend_vertices(vec![3, 6, 9, 2, 5, 8, 1, 4]);

    let tris = vec![
        (TriId([ids[0], ids[1], ids[2]]), 1),
        (TriId([ids[3], ids[1], ids[2]]), 2),
        (TriId([ids[4], ids[2], ids[1]]), 3),
        (TriId([ids[4], ids[1], ids[5]]), 4),
        (TriId([ids[5], ids[6], ids[4]]), 5),
        (TriId([ids[4], ids[6], ids[5]]), 6),
    ];
    mesh.extend_tris(tris.clone(), || 0);

    assert_edges(
        &mesh,
        vec![
            (EdgeId([ids[0], ids[1]]), 0),
            (EdgeId([ids[1], ids[2]]), 0),
            (EdgeId([ids[2], ids[0]]), 0),
            (EdgeId([ids[3], ids[1]]), 0),
            (EdgeId([ids[2], ids[3]]), 0),
            (EdgeId([ids[4], ids[2]]), 0),
            (EdgeId([ids[2], ids[1]]), 0),
            (EdgeId([ids[1], ids[4]]), 0),
            (EdgeId([ids[4], ids[1]]), 0),
            (EdgeId([ids[1], ids[5]]), 0),
            (EdgeId([ids[5], ids[4]]), 0),
            (EdgeId([ids[5], ids[6]]), 0),
            (EdgeId([ids[6], ids[4]]), 0),
            (EdgeId([ids[4], ids[5]]), 0),
            (EdgeId([ids[4], ids[6]]), 0),
            (EdgeId([ids[6], ids[5]]), 0),
        ],
    );
    assert_tris(&mesh, tris);
}

#[test]
fn mesh_3_test_add_tet() {
    let mut mesh = ComboMesh3::<usize, usize, usize, usize>::default();
    let ids = mesh.extend_vertices(vec![3, 6, 9, 2]);
    assert_eq!(
        mesh.add_tet(TetId([ids[1], ids[0], ids[2], ids[3]]), 1, || 0, || 0),
        None
    );
    assert_tris(
        &mesh,
        vec![
            (TriId([ids[2], ids[1], ids[0]]), 0),
            (TriId([ids[1], ids[2], ids[3]]), 0),
            (TriId([ids[0], ids[3], ids[2]]), 0),
            (TriId([ids[3], ids[0], ids[1]]), 0),
        ],
    );
    assert_tets(&mesh, vec![(TetId([ids[0], ids[1], ids[3], ids[2]]), 1)]);

    // Prematurely add triangle
    mesh.add_tri(TriId([ids[1], ids[2], ids[0]]), 1, || 0);

    // Add twin
    assert_eq!(
        mesh.add_tet(TetId([ids[1], ids[0], ids[3], ids[2]]), 2, || 0, || 0),
        None
    );
    assert_tris(
        &mesh,
        vec![
            (TriId([ids[2], ids[1], ids[0]]), 0),
            (TriId([ids[1], ids[2], ids[3]]), 0),
            (TriId([ids[0], ids[3], ids[2]]), 0),
            (TriId([ids[3], ids[0], ids[1]]), 0),
            (TriId([ids[0], ids[1], ids[2]]), 1),
            (TriId([ids[3], ids[2], ids[1]]), 0),
            (TriId([ids[2], ids[3], ids[0]]), 0),
            (TriId([ids[1], ids[0], ids[3]]), 0),
        ],
    );
    assert_tets(
        &mesh,
        vec![
            (TetId([ids[0], ids[1], ids[3], ids[2]]), 1),
            (TetId([ids[0], ids[1], ids[2], ids[3]]), 2),
        ],
    );

    // Modify tet
    assert_eq!(
        mesh.add_tet(TetId([ids[3], ids[2], ids[1], ids[0]]), 3, || 0, || 0),
        Some(2)
    );
    assert_tris(
        &mesh,
        vec![
            (TriId([ids[2], ids[1], ids[0]]), 0),
            (TriId([ids[1], ids[2], ids[3]]), 0),
            (TriId([ids[0], ids[3], ids[2]]), 0),
            (TriId([ids[3], ids[0], ids[1]]), 0),
            (TriId([ids[0], ids[1], ids[2]]), 1),
            (TriId([ids[3], ids[2], ids[1]]), 0),
            (TriId([ids[2], ids[3], ids[0]]), 0),
            (TriId([ids[1], ids[0], ids[3]]), 0),
        ],
    );
    assert_tets(
        &mesh,
        vec![
            (TetId([ids[0], ids[1], ids[3], ids[2]]), 1),
            (TetId([ids[0], ids[1], ids[2], ids[3]]), 3),
        ],
    );
}

#[test]
fn mesh_3_test_extend_tets() {
    let mut mesh = ComboMesh3::<usize, usize, usize, usize>::default();
    let ids = mesh.extend_vertices(vec![3, 6, 9, 2, 5, 8, 1, 4, 7]);

    let tets = vec![
        (TetId([ids[0], ids[1], ids[2], ids[3]]), 1),
        (TetId([ids[1], ids[2], ids[3], ids[0]]), 2),
        (TetId([ids[0], ids[2], ids[3], ids[4]]), 3),
        (TetId([ids[2], ids[3], ids[4], ids[5]]), 4),
        (TetId([ids[6], ids[5], ids[4], ids[3]]), 5),
        (TetId([ids[6], ids[7], ids[4], ids[5]]), 6),
    ];
    mesh.extend_tets(tets.clone(), || 0, || 0);
    assert_eq!(mesh.num_tris(), 23);
    assert_tets(&mesh, tets);
}

#[test]
fn mesh_3_test_remove_vertex() {
    let mut mesh = ComboMesh3::<usize, usize, usize, usize>::default();
    let ids = mesh.extend_vertices(vec![3, 6, 9, 2, 5]);
    let edges = vec![
        (EdgeId([ids[0], ids[3]]), 5),
        (EdgeId([ids[1], ids[3]]), 3),
        (EdgeId([ids[3], ids[1]]), 2),
        (EdgeId([ids[2], ids[3]]), 8),
        (EdgeId([ids[1], ids[2]]), 9),
    ];
    mesh.extend_edges(edges.clone());

    mesh.remove_vertex(ids[4]); // edgeless vertex
    assert_vertices(
        &mesh,
        vec![(ids[0], 3), (ids[1], 6), (ids[2], 9), (ids[3], 2)],
    );
    assert_edges(
        &mesh,
        vec![
            (EdgeId([ids[0], ids[3]]), 5),
            (EdgeId([ids[1], ids[3]]), 3),
            (EdgeId([ids[3], ids[1]]), 2),
            (EdgeId([ids[2], ids[3]]), 8),
            (EdgeId([ids[1], ids[2]]), 9),
        ],
    );

    mesh.remove_vertex(ids[1]); // vertex with edge
    assert_vertices(&mesh, vec![(ids[0], 3), (ids[2], 9), (ids[3], 2)]);
    assert_edges(&mesh, vec![(EdgeId([ids[0], ids[3]]), 5), (EdgeId([ids[2], ids[3]]), 8)]);

    mesh.remove_vertex(ids[4]); // nonexistent vertex
    assert_vertices(&mesh, vec![(ids[0], 3), (ids[2], 9), (ids[3], 2)]);
    assert_edges(&mesh, vec![(EdgeId([ids[0], ids[3]]), 5), (EdgeId([ids[2], ids[3]]), 8)]);
}

#[test]
fn mesh_3_test_remove_add_vertex() {
    let mut mesh = ComboMesh3::<usize, usize, usize, usize>::default();
    let ids = mesh.extend_vertices(vec![3, 6, 9, 2]);
    let edges = vec![
        (EdgeId([ids[0], ids[3]]), 5),
        (EdgeId([ids[1], ids[3]]), 3),
        (EdgeId([ids[3], ids[1]]), 2),
        (EdgeId([ids[2], ids[3]]), 8),
        (EdgeId([ids[1], ids[2]]), 9),
    ];
    mesh.extend_edges(edges.clone());

    mesh.remove_vertex(ids[1]);
    assert_vertices(&mesh, vec![(ids[0], 3), (ids[2], 9), (ids[3], 2)]);
    assert_edges(&mesh, vec![(EdgeId([ids[0], ids[3]]), 5), (EdgeId([ids[2], ids[3]]), 8)]);

    let id2 = mesh.add_vertex(6);
    assert_vertices(&mesh, vec![(ids[0], 3), (ids[2], 9), (ids[3], 2), (id2, 6)]);
    assert_edges(&mesh, vec![(EdgeId([ids[0], ids[3]]), 5), (EdgeId([ids[2], ids[3]]), 8)]);
}

#[test]
fn mesh_3_test_remove_edge() {
    let mut mesh = ComboMesh3::<usize, usize, usize, usize>::default();
    let ids = mesh.extend_vertices(vec![3, 6, 9, 2]);
    let edges = vec![
        (EdgeId([ids[0], ids[3]]), 5),
        (EdgeId([ids[1], ids[3]]), 3),
        (EdgeId([ids[3], ids[1]]), 2),
        (EdgeId([ids[2], ids[3]]), 8),
        (EdgeId([ids[1], ids[2]]), 9),
    ];
    mesh.extend_edges(edges.clone());

    mesh.remove_edge(EdgeId([ids[1], ids[3]])); // first outgoing edge from vertex
    assert_edges(
        &mesh,
        vec![
            (EdgeId([ids[0], ids[3]]), 5),
            (EdgeId([ids[3], ids[1]]), 2),
            (EdgeId([ids[2], ids[3]]), 8),
            (EdgeId([ids[1], ids[2]]), 9),
        ],
    );

    mesh.remove_edge(EdgeId([ids[1], ids[2]])); // last outgoing edge from vertex
    assert_edges(
        &mesh,
        vec![
            (EdgeId([ids[0], ids[3]]), 5),
            (EdgeId([ids[3], ids[1]]), 2),
            (EdgeId([ids[2], ids[3]]), 8),
        ],
    );

    mesh.remove_edge(EdgeId([ids[3], ids[0]])); // nonexistent edge
    assert_edges(
        &mesh,
        vec![
            (EdgeId([ids[0], ids[3]]), 5),
            (EdgeId([ids[3], ids[1]]), 2),
            (EdgeId([ids[2], ids[3]]), 8),
        ],
    );
}

#[test]
fn mesh_3_test_remove_tri() {
    let mut mesh = ComboMesh3::<usize, usize, usize, usize>::default();
    let ids = mesh.extend_vertices(vec![3, 6, 9, 2, 5, 8, 1, 4]);
    let tris = vec![
        (TriId([ids[0], ids[1], ids[2]]), 1),
        (TriId([ids[3], ids[1], ids[2]]), 2),
        (TriId([ids[4], ids[2], ids[1]]), 3),
        (TriId([ids[4], ids[1], ids[5]]), 4),
        (TriId([ids[5], ids[6], ids[4]]), 5),
        (TriId([ids[4], ids[6], ids[5]]), 6),
    ];
    mesh.extend_tris(tris, || 0);

    assert_eq!(mesh.remove_tri_pruning(TriId([ids[0], ids[1], ids[2]])), Some(1)); // first tri with edge
    assert_edges(
        &mesh,
        vec![
            (EdgeId([ids[1], ids[2]]), 0),
            (EdgeId([ids[3], ids[1]]), 0),
            (EdgeId([ids[2], ids[3]]), 0),
            (EdgeId([ids[4], ids[2]]), 0),
            (EdgeId([ids[2], ids[1]]), 0),
            (EdgeId([ids[1], ids[4]]), 0),
            (EdgeId([ids[4], ids[1]]), 0),
            (EdgeId([ids[1], ids[5]]), 0),
            (EdgeId([ids[5], ids[4]]), 0),
            (EdgeId([ids[5], ids[6]]), 0),
            (EdgeId([ids[6], ids[4]]), 0),
            (EdgeId([ids[4], ids[5]]), 0),
            (EdgeId([ids[4], ids[6]]), 0),
            (EdgeId([ids[6], ids[5]]), 0),
        ],
    );
    assert_tris(
        &mesh,
        vec![
            (TriId([ids[3], ids[1], ids[2]]), 2),
            (TriId([ids[4], ids[2], ids[1]]), 3),
            (TriId([ids[4], ids[1], ids[5]]), 4),
            (TriId([ids[5], ids[6], ids[4]]), 5),
            (TriId([ids[4], ids[6], ids[5]]), 6),
        ],
    );

    assert_eq!(mesh.remove_tri_pruning(TriId([ids[3], ids[1], ids[2]])), Some(2)); // last tri with edge
    assert_edges(
        &mesh,
        vec![
            (EdgeId([ids[4], ids[2]]), 0),
            (EdgeId([ids[2], ids[1]]), 0),
            (EdgeId([ids[1], ids[4]]), 0),
            (EdgeId([ids[4], ids[1]]), 0),
            (EdgeId([ids[1], ids[5]]), 0),
            (EdgeId([ids[5], ids[4]]), 0),
            (EdgeId([ids[5], ids[6]]), 0),
            (EdgeId([ids[6], ids[4]]), 0),
            (EdgeId([ids[4], ids[5]]), 0),
            (EdgeId([ids[4], ids[6]]), 0),
            (EdgeId([ids[6], ids[5]]), 0),
        ],
    );
    assert_tris(
        &mesh,
        vec![
            (TriId([ids[4], ids[2], ids[1]]), 3),
            (TriId([ids[4], ids[1], ids[5]]), 4),
            (TriId([ids[5], ids[6], ids[4]]), 5),
            (TriId([ids[4], ids[6], ids[5]]), 6),
        ],
    );

    assert_eq!(mesh.remove_tri_pruning(TriId([ids[1], ids[2], ids[4]])), None); // nonexistent tri
    assert_edges(
        &mesh,
        vec![
            (EdgeId([ids[4], ids[2]]), 0),
            (EdgeId([ids[2], ids[1]]), 0),
            (EdgeId([ids[1], ids[4]]), 0),
            (EdgeId([ids[4], ids[1]]), 0),
            (EdgeId([ids[1], ids[5]]), 0),
            (EdgeId([ids[5], ids[4]]), 0),
            (EdgeId([ids[5], ids[6]]), 0),
            (EdgeId([ids[6], ids[4]]), 0),
            (EdgeId([ids[4], ids[5]]), 0),
            (EdgeId([ids[4], ids[6]]), 0),
            (EdgeId([ids[6], ids[5]]), 0),
        ],
    );
    assert_tris(
        &mesh,
        vec![
            (TriId([ids[4], ids[2], ids[1]]), 3),
            (TriId([ids[4], ids[1], ids[5]]), 4),
            (TriId([ids[5], ids[6], ids[4]]), 5),
            (TriId([ids[4], ids[6], ids[5]]), 6),
        ],
    );
}

#[test]
fn mesh_3_test_remove_tet() {
    let mut mesh = ComboMesh3::<usize, usize, usize, usize>::default();
    let ids = mesh.extend_vertices(vec![3, 6, 9, 2, 5, 8, 1, 4, 7]);
    let tets = vec![
        (TetId([ids[0], ids[1], ids[2], ids[3]]), 1),
        (TetId([ids[1], ids[2], ids[3], ids[0]]), 2),
        (TetId([ids[0], ids[2], ids[3], ids[4]]), 3),
        (TetId([ids[2], ids[3], ids[4], ids[5]]), 4),
        (TetId([ids[6], ids[5], ids[4], ids[3]]), 5),
        (TetId([ids[6], ids[7], ids[4], ids[5]]), 6),
    ];
    mesh.extend_tets(tets.clone(), || 0, || 0);

    assert_eq!(mesh.remove_tet_pruning(TetId([ids[0], ids[1], ids[2], ids[3]])), Some(1));
    assert_eq!(mesh.num_tris(), 20);
    assert_tets(
        &mesh,
        vec![
            (TetId([ids[1], ids[2], ids[3], ids[0]]), 2),
            (TetId([ids[0], ids[2], ids[3], ids[4]]), 3),
            (TetId([ids[2], ids[3], ids[4], ids[5]]), 4),
            (TetId([ids[6], ids[5], ids[4], ids[3]]), 5),
            (TetId([ids[6], ids[7], ids[4], ids[5]]), 6),
        ],
    );

    assert_eq!(mesh.remove_tet_pruning(TetId([ids[0], ids[1], ids[3], ids[2]])), Some(2));
    assert_eq!(mesh.num_tris(), 16);
    assert_tets(
        &mesh,
        vec![
            (TetId([ids[0], ids[2], ids[3], ids[4]]), 3),
            (TetId([ids[2], ids[3], ids[4], ids[5]]), 4),
            (TetId([ids[6], ids[5], ids[4], ids[3]]), 5),
            (TetId([ids[6], ids[7], ids[4], ids[5]]), 6),
        ],
    );

    assert_eq!(mesh.remove_tet_pruning(TetId([ids[4], ids[1], ids[3], ids[2]])), None);
    assert_eq!(mesh.num_tris(), 16);
    assert_tets(
        &mesh,
        vec![
            (TetId([ids[0], ids[2], ids[3], ids[4]]), 3),
            (TetId([ids[2], ids[3], ids[4], ids[5]]), 4),
            (TetId([ids[6], ids[5], ids[4], ids[3]]), 5),
            (TetId([ids[6], ids[7], ids[4], ids[5]]), 6),
        ],
    );
}

#[test]
fn mesh_3_test_remove_add_tet() {
    let mut mesh = ComboMesh3::<usize, usize, usize, usize>::default();
    let ids = mesh.extend_vertices(vec![3, 6, 9, 2, 5, 8, 1, 4, 7]);
    let tets = vec![
        (TetId([ids[0], ids[1], ids[2], ids[3]]), 1),
        (TetId([ids[1], ids[2], ids[3], ids[0]]), 2),
        (TetId([ids[0], ids[2], ids[3], ids[4]]), 3),
        (TetId([ids[2], ids[3], ids[4], ids[5]]), 4),
        (TetId([ids[6], ids[5], ids[4], ids[3]]), 5),
        (TetId([ids[6], ids[7], ids[4], ids[5]]), 6),
    ];
    mesh.extend_tets(tets.clone(), || 0, || 0);

    assert_eq!(mesh.remove_tet_pruning(TetId([ids[0], ids[1], ids[2], ids[3]])), Some(1));
    assert_eq!(
        mesh.add_tet(TetId([ids[7], ids[6], ids[4], ids[8]]), 7, || 0, || 0),
        None
    );
    assert_eq!(
        mesh.add_tet(TetId([ids[0], ids[1], ids[2], ids[3]]), 8, || 0, || 0),
        None
    );
    assert_eq!(mesh.num_tris(), 27);
    assert_tets(
        &mesh,
        vec![
            (TetId([ids[0], ids[1], ids[2], ids[3]]), 8),
            (TetId([ids[1], ids[2], ids[3], ids[0]]), 2),
            (TetId([ids[0], ids[2], ids[3], ids[4]]), 3),
            (TetId([ids[2], ids[3], ids[4], ids[5]]), 4),
            (TetId([ids[6], ids[5], ids[4], ids[3]]), 5),
            (TetId([ids[6], ids[7], ids[4], ids[5]]), 6),
            (TetId([ids[7], ids[6], ids[4], ids[8]]), 7),
        ],
    );
}

#[test]
fn mesh_3_test_remove_add_edge() {
    let mut mesh = ComboMesh3::<usize, usize, usize, usize>::default();
    let ids = mesh.extend_vertices(vec![3, 6, 9, 2]);
    let edges = vec![
        (EdgeId([ids[0], ids[3]]), 5),
        (EdgeId([ids[1], ids[3]]), 3),
        (EdgeId([ids[3], ids[1]]), 2),
        (EdgeId([ids[2], ids[3]]), 8),
        (EdgeId([ids[1], ids[2]]), 9),
    ];
    mesh.extend_edges(edges.clone());

    mesh.remove_edge(EdgeId([ids[1], ids[3]])); // first outgoing edge from vertex
    assert_edges(
        &mesh,
        vec![
            (EdgeId([ids[0], ids[3]]), 5),
            (EdgeId([ids[3], ids[1]]), 2),
            (EdgeId([ids[2], ids[3]]), 8),
            (EdgeId([ids[1], ids[2]]), 9),
        ],
    );

    mesh.add_edge(EdgeId([ids[1], ids[0]]), 4);
    mesh.add_edge(EdgeId([ids[1], ids[3]]), 6);
    assert_edges(
        &mesh,
        vec![
            (EdgeId([ids[0], ids[3]]), 5),
            (EdgeId([ids[3], ids[1]]), 2),
            (EdgeId([ids[2], ids[3]]), 8),
            (EdgeId([ids[1], ids[2]]), 9),
            (EdgeId([ids[1], ids[0]]), 4),
            (EdgeId([ids[1], ids[3]]), 6),
        ],
    );
}

#[test]
fn mesh_3_test_clear_vertices() {
    let mut mesh = ComboMesh3::<usize, usize, usize, usize>::default();
    let ids = mesh.extend_vertices(vec![3, 6, 9, 2, 5, 8, 1, 4]);
    let edges = vec![
        (EdgeId([ids[0], ids[3]]), 5),
        (EdgeId([ids[1], ids[3]]), 3),
        (EdgeId([ids[3], ids[1]]), 2),
        (EdgeId([ids[2], ids[3]]), 8),
        (EdgeId([ids[1], ids[2]]), 9),
    ];
    mesh.extend_edges(edges.clone());

    mesh.clear_vertices();
    assert_vertices(&mesh, vec![]);
    assert_edges(&mesh, vec![] as Vec<(EdgeId, _)>);
    assert_tris(&mesh, vec![] as Vec<(TriId, _)>);
    assert_tets(&mesh, vec![] as Vec<(TetId, _)>);
}

#[test]
fn mesh_3_test_clear_edges() {
    let mut mesh = ComboMesh3::<usize, usize, usize, usize>::default();
    let ids = mesh.extend_vertices(vec![3, 6, 9, 2, 5, 8, 1, 4]);
    let tris = vec![
        (TriId([ids[0], ids[1], ids[2]]), 1),
        (TriId([ids[3], ids[1], ids[2]]), 2),
        (TriId([ids[4], ids[2], ids[1]]), 3),
        (TriId([ids[4], ids[1], ids[5]]), 4),
        (TriId([ids[5], ids[6], ids[4]]), 5),
        (TriId([ids[4], ids[6], ids[5]]), 6),
    ];
    mesh.extend_tris(tris, || 0);

    mesh.clear_edges();
    assert_vertices(
        &mesh,
        vec![
            (ids[0], 3),
            (ids[1], 6),
            (ids[2], 9),
            (ids[3], 2),
            (ids[4], 5),
            (ids[5], 8),
            (ids[6], 1),
            (ids[7], 4),
        ],
    );
    assert_edges(&mesh, vec![] as Vec<(EdgeId, _)>);
    assert_tris(&mesh, vec![] as Vec<(TriId, _)>);
    assert_tets(&mesh, vec![] as Vec<(TetId, _)>);
}

#[test]
fn mesh_3_test_clear_tris() {
    let mut mesh = ComboMesh3::<usize, usize, usize, usize>::default();
    let ids = mesh.extend_vertices(vec![3, 6, 9, 2, 5, 8, 1, 4]);
    let tris = vec![
        (TriId([ids[0], ids[1], ids[2]]), 1),
        (TriId([ids[3], ids[1], ids[2]]), 2),
        (TriId([ids[4], ids[2], ids[1]]), 3),
        (TriId([ids[4], ids[1], ids[5]]), 4),
        (TriId([ids[5], ids[6], ids[4]]), 5),
        (TriId([ids[4], ids[6], ids[5]]), 6),
    ];
    mesh.extend_tris(tris, || 0);

    mesh.clear_tris();
    assert_vertices(
        &mesh,
        vec![
            (ids[0], 3),
            (ids[1], 6),
            (ids[2], 9),
            (ids[3], 2),
            (ids[4], 5),
            (ids[5], 8),
            (ids[6], 1),
            (ids[7], 4),
        ],
    );
    assert_edges(
        &mesh,
        vec![
            (EdgeId([ids[0], ids[1]]), 0),
            (EdgeId([ids[1], ids[2]]), 0),
            (EdgeId([ids[2], ids[0]]), 0),
            (EdgeId([ids[3], ids[1]]), 0),
            (EdgeId([ids[2], ids[3]]), 0),
            (EdgeId([ids[4], ids[2]]), 0),
            (EdgeId([ids[2], ids[1]]), 0),
            (EdgeId([ids[1], ids[4]]), 0),
            (EdgeId([ids[4], ids[1]]), 0),
            (EdgeId([ids[1], ids[5]]), 0),
            (EdgeId([ids[5], ids[4]]), 0),
            (EdgeId([ids[5], ids[6]]), 0),
            (EdgeId([ids[6], ids[4]]), 0),
            (EdgeId([ids[4], ids[5]]), 0),
            (EdgeId([ids[4], ids[6]]), 0),
            (EdgeId([ids[6], ids[5]]), 0),
        ],
    );
    assert_tris(&mesh, vec![] as Vec<(TriId, _)>);
    assert_tets(&mesh, vec![] as Vec<(TetId, _)>);
}

#[test]
fn mesh_3_test_clear_tets() {
    let mut mesh = ComboMesh3::<usize, usize, usize, usize>::default();
    let ids = mesh.extend_vertices(vec![3, 6, 9, 2, 5, 8, 1, 4, 7]);
    let tets = vec![
        (TetId([ids[0], ids[1], ids[2], ids[3]]), 1),
        (TetId([ids[1], ids[2], ids[3], ids[0]]), 2),
        (TetId([ids[0], ids[2], ids[3], ids[4]]), 3),
        (TetId([ids[2], ids[3], ids[4], ids[5]]), 4),
        (TetId([ids[6], ids[5], ids[4], ids[3]]), 5),
        (TetId([ids[6], ids[7], ids[4], ids[5]]), 6),
    ];
    mesh.extend_tets(tets.clone(), || 0, || 0);

    mesh.clear_tets();
    assert_eq!(mesh.num_vertices(), 9);
    assert_ne!(mesh.num_edges(), 0); // Don't want to think about this number
    assert_eq!(mesh.num_tris(), 23);
    assert_tets(&mesh, vec![] as Vec<(TetId, _)>);
}

#[test]
fn mesh_3_test_tet_walker() {
    let mut mesh = ComboMesh3::<usize, usize, usize, usize>::default();
    let ids = mesh.extend_vertices(vec![3, 6, 9, 2, 5, 8, 1, 4, 7]);
    let tets = vec![
        (TetId([ids[0], ids[1], ids[2], ids[3]]), 1),
        (TetId([ids[1], ids[2], ids[3], ids[0]]), 2),
        (TetId([ids[0], ids[2], ids[3], ids[4]]), 3),
        (TetId([ids[2], ids[3], ids[4], ids[5]]), 4),
        (TetId([ids[6], ids[5], ids[4], ids[3]]), 5),
        (TetId([ids[6], ids[7], ids[4], ids[5]]), 6),
    ];
    mesh.extend_tets(tets.clone(), || 0, || 0);
    mesh.add_tri(TriId([ids[6], ids[7], ids[8]]), 7, || 0);

    assert!(mesh.tet_walker_from_tri(TriId([ids[6], ids[7], ids[8]])).is_none());

    let walker = mesh.tet_walker_from_edge_edge(EdgeId([ids[2], ids[3]]), EdgeId([ids[0], ids[1]]));
    assert_eq!(walker.edge(), EdgeId([ids[2], ids[3]]));
    assert_eq!(walker.opp_edge(), EdgeId([ids[0], ids[1]]));
    assert_eq!(walker.first(), ids[2]);
    assert_eq!(walker.second(), ids[3]);
    assert_eq!(walker.third(), ids[0]);
    assert_eq!(walker.fourth(), ids[1]);
    assert_eq!(
        walker.tri(),
        TriId::try_new([ids[2], ids[3], ids[0]]).unwrap()
    );
    assert_eq!(
        walker.tet(),
        TetId::try_new([ids[2], ids[3], ids[0], ids[1]]).unwrap()
    );

    let branch = walker.twin(&mesh).unwrap(); // branch!
    assert_eq!(branch.edge(), EdgeId([ids[3], ids[2]]));
    assert_eq!(branch.opp_edge(), EdgeId([ids[0], ids[1]]));

    let walker = walker.next_edge();
    assert_eq!(walker.edge(), EdgeId([ids[3], ids[0]]));
    assert_eq!(walker.opp_edge(), EdgeId([ids[2], ids[1]]));

    let walker = walker.next_edge();
    assert_eq!(walker.edge(), EdgeId([ids[0], ids[2]]));
    assert_eq!(walker.opp_edge(), EdgeId([ids[3], ids[1]]));

    let walker = walker.next_edge();
    assert_eq!(walker.edge(), EdgeId([ids[2], ids[3]]));
    assert_eq!(walker.opp_edge(), EdgeId([ids[0], ids[1]]));

    let branch = walker.prev_edge(); // branch!
    assert_eq!(branch.edge(), EdgeId([ids[0], ids[2]]));
    assert_eq!(branch.opp_edge(), EdgeId([ids[3], ids[1]]));

    let walker = walker.next_tri();
    assert_eq!(walker.edge(), EdgeId([ids[1], ids[0]]));
    assert_eq!(walker.opp_edge(), EdgeId([ids[3], ids[2]]));

    let walker = walker.next_tri();
    assert_eq!(walker.edge(), EdgeId([ids[0], ids[1]]));
    assert_eq!(walker.opp_edge(), EdgeId([ids[2], ids[3]]));

    let walker = walker.next_tri();
    assert_eq!(walker.edge(), EdgeId([ids[3], ids[2]]));
    assert_eq!(walker.opp_edge(), EdgeId([ids[1], ids[0]]));

    let walker = walker.next_tri();
    assert_eq!(walker.edge(), EdgeId([ids[2], ids[3]]));
    assert_eq!(walker.opp_edge(), EdgeId([ids[0], ids[1]]));

    let branch = walker.prev_tri(); // branch!
    assert_eq!(branch.edge(), EdgeId([ids[3], ids[2]]));
    assert_eq!(branch.opp_edge(), EdgeId([ids[1], ids[0]]));

    let branch = branch.flip_tri(); // branch continue!
    assert_eq!(branch.edge(), EdgeId([ids[1], ids[0]]));
    assert_eq!(branch.opp_edge(), EdgeId([ids[3], ids[2]]));

    let walker = walker.next_opp(&mesh);
    assert_eq!(walker.edge(), EdgeId([ids[2], ids[3]]));
    assert_eq!(walker.opp_edge(), EdgeId([ids[0], ids[4]]));

    let walker = walker.prev_opp(&mesh);
    assert_eq!(walker.edge(), EdgeId([ids[2], ids[3]]));
    assert_eq!(walker.opp_edge(), EdgeId([ids[0], ids[1]]));

    let walker = mesh.tet_walker_from_edge_edge(EdgeId([ids[4], ids[3]]), EdgeId([ids[2], ids[0]]));
    let walker = walker.on_twin_tri(&mesh).unwrap();
    assert_eq!(walker.edge(), EdgeId([ids[3], ids[4]]));
    assert_eq!(walker.opp_edge(), EdgeId([ids[2], ids[5]]));

    let walker = walker.prev_tri().on_twin_tri(&mesh).unwrap();
    assert_eq!(walker.edge(), EdgeId([ids[3], ids[4]]));
    assert_eq!(walker.opp_edge(), EdgeId([ids[5], ids[6]]));

    assert!(walker.twin(&mesh).is_none());
}

#[test]
fn mesh_3_test_vertex_edges_out() {
    let mut mesh = ComboMesh3::<usize, usize, usize, usize>::default();
    let ids = mesh.extend_vertices(vec![3, 6, 9, 2, 5]);
    let edges = vec![
        (EdgeId([ids[0], ids[3]]), 5),
        (EdgeId([ids[1], ids[3]]), 3),
        (EdgeId([ids[3], ids[1]]), 2),
        (EdgeId([ids[1], ids[2]]), 9),
        (EdgeId([ids[2], ids[3]]), 8),
    ];
    mesh.extend_edges(edges.clone());

    let set = mesh.vertex_edges_out(ids[4]).into_iter().collect::<FnvHashSet<_>>();
    let expected = vec![].into_iter().collect::<FnvHashSet<_>>();
    assert_eq!(set, expected);

    let set = mesh.vertex_edges_out(ids[2]).into_iter().collect::<FnvHashSet<_>>();
    let expected = vec![EdgeId([ids[2], ids[3]])]
        .into_iter()
        .collect::<FnvHashSet<_>>();
    assert_eq!(set, expected);

    let set = mesh.vertex_edges_out(ids[1]).into_iter().collect::<FnvHashSet<_>>();
    let expected = vec![EdgeId([ids[1], ids[3]]), EdgeId([ids[1], ids[2]])]
        .into_iter()
        .collect::<FnvHashSet<_>>();
    assert_eq!(set, expected);
}

#[test]
fn mesh_3_test_vertex_edges_in() {
    let mut mesh = ComboMesh3::<usize, usize, usize, usize>::default();
    let ids = mesh.extend_vertices(vec![3, 6, 9, 2, 5]);
    let edges = vec![
        (EdgeId([ids[0], ids[3]]), 5),
        (EdgeId([ids[1], ids[3]]), 3),
        (EdgeId([ids[3], ids[1]]), 2),
        (EdgeId([ids[1], ids[2]]), 9),
    ];
    mesh.extend_edges(edges.clone());

    let set = mesh.vertex_edges_in(ids[4]).into_iter().collect::<FnvHashSet<_>>();
    let expected = vec![].into_iter().collect::<FnvHashSet<_>>();
    assert_eq!(set, expected);

    let set = mesh.vertex_edges_in(ids[2]).into_iter().collect::<FnvHashSet<_>>();
    let expected = vec![EdgeId([ids[1], ids[2]])]
        .into_iter()
        .collect::<FnvHashSet<_>>();
    assert_eq!(set, expected);

    let set = mesh.vertex_edges_in(ids[3]).into_iter().collect::<FnvHashSet<_>>();
    let expected = vec![EdgeId([ids[0], ids[3]]), EdgeId([ids[1], ids[3]])]
        .into_iter()
        .collect::<FnvHashSet<_>>();
    assert_eq!(set, expected);
}

#[test]
fn mesh_3_test_edge_tris() {
    let mut mesh = ComboMesh3::<usize, usize, usize, usize>::default();
    let ids = mesh.extend_vertices(vec![3, 6, 9, 2, 5, 8, 1, 4]);
    let tris = vec![
        (TriId([ids[0], ids[1], ids[2]]), 1),
        (TriId([ids[3], ids[1], ids[2]]), 2),
        (TriId([ids[4], ids[2], ids[1]]), 3),
        (TriId([ids[4], ids[1], ids[5]]), 4),
        (TriId([ids[5], ids[6], ids[4]]), 5),
        (TriId([ids[4], ids[6], ids[5]]), 6),
    ];
    mesh.extend_tris(tris, || 0);
    mesh.add_edge(EdgeId([ids[6], ids[7]]), 1);

    let set = mesh.edge_tris(EdgeId([ids[6], ids[7]])).into_iter().collect::<FnvHashSet<_>>();
    let expected = vec![].into_iter().collect::<FnvHashSet<_>>();
    assert_eq!(set, expected);

    let set = mesh.edge_tris(EdgeId([ids[0], ids[1]])).into_iter().collect::<FnvHashSet<_>>();
    let expected = vec![TriId([ids[0], ids[1], ids[2]])]
        .into_iter()
        .collect::<FnvHashSet<_>>();
    assert_eq!(set, expected);

    let set = mesh.edge_tris(EdgeId([ids[1], ids[2]])).into_iter().collect::<FnvHashSet<_>>();
    let expected = vec![
        TriId([ids[0], ids[1], ids[2]]),
        TriId([ids[1], ids[2], ids[3]]),
    ]
    .into_iter()
    .collect::<FnvHashSet<_>>();
    assert_eq!(set, expected);
}

#[test]
fn mesh_3_test_vertex_tris() {
    let mut mesh = ComboMesh3::<usize, usize, usize, usize>::default();
    let ids = mesh.extend_vertices(vec![3, 6, 9, 2, 5, 8, 1, 4]);
    let tris = vec![
        (TriId([ids[0], ids[1], ids[2]]), 1),
        (TriId([ids[3], ids[1], ids[2]]), 2),
        (TriId([ids[4], ids[2], ids[1]]), 3),
        (TriId([ids[4], ids[1], ids[5]]), 4),
        (TriId([ids[5], ids[6], ids[4]]), 5),
    ];
    mesh.extend_tris(tris, || 0);
    mesh.add_edge(EdgeId([ids[6], ids[7]]), 1);

    let set = mesh.vertex_tris(ids[7]).into_iter().collect::<FnvHashSet<_>>();
    let expected = vec![].into_iter().collect::<FnvHashSet<_>>();
    assert_eq!(set, expected);

    let set = mesh.vertex_tris(ids[6]).into_iter().collect::<FnvHashSet<_>>();
    let expected = vec![TriId([ids[4], ids[5], ids[6]])]
        .into_iter()
        .collect::<FnvHashSet<_>>();
    assert_eq!(set, expected);

    let set = mesh.vertex_tris(ids[1]).into_iter().collect::<FnvHashSet<_>>();
    let expected = vec![
        TriId([ids[0], ids[1], ids[2]]),
        TriId([ids[1], ids[2], ids[3]]),
        TriId([ids[1], ids[4], ids[2]]),
        TriId([ids[1], ids[5], ids[4]]),
    ]
    .into_iter()
    .collect::<FnvHashSet<_>>();
    assert_eq!(set, expected);
}

#[test]
fn mesh_3_test_tri_tets() {
    let mut mesh = ComboMesh3::<usize, usize, usize, usize>::default();
    let ids = mesh.extend_vertices(vec![3, 6, 9, 2, 5, 8, 1, 4, 7]);
    let tets = vec![
        (TetId([ids[0], ids[1], ids[2], ids[3]]), 1),
        (TetId([ids[1], ids[2], ids[3], ids[0]]), 2),
        (TetId([ids[0], ids[2], ids[3], ids[4]]), 3),
        (TetId([ids[2], ids[3], ids[4], ids[5]]), 4),
        (TetId([ids[6], ids[5], ids[4], ids[3]]), 5),
        (TetId([ids[6], ids[7], ids[4], ids[5]]), 6),
    ];
    mesh.extend_tets(tets.clone(), || 0, || 0);
    mesh.add_tri(TriId([ids[6], ids[7], ids[8]]), 7, || 0);

    let set = mesh
        .tri_tets(TriId([ids[6], ids[7], ids[8]])).into_iter()
        .collect::<FnvHashSet<_>>();
    let expected = vec![].into_iter().collect::<FnvHashSet<_>>();
    assert_eq!(set, expected);

    let set = mesh
        .tri_tets(TriId([ids[4], ids[5], ids[6]])).into_iter()
        .collect::<FnvHashSet<_>>();
    let expected = vec![TetId([ids[4], ids[5], ids[6], ids[7]])]
        .into_iter()
        .collect::<FnvHashSet<_>>();
    assert_eq!(set, expected);

    let set = mesh
        .tri_tets(TriId([ids[0], ids[2], ids[3]])).into_iter()
        .collect::<FnvHashSet<_>>();
    let expected = vec![
        TetId([ids[0], ids[1], ids[2], ids[3]]),
        TetId([ids[0], ids[2], ids[3], ids[4]]),
    ]
    .into_iter()
    .collect::<FnvHashSet<_>>();
    assert_eq!(set, expected);
}

#[test]
fn mesh_3_test_edge_tets() {
    let mut mesh = ComboMesh3::<usize, usize, usize, usize>::default();
    let ids = mesh.extend_vertices(vec![3, 6, 9, 2, 5, 8, 1, 4, 7]);
    let tets = vec![
        (TetId([ids[0], ids[1], ids[2], ids[3]]), 1),
        (TetId([ids[1], ids[2], ids[3], ids[0]]), 2),
        (TetId([ids[0], ids[2], ids[3], ids[4]]), 3),
        (TetId([ids[2], ids[3], ids[4], ids[5]]), 4),
        (TetId([ids[6], ids[5], ids[4], ids[3]]), 5),
        (TetId([ids[6], ids[7], ids[4], ids[5]]), 6),
    ];
    mesh.extend_tets(tets.clone(), || 0, || 0);
    mesh.add_tri(TriId([ids[6], ids[7], ids[8]]), 7, || 0);

    let set = mesh.edge_tets(EdgeId([ids[7], ids[8]])).into_iter().collect::<FnvHashSet<_>>();
    let expected = vec![].into_iter().collect::<FnvHashSet<_>>();
    assert_eq!(set, expected);

    let list = mesh.edge_tets(EdgeId([ids[6], ids[7]])).into_iter().collect::<Vec<_>>();
    assert_eq!(list.len(), 1);
    let set = list.into_iter().collect::<FnvHashSet<_>>();
    let expected = vec![TetId([ids[4], ids[5], ids[6], ids[7]])]
        .into_iter()
        .collect::<FnvHashSet<_>>();
    assert_eq!(set, expected);

    let list = mesh.edge_tets(EdgeId([ids[3], ids[4]])).into_iter().collect::<Vec<_>>();
    assert_eq!(list.len(), 3);
    let set = list.into_iter().collect::<FnvHashSet<_>>();
    let expected = vec![
        TetId([ids[0], ids[2], ids[3], ids[4]]),
        TetId([ids[2], ids[3], ids[4], ids[5]]),
        TetId([ids[3], ids[4], ids[5], ids[6]]),
    ]
    .into_iter()
    .collect::<FnvHashSet<_>>();
    assert_eq!(set, expected);
}

#[test]
fn mesh_3_test_vertex_tets() {
    let mut mesh = ComboMesh3::<usize, usize, usize, usize>::default();
    let ids = mesh.extend_vertices(vec![3, 6, 9, 2, 5, 8, 1, 4, 7]);
    let tets = vec![
        (TetId([ids[0], ids[1], ids[2], ids[3]]), 1),
        (TetId([ids[1], ids[2], ids[3], ids[0]]), 2),
        (TetId([ids[0], ids[2], ids[3], ids[4]]), 3),
        (TetId([ids[2], ids[3], ids[4], ids[5]]), 4),
        (TetId([ids[6], ids[5], ids[4], ids[3]]), 5),
        (TetId([ids[6], ids[7], ids[4], ids[5]]), 6),
    ];
    mesh.extend_tets(tets.clone(), || 0, || 0);
    mesh.add_tri(TriId([ids[6], ids[7], ids[8]]), 7, || 0);

    let set = mesh.vertex_tets(ids[8]).into_iter().collect::<FnvHashSet<_>>();
    let expected = vec![].into_iter().collect::<FnvHashSet<_>>();
    assert_eq!(set, expected);

    let list = mesh.vertex_tets(ids[7]).into_iter().collect::<Vec<_>>();
    assert_eq!(list.len(), 1);
    let set = list.into_iter().collect::<FnvHashSet<_>>();
    let expected = vec![TetId([ids[4], ids[5], ids[6], ids[7]])]
        .into_iter()
        .collect::<FnvHashSet<_>>();
    assert_eq!(set, expected);

    let list = mesh.vertex_tets(ids[4]).into_iter().collect::<Vec<_>>();
    assert_eq!(list.len(), 4);
    let set = list.into_iter().collect::<FnvHashSet<_>>();
    let expected = vec![
        TetId([ids[0], ids[2], ids[3], ids[4]]),
        TetId([ids[2], ids[3], ids[4], ids[5]]),
        TetId([ids[3], ids[4], ids[5], ids[6]]),
        TetId([ids[4], ids[5], ids[6], ids[7]]),
    ]
    .into_iter()
    .collect::<FnvHashSet<_>>();
    assert_eq!(set, expected);
}
