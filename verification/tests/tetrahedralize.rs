use std::collections::HashSet;

use cimplex::ids::{TetId, VertexId};
use cimplex::mesh::MwbComboMesh3;
use cimplex::tetrahedralize::{delaunay_tets, in_sphere_with_ghosts, tets_to_delete};
use simplicity::nalgebra::{Point3, Vector3};

type Mesh = MwbComboMesh3<Point3<f64>, (), (), ()>;

fn positions(mesh: &Mesh) -> Vec<Vector3<f64>> {
    let n = mesh.next_vertex_id().0 as usize;
    let ghost = Vector3::new(f64::INFINITY, f64::INFINITY, f64::INFINITY);
    let mut list = vec![ghost; n + 1];
    for id in mesh.vertex_ids() {
        list[id.0 as usize] = mesh.vertex(id).unwrap().coords;
    }
    list
}

fn orient_of(list: &Vec<Vector3<f64>>) -> impl Fn(VertexId, VertexId, VertexId, VertexId) -> bool + '_ {
    move |a, b, c, d| {
        simplicity::orient_3d(
            list,
            |l, i| l[i],
            a.0 as usize,
            b.0 as usize,
            c.0 as usize,
            d.0 as usize,
        )
    }
}

fn in_sphere_of(
    list: &Vec<Vector3<f64>>,
) -> impl Fn(VertexId, VertexId, VertexId, VertexId, VertexId) -> bool + '_ {
    move |a, b, c, d, e| {
        simplicity::in_sphere(
            list,
            |l, i| l[i],
            a.0 as usize,
            b.0 as usize,
            c.0 as usize,
            d.0 as usize,
            e.0 as usize,
        )
    }
}

fn closer_of(list: &Vec<Vector3<f64>>) -> impl Fn(VertexId, VertexId, VertexId) -> bool + '_ {
    move |a, b, p| {
        let da = (list[a.0 as usize] - list[p.0 as usize]).norm_squared();
        let db = (list[b.0 as usize] - list[p.0 as usize]).norm_squared();
        da < db
    }
}

fn mesh_of(points: Vec<Point3<f64>>) -> (Mesh, Vec<VertexId>) {
    let mut mesh = Mesh::new();
    let ids = points.into_iter().map(|p| mesh.add_vertex(p)).collect();
    (mesh, ids)
}

fn tetrahedralize(mesh: Mesh) -> Mesh {
    let list = positions(&mesh);
    let ghost = Point3::new(f64::INFINITY, f64::INFINITY, f64::INFINITY);
    delaunay_tets(
        mesh,
        ghost,
        || (),
        || (),
        || (),
        orient_of(&list),
        in_sphere_of(&list),
        closer_of(&list),
    )
}

fn tet_set(mesh: &Mesh) -> HashSet<TetId> {
    mesh.tet_ids().into_iter().collect()
}

fn vertex_set(mesh: &Mesh) -> HashSet<VertexId> {
    mesh.vertex_ids().into_iter().collect()
}

#[test]
fn test_in_sphere_ghost() {
    let (mut mesh, ids) = mesh_of(vec![
        Point3::new(0.0, 0.0, 0.0),
        Point3::new(1.0, 0.0, 0.0),
        Point3::new(0.0, 1.0, 0.0),
        Point3::new(0.0, 0.0, 1.0),
        Point3::new(0.5, 0.3, 0.6),
    ]);
    let tet = TetId::from_valid([ids[0], ids[1], ids[3], ids[2]]);
    mesh.add_tet(tet, (), || (), || ());
    let list = positions(&mesh);
    let orient = orient_of(&list);
    let in_sphere = in_sphere_of(&list);

    assert!(!in_sphere_with_ghosts(tet, ids[4], ids[0], &orient, &in_sphere));
    assert!(in_sphere_with_ghosts(tet, ids[4], ids[1], &orient, &in_sphere));
    assert!(in_sphere_with_ghosts(tet, ids[4], ids[2], &orient, &in_sphere));
    assert!(in_sphere_with_ghosts(tet, ids[4], ids[3], &orient, &in_sphere));
}

#[test]
fn test_in_sphere_no_ghost() {
    let (mut mesh, ids) = mesh_of(vec![
        Point3::new(0.0, 0.0, 0.0),
        Point3::new(1.0, 0.0, 0.0),
        Point3::new(0.0, 1.0, 0.0),
        Point3::new(0.0, 0.0, 1.0),
        Point3::new(0.5, 0.3, 0.6),
    ]);
    let tet = TetId::from_valid([ids[0], ids[1], ids[3], ids[2]]);
    mesh.add_tet(tet, (), || (), || ());
    let list = positions(&mesh);
    let orient = orient_of(&list);
    let in_sphere = in_sphere_of(&list);

    assert!(in_sphere_with_ghosts(tet, ids[4], VertexId(5), &orient, &in_sphere));
}

#[test]
fn test_tets_to_delete() {
    let (mut mesh, ids) = mesh_of(vec![
        Point3::new(0.0, 0.0, 0.0),
        Point3::new(1.0, 0.0, 0.0),
        Point3::new(0.0, 1.0, 0.0),
        Point3::new(0.0, 0.0, 1.0),
        Point3::new(1.0, 1.0, 1.0),
        Point3::new(f64::INFINITY, f64::INFINITY, f64::INFINITY),
        Point3::new(0.1, 0.1, 0.1),
        Point3::new(0.1, -0.1, 0.1),
        Point3::new(-1.0, -1.0, 0.1),
    ]);
    for tet in vec![
        [ids[0], ids[1], ids[3], ids[2]],
        [ids[4], ids[1], ids[2], ids[3]],
        [ids[5], ids[0], ids[1], ids[3]],
        [ids[5], ids[3], ids[2], ids[0]],
        [ids[5], ids[1], ids[0], ids[2]],
        [ids[5], ids[4], ids[1], ids[2]],
        [ids[5], ids[2], ids[3], ids[4]],
        [ids[5], ids[1], ids[4], ids[3]],
    ] {
        mesh.add_tet(TetId::from_valid(tet), (), || (), || ());
    }
    let list = positions(&mesh);
    let orient = orient_of(&list);
    let in_sphere = in_sphere_of(&list);
    let closer = closer_of(&list);

    // In convex hull
    let result = tets_to_delete(&mesh, ids[0], ids[6], ids[5], &orient, &in_sphere, &closer)
        .into_iter()
        .collect::<HashSet<_>>();
    assert_eq!(
        result,
        vec![
            TetId::from_valid([ids[0], ids[1], ids[3], ids[2]]),
            TetId::from_valid([ids[4], ids[1], ids[2], ids[3]]),
        ]
        .into_iter()
        .collect::<HashSet<_>>()
    );

    // Remove both solid tetrahedrons and ghost tetrahedrons
    let result = tets_to_delete(&mesh, ids[0], ids[7], ids[5], &orient, &in_sphere, &closer)
        .into_iter()
        .collect::<HashSet<_>>();
    assert_eq!(
        result,
        vec![
            TetId::from_valid([ids[0], ids[1], ids[3], ids[2]]),
            TetId::from_valid([ids[4], ids[1], ids[2], ids[3]]),
            TetId::from_valid([ids[5], ids[0], ids[1], ids[3]]),
        ]
        .into_iter()
        .collect::<HashSet<_>>()
    );

    // Remove only ghost tetrahedrons
    let result = tets_to_delete(&mesh, ids[0], ids[8], ids[5], &orient, &in_sphere, &closer)
        .into_iter()
        .collect::<HashSet<_>>();
    assert_eq!(
        result,
        vec![
            TetId::from_valid([ids[5], ids[0], ids[1], ids[3]]),
            TetId::from_valid([ids[5], ids[3], ids[2], ids[0]]),
        ]
        .into_iter()
        .collect::<HashSet<_>>()
    );
}

#[test]
fn test_delaunay_tets_empty() {
    let (mesh, _) = mesh_of(vec![
        Point3::new(0.0, 0.0, 0.0),
        Point3::new(1.0, 0.0, 0.0),
        Point3::new(0.0, 1.0, 0.0),
    ]);
    let before = vertex_set(&mesh);

    let result = tetrahedralize(mesh);
    assert_eq!(before, vertex_set(&result));
    assert_eq!(tet_set(&result), HashSet::new());
    assert_eq!(result.num_tets(), 0);
}

#[test]
fn test_delaunay_tets_single() {
    let (mesh, ids) = mesh_of(vec![
        Point3::new(0.0, 0.0, 0.0),
        Point3::new(1.0, 0.0, 0.0),
        Point3::new(0.0, 1.0, 0.0),
        Point3::new(0.0, 0.0, 1.0),
    ]);
    let before = vertex_set(&mesh);

    let result = tetrahedralize(mesh);
    assert_eq!(before, vertex_set(&result));
    assert_eq!(
        tet_set(&result),
        vec![TetId::from_valid([ids[0], ids[1], ids[3], ids[2]])]
            .into_iter()
            .collect::<HashSet<_>>()
    );
    assert_eq!(result.num_tets(), 1);
}

#[test]
fn test_delaunay_tets_multiple() {
    let (mesh, ids) = mesh_of(vec![
        Point3::new(0.0, 0.0, 0.0),
        Point3::new(1.0, 0.0, 0.0),
        Point3::new(0.0, 1.0, 0.0),
        Point3::new(0.0, 0.0, 1.0),
        Point3::new(1.5, 1.5, 1.0),
        Point3::new(0.5, 0.5, 0.5),
    ]);
    let before = vertex_set(&mesh);

    let result = tetrahedralize(mesh);
    assert_eq!(before, vertex_set(&result));
    assert_eq!(
        tet_set(&result),
        vec![
            TetId::from_valid([ids[0], ids[3], ids[2], ids[5]]),
            TetId::from_valid([ids[0], ids[1], ids[3], ids[5]]),
            TetId::from_valid([ids[1], ids[0], ids[2], ids[5]]),
            TetId::from_valid([ids[1], ids[4], ids[3], ids[5]]),
            TetId::from_valid([ids[3], ids[4], ids[2], ids[5]]),
            TetId::from_valid([ids[2], ids[4], ids[1], ids[5]]),
        ]
        .into_iter()
        .collect::<HashSet<_>>()
    );
    assert_eq!(result.num_tets(), 6);
}
