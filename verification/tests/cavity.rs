use std::collections::HashSet;

use cimplex::ids::{EdgeId, TetId, TriId, VertexId};
use cimplex::mesh::{ComboMesh2, ComboMesh3, Mesh, MwbComboMesh3};
use cimplex::tetrahedralize::{
    boundary_tris, closest_vertex, find_tet_to_delete, grow_cavity, insert_vertex, retriangulate,
};
use simplicity::nalgebra::{Point3, Vector3};

type Points = MwbComboMesh3<Point3<f64>, (), (), ()>;

fn positions(mesh: &Points) -> Vec<Vector3<f64>> {
    let n = mesh.next_vertex_id().0 as usize;
    let mut list = vec![Vector3::repeat(f64::INFINITY); n + 1];
    for id in mesh.vertex_ids() {
        list[id.0 as usize] = mesh.vertex(id).unwrap().coords;
    }
    list
}

// Two tetrahedra on a common face, closed off by six ghost tetrahedra, and
// three points that are not yet in any tetrahedron.
fn two_tets() -> (Points, Vec<VertexId>) {
    let mut mesh = Points::new();
    let ids = mesh.extend_vertices(vec![
        Point3::new(0.0, 0.0, 0.0),
        Point3::new(1.0, 0.0, 0.0),
        Point3::new(0.0, 1.0, 0.0),
        Point3::new(0.0, 0.0, 1.0),
        Point3::new(1.0, 1.0, 1.0),
        Point3::new(f64::INFINITY, f64::INFINITY, f64::INFINITY),
        Point3::new(0.1, 0.1, 0.1),
        Point3::new(0.1, -0.1, 0.1),
        Point3::new(-1.0, -1.0, 0.1),
    ]);
    mesh.extend_tets(
        vec![
            (TetId([ids[0], ids[1], ids[3], ids[2]]), ()),
            (TetId([ids[4], ids[1], ids[2], ids[3]]), ()),
            (TetId([ids[5], ids[0], ids[1], ids[3]]), ()),
            (TetId([ids[5], ids[3], ids[2], ids[0]]), ()),
            (TetId([ids[5], ids[1], ids[0], ids[2]]), ()),
            (TetId([ids[5], ids[4], ids[1], ids[2]]), ()),
            (TetId([ids[5], ids[2], ids[3], ids[4]]), ()),
            (TetId([ids[5], ids[1], ids[4], ids[3]]), ()),
        ],
        || (),
        || (),
    );
    (mesh, ids)
}

#[test]
fn closest_vertex_walks_to_a_local_minimum() {
    let (mesh, ids) = two_tets();
    let list = positions(&mesh);
    let closer = |a: VertexId, b: VertexId, p: VertexId| {
        (list[a.0 as usize] - list[p.0 as usize]).norm_squared()
            < (list[b.0 as usize] - list[p.0 as usize]).norm_squared()
    };
    // the point (0.1, 0.1, 0.1) is closest to the origin
    assert_eq!(closest_vertex(&mesh, ids[4], ids[6], &closer), (ids[0], true));
    assert_eq!(closest_vertex(&mesh, ids[0], ids[6], &closer), (ids[0], true));
    // from the ghost every vertex is closer
    assert_eq!(closest_vertex(&mesh, ids[5], ids[6], &closer), (ids[0], true));
    // a vertex without edges has nowhere to go
    assert_eq!(closest_vertex(&mesh, ids[7], ids[6], &closer), (ids[7], true));
    // with a relation that always prefers the target the walk is cut off
    let always = |_: VertexId, _: VertexId, _: VertexId| true;
    let (_, settled) = closest_vertex(&mesh, ids[0], ids[6], &always);
    assert!(!settled);
}

#[test]
fn find_tet_to_delete_finds_a_tet_or_none() {
    let (mesh, ids) = two_tets();
    let list = positions(&mesh);
    let orient = |a: VertexId, b: VertexId, c: VertexId, d: VertexId| {
        simplicity::orient_3d(&list, |l, i| l[i], a.0 as usize, b.0 as usize, c.0 as usize, d.0 as usize)
    };
    let in_sphere = |a: VertexId, b: VertexId, c: VertexId, d: VertexId, e: VertexId| {
        simplicity::in_sphere(
            &list,
            |l, i| l[i],
            a.0 as usize,
            b.0 as usize,
            c.0 as usize,
            d.0 as usize,
            e.0 as usize,
        )
    };
    let closer = |a: VertexId, b: VertexId, p: VertexId| {
        (list[a.0 as usize] - list[p.0 as usize]).norm_squared()
            < (list[b.0 as usize] - list[p.0 as usize]).norm_squared()
    };
    for start in [ids[0], ids[4], ids[5], ids[7]] {
        let found = find_tet_to_delete(&mesh, start, ids[6], ids[5], &orient, &in_sphere, &closer);
        let inside = vec![
            TetId::from_valid([ids[0], ids[1], ids[3], ids[2]]),
            TetId::from_valid([ids[4], ids[1], ids[2], ids[3]]),
        ];
        assert!(inside.contains(&found.unwrap()));
        let found = find_tet_to_delete(&mesh, start, ids[8], ids[5], &orient, &in_sphere, &closer);
        let inside = vec![
            TetId::from_valid([ids[5], ids[0], ids[1], ids[3]]),
            TetId::from_valid([ids[5], ids[3], ids[2], ids[0]]),
        ];
        assert!(inside.contains(&found.unwrap()));
    }
    // with predicates that hold of nothing, nothing is found
    let never4 = |_: VertexId, _: VertexId, _: VertexId, _: VertexId| false;
    let never5 = |_: VertexId, _: VertexId, _: VertexId, _: VertexId, _: VertexId| false;
    assert_eq!(
        find_tet_to_delete(&mesh, ids[0], ids[6], ids[5], &never4, &never5, &closer),
        None
    );
    // in a mesh without tetrahedra, too
    let empty = Points::new();
    assert_eq!(
        find_tet_to_delete(&empty, ids[0], ids[6], ids[5], &orient, &in_sphere, &closer),
        None
    );
}

#[test]
fn grow_cavity_takes_the_seed_and_what_the_predicate_accepts() {
    let (mesh, ids) = two_tets();
    let seed = TetId::from_valid([ids[0], ids[1], ids[3], ids[2]]);
    let other = TetId::from_valid([ids[4], ids[1], ids[2], ids[3]]);
    let never4 = |_: VertexId, _: VertexId, _: VertexId, _: VertexId| false;
    let never5 = |_: VertexId, _: VertexId, _: VertexId, _: VertexId, _: VertexId| false;
    let always4 = |_: VertexId, _: VertexId, _: VertexId, _: VertexId| true;
    let always5 = |_: VertexId, _: VertexId, _: VertexId, _: VertexId, _: VertexId| true;
    assert_eq!(grow_cavity(&mesh, seed, ids[6], ids[5], &never4, &never5), vec![seed]);
    // solid tetrahedra only
    let solid = grow_cavity(&mesh, seed, ids[6], ids[5], &never4, &always5);
    assert_eq!(solid[0], seed);
    assert_eq!(solid.iter().copied().collect::<HashSet<_>>(), HashSet::from([seed, other]));
    // everything
    let all = grow_cavity(&mesh, seed, ids[6], ids[5], &always4, &always5);
    assert_eq!(all.len(), 8);
    assert_eq!(all.iter().copied().collect::<HashSet<_>>().len(), 8);
}

#[test]
fn boundary_of_a_cavity() {
    let v = |i: u32| VertexId(i);
    assert_eq!(boundary_tris(&vec![]), vec![]);
    let one = TetId::from_valid([v(0), v(1), v(3), v(2)]);
    assert_eq!(
        boundary_tris(&vec![one]).into_iter().collect::<HashSet<_>>(),
        one.tris().iter().copied().collect::<HashSet<_>>()
    );
    // the same tetrahedron twice gives each face once
    assert_eq!(boundary_tris(&vec![one, one]).len(), 4);
    // two tetrahedra on a common face: the face and its twin are inside
    let two = TetId::from_valid([v(4), v(1), v(2), v(3)]);
    let boundary = boundary_tris(&vec![one, two]);
    assert_eq!(boundary.len(), 6);
    let set = boundary.into_iter().collect::<HashSet<_>>();
    assert_eq!(
        set,
        HashSet::from([
            TriId::from_valid([v(0), v(1), v(3)]),
            TriId::from_valid([v(1), v(0), v(2)]),
            TriId::from_valid([v(3), v(2), v(0)]),
            TriId::from_valid([v(4), v(1), v(2)]),
            TriId::from_valid([v(1), v(4), v(3)]),
            TriId::from_valid([v(2), v(3), v(4)]),
        ])
    );
    // each face of a tetrahedron has its twin on the twin of the tetrahedron
    assert_eq!(boundary_tris(&vec![one, one.twin()]), vec![]);
}

#[test]
fn retriangulate_replaces_the_cavity_by_a_fan() {
    let (mut mesh, ids) = two_tets();
    let one = TetId::from_valid([ids[0], ids[1], ids[3], ids[2]]);
    let two = TetId::from_valid([ids[4], ids[1], ids[2], ids[3]]);
    let cavity = vec![one, two];
    let boundary = boundary_tris(&cavity);
    retriangulate(&mut mesh, &cavity, &boundary, ids[6], &|| (), &|| (), &|| ());
    assert_eq!(mesh.tet(one), None);
    assert_eq!(mesh.tet(two), None);
    assert_eq!(mesh.num_tets(), 12);
    assert_eq!(mesh.vertex_tets(ids[6]).len(), 6);
    for tri in boundary {
        let tet = TetId::from_valid([tri.0[0], tri.0[1], tri.0[2], ids[6]]);
        assert_eq!(mesh.tet(tet), Some(&()));
        assert_eq!(mesh.tri_tets(tri), vec![tet]);
    }
    // the face between the two is gone with them
    assert_eq!(mesh.tri(TriId([ids[1], ids[2], ids[3]])), None);
    assert_eq!(mesh.tri(TriId([ids[1], ids[3], ids[2]])), None);
    assert_eq!(mesh.num_tris(), 48);
    assert_eq!(mesh.num_vertices(), 9);
}

#[test]
fn higher_simplices_go_and_the_base_stays() {
    let mut mesh = ComboMesh3::<usize, usize, usize, usize>::new();
    let ids = mesh.extend_vertices(vec![3, 6, 9, 2, 5]);
    mesh.add_tet(TetId([ids[0], ids[1], ids[2], ids[3]]), 1, || 7, || 8);
    mesh.add_tet(TetId([ids[0], ids[1], ids[2], ids[4]]), 2, || 7, || 8);
    mesh.add_tet(TetId([ids[0], ids[2], ids[1], ids[4]]), 3, || 7, || 8);

    mesh.remove_tri_higher(TriId([ids[1], ids[2], ids[0]]));
    assert_eq!(mesh.num_tets(), 1);
    assert_eq!(mesh.tet(TetId([ids[0], ids[2], ids[1], ids[4]])), Some(&3));
    assert_eq!(mesh.tri(TriId([ids[0], ids[1], ids[2]])), Some(&8));
    assert_eq!(mesh.num_tris(), 11);
    mesh.remove_tri_higher(TriId([ids[1], ids[2], ids[0]]));
    assert_eq!(mesh.num_tets(), 1);

    mesh.remove_edge_higher(EdgeId([ids[2], ids[1]]));
    assert_eq!(mesh.num_tets(), 0);
    assert_eq!(mesh.edge(EdgeId([ids[2], ids[1]])), Some(&7));
    assert!(mesh.edge_tris(EdgeId([ids[2], ids[1]])).is_empty());
    assert_eq!(mesh.num_tris(), 8);
    assert_eq!(mesh.num_edges(), 18);

    mesh.remove_vertex_higher(ids[0]);
    assert_eq!(mesh.vertex(ids[0]), Some(&3));
    assert!(mesh.vertex_targets(ids[0]).is_empty());
    assert!(mesh.vertex_sources(ids[0]).is_empty());
    assert_eq!(mesh.num_edges(), 10);
    assert_eq!(mesh.num_tris(), 1);
    assert_eq!(mesh.tri(TriId([ids[4], ids[1], ids[2]])), Some(&8));
    assert_eq!(mesh.num_vertices(), 5);

    assert_eq!(mesh.set_vertex(ids[0], 30), Some(3));
    assert_eq!(mesh.vertex(ids[0]), Some(&30));
    assert_eq!(mesh.set_vertex(VertexId(77), 30), None);
    assert_eq!(mesh.num_vertices(), 5);
}

#[test]
fn insert_vertex_replaces_the_cavity_or_nothing() {
    let (mut mesh, ids) = two_tets();
    let list = positions(&mesh);
    let orient = |a: VertexId, b: VertexId, c: VertexId, d: VertexId| {
        simplicity::orient_3d(&list, |l, i| l[i], a.0 as usize, b.0 as usize, c.0 as usize, d.0 as usize)
    };
    let in_sphere = |a: VertexId, b: VertexId, c: VertexId, d: VertexId, e: VertexId| {
        simplicity::in_sphere(
            &list,
            |l, i| l[i],
            a.0 as usize,
            b.0 as usize,
            c.0 as usize,
            d.0 as usize,
            e.0 as usize,
        )
    };
    let closer = |a: VertexId, b: VertexId, p: VertexId| {
        (list[a.0 as usize] - list[p.0 as usize]).norm_squared()
            < (list[b.0 as usize] - list[p.0 as usize]).norm_squared()
    };
    let never4 = |_: VertexId, _: VertexId, _: VertexId, _: VertexId| false;
    let never5 = |_: VertexId, _: VertexId, _: VertexId, _: VertexId, _: VertexId| false;
    let before = mesh.tet_ids().into_iter().collect::<HashSet<_>>();
    let (cavity, boundary) = insert_vertex(
        &mut mesh, ids[0], ids[8], ids[5], &|| (), &|| (), &|| (), &never4, &never5, &closer,
    );
    assert_eq!(cavity, vec![]);
    assert_eq!(boundary, vec![]);
    assert_eq!(mesh.tet_ids().into_iter().collect::<HashSet<_>>(), before);

    // the point (-1, -1, 0.1) lies beyond two faces of the hull
    let (cavity, boundary) = insert_vertex(
        &mut mesh, ids[0], ids[8], ids[5], &|| (), &|| (), &|| (), &orient, &in_sphere, &closer,
    );
    assert_eq!(
        cavity.iter().copied().collect::<HashSet<_>>(),
        HashSet::from([
            TetId::from_valid([ids[5], ids[0], ids[1], ids[3]]),
            TetId::from_valid([ids[5], ids[3], ids[2], ids[0]]),
        ])
    );
    assert_eq!(boundary.len(), 6);
    assert_eq!(mesh.num_tets(), 12);
    for tet in cavity {
        assert_eq!(mesh.tet(tet), None);
    }
    for tri in boundary {
        assert_eq!(mesh.tri_tets(tri), vec![TetId::from_valid([tri.0[0], tri.0[1], tri.0[2], ids[8]])]);
    }
    assert_eq!(mesh.vertex_tets(ids[8]).len(), 6);
    // two of the new tetrahedra are solid, four are ghosts
    assert_eq!(
        mesh.vertex_tets(ids[8]).iter().filter(|tet| tet.contains_vertex(ids[5])).count(),
        4
    );
}

#[test]
fn conversions_drop_what_lies_above() {
    let mut mesh = MwbComboMesh3::<usize, usize, usize, usize>::new();
    let ids = mesh.extend_vertices(vec![3, 6, 9, 2, 5]);
    mesh.add_tet(TetId([ids[0], ids[1], ids[2], ids[3]]), 1, || 7, || 8);
    mesh.add_tet(TetId([ids[0], ids[2], ids[1], ids[4]]), 2, || 7, || 8);

    let general: ComboMesh3<usize, usize, usize, usize> = mesh.clone().into_general();
    assert_eq!(general.num_tets(), 2);
    assert_eq!(general.num_tris(), 8);
    assert_eq!(general.num_edges(), 18);
    assert_eq!(general.tet(TetId([ids[0], ids[1], ids[2], ids[3]])), Some(&1));

    let flat: ComboMesh2<usize, usize, usize> = mesh.clone().without_tets();
    assert_eq!(flat.num_tets(), 0);
    assert_eq!(flat.num_tris(), 8);
    assert_eq!(flat.num_edges(), 18);
    assert_eq!(flat.tri(TriId([ids[0], ids[1], ids[2]])), Some(&8));
    assert_eq!(flat.tri_vertex_opp(TriId([ids[0], ids[1], ids[2]])), None);
    assert_eq!(flat.edge_tris(EdgeId([ids[0], ids[1]])).len(), 2);

    let edges: Mesh<usize, usize, char, bool, true> = mesh.clone().without_tris();
    assert_eq!(edges.num_tris(), 0);
    assert_eq!(edges.num_edges(), 18);
    assert_eq!(edges.edge(EdgeId([ids[3], ids[0]])), Some(&7));
    assert_eq!(edges.edge_vertex_opp(EdgeId([ids[3], ids[0]])), None);
    assert_eq!(edges.vertex_targets(ids[4]).len(), 3);

    let mut points: Mesh<usize, char, char, bool, true> = mesh.without_edges();
    assert_eq!(points.num_edges(), 0);
    assert_eq!(points.num_vertices(), 5);
    assert_eq!(points.vertex(ids[2]), Some(&9));
    assert!(points.vertex_targets(ids[2]).is_empty());
    assert_eq!(points.add_vertex(1), VertexId(5));
    assert_eq!(points.add_edge(EdgeId([ids[0], ids[1]]), 'a'), None);
    assert_eq!(points.add_tet(TetId([ids[0], ids[1], ids[2], ids[3]]), true, || 'e', || 'f'), None);
    assert_eq!(points.edge(EdgeId([ids[0], ids[1]])), Some(&'a'));
    assert_eq!(points.edge(EdgeId([ids[1], ids[0]])), Some(&'e'));
}
