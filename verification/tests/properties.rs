use std::collections::HashSet;

use cimplex::ids::{EdgeId, TetId, TriId, VertexId};
use cimplex::mesh::{ComboMesh3, Mesh, MwbComboMesh3};
use cimplex::tetrahedralize::delaunay_tets;
use simplicity::nalgebra::{Point3, Vector3};

/// A small PCG generator (XSH RR, 64 bits of state, 32 bits out).
struct Pcg {
    state: u64,
    inc: u64,
}

impl Pcg {
    fn new(seed: u64, stream: u64) -> Pcg {
        let mut rng = Pcg { state: 0, inc: (stream << 1) | 1 };
        rng.next();
        rng.state = rng.state.wrapping_add(seed);
        rng.next();
        rng
    }

    fn next(&mut self) -> u32 {
        let old = self.state;
        self.state = old.wrapping_mul(6364136223846793005).wrapping_add(self.inc);
        let xorshifted = (((old >> 18) ^ old) >> 27) as u32;
        let rot = (old >> 59) as u32;
        xorshifted.rotate_right(rot)
    }

    fn below(&mut self, n: u32) -> u32 {
        self.next() % n
    }

    fn unit(&mut self) -> f64 {
        (self.next() as f64) / 4294967296.0
    }

    fn normal(&mut self) -> f64 {
        let mut sum = 0.0;
        for _ in 0..12 {
            sum += self.unit();
        }
        sum - 6.0
    }
}

fn check_closure<const MWB: bool>(mesh: &Mesh<usize, usize, usize, usize, MWB>) {
    for tri in mesh.tri_ids() {
        for edge in tri.edges() {
            assert!(mesh.edge(edge).is_some());
        }
    }
    for tet in mesh.tet_ids() {
        for tri in tet.tris() {
            assert!(mesh.tri(tri).is_some());
        }
    }
    for edge in mesh.edge_ids() {
        assert!(mesh.vertex(edge.source()).is_some());
        assert!(mesh.vertex(edge.target()).is_some());
    }
}

fn check_rings<const MWB: bool>(mesh: &Mesh<usize, usize, usize, usize, MWB>) {
    let tris = mesh.tri_ids();
    let tets = mesh.tet_ids();
    let edges = mesh.edge_ids();
    for edge in edges.iter() {
        let ring = mesh.edge_tris(*edge);
        let set = ring.iter().copied().collect::<HashSet<_>>();
        assert_eq!(set.len(), ring.len());
        let expect = tris
            .iter()
            .copied()
            .filter(|tri| tri.contains_edge(*edge))
            .collect::<HashSet<_>>();
        assert_eq!(set, expect);
    }
    for tri in tris.iter() {
        let ring = mesh.tri_tets(*tri);
        let set = ring.iter().copied().collect::<HashSet<_>>();
        assert_eq!(set.len(), ring.len());
        let expect = tets
            .iter()
            .copied()
            .filter(|tet| tet.tris().contains(tri))
            .collect::<HashSet<_>>();
        assert_eq!(set, expect);
        if MWB {
            assert!(ring.len() <= 1);
        }
    }
    for vertex in mesh.vertex_ids() {
        let out = mesh.vertex_edges_out(vertex);
        let set = out.iter().copied().collect::<HashSet<_>>();
        assert_eq!(set.len(), out.len());
        let expect = edges
            .iter()
            .copied()
            .filter(|edge| edge.source() == vertex)
            .collect::<HashSet<_>>();
        assert_eq!(set, expect);
        let inc = mesh.vertex_edges_in(vertex);
        let set = inc.iter().copied().collect::<HashSet<_>>();
        assert_eq!(set.len(), inc.len());
        let expect = edges
            .iter()
            .copied()
            .filter(|edge| edge.target() == vertex)
            .collect::<HashSet<_>>();
        assert_eq!(set, expect);
        let around = mesh.vertex_tets(vertex);
        let set = around.iter().copied().collect::<HashSet<_>>();
        assert_eq!(set.len(), around.len());
        let expect = tets
            .iter()
            .copied()
            .filter(|tet| tet.contains_vertex(vertex))
            .collect::<HashSet<_>>();
        assert_eq!(set, expect);
        let around = mesh.vertex_tris(vertex);
        let set = around.iter().copied().collect::<HashSet<_>>();
        assert_eq!(set.len(), around.len());
        let expect = tris
            .iter()
            .copied()
            .filter(|tri| tri.contains_vertex(vertex))
            .collect::<HashSet<_>>();
        assert_eq!(set, expect);
    }
}

fn fuzz<const MWB: bool>(seed: u64, pruning: bool) {
    let mut rng = Pcg::new(seed, 54);
    let mut mesh = Mesh::<usize, usize, usize, usize, MWB>::new();
    let ids = mesh.extend_vertices((0..9).collect());
    let mut alive = ids.clone();
    for step in 0..400 {
        let pick = |rng: &mut Pcg, alive: &Vec<VertexId>| alive[rng.below(alive.len() as u32) as usize];
        let a = pick(&mut rng, &alive);
        let b = pick(&mut rng, &alive);
        let c = pick(&mut rng, &alive);
        let d = pick(&mut rng, &alive);
        match rng.below(10) {
            0 => {
                if let Some(edge) = EdgeId::try_new([a, b]) {
                    mesh.add_edge(edge, step);
                    assert_eq!(mesh.edge(edge), Some(&step));
                }
            }
            1 => {
                if let Some(tri) = TriId::try_new([a, b, c]) {
                    mesh.add_tri(tri, step, || 0);
                    assert_eq!(mesh.tri(tri), Some(&step));
                }
            }
            2 | 3 | 4 => {
                if let Some(tet) = TetId::try_new([a, b, c, d]) {
                    if pruning {
                        mesh.add_tet_pruning(tet, step, || 0, || 0);
                    } else {
                        mesh.add_tet(tet, step, || 0, || 0);
                    }
                    assert_eq!(mesh.tet(tet), Some(&step));
                }
            }
            5 => {
                if let Some(tet) = TetId::try_new([a, b, c, d]) {
                    let before = mesh.tet(tet).copied();
                    let got = if pruning { mesh.remove_tet_pruning(tet) } else { mesh.remove_tet(tet) };
                    assert_eq!(got, before);
                    assert_eq!(mesh.tet(tet), None);
                }
            }
            6 => {
                if let Some(tri) = TriId::try_new([a, b, c]) {
                    let before = mesh.tri(tri).copied();
                    let got = if pruning { mesh.remove_tri_pruning(tri) } else { mesh.remove_tri(tri) };
                    assert_eq!(got, before);
                    assert_eq!(mesh.tri(tri), None);
                    assert!(mesh.tet_ids().iter().all(|tet| !tet.tris().contains(&tri)));
                }
            }
            7 => {
                if let Some(edge) = EdgeId::try_new([a, b]) {
                    let before = mesh.edge(edge).copied();
                    let got = if pruning { mesh.remove_edge_pruning(edge) } else { mesh.remove_edge(edge) };
                    assert_eq!(got, before);
                    assert_eq!(mesh.edge(edge), None);
                    assert!(mesh.tri_ids().iter().all(|tri| !tri.contains_edge(edge)));
                }
            }
            8 => {
                if alive.len() > 5 {
                    let before = mesh.vertex(a).copied();
                    let got = if pruning { mesh.remove_vertex_pruning(a) } else { mesh.remove_vertex(a) };
                    assert_eq!(got, before);
                    alive.retain(|v| *v != a);
                    assert!(mesh.edge_ids().iter().all(|edge| !edge.contains_vertex(a)));
                    assert!(mesh.tri_ids().iter().all(|tri| !tri.contains_vertex(a)));
                    assert!(mesh.tet_ids().iter().all(|tet| !tet.contains_vertex(a)));
                }
            }
            _ => {
                let v = mesh.add_vertex(step);
                alive.push(v);
            }
        }
        check_closure(&mesh);
        check_rings(&mesh);
    }
}

#[test]
fn closure_and_rings_hold_after_random_operations() {
    fuzz::<false>(7, false);
    fuzz::<false>(8, true);
}

#[test]
fn closure_and_rings_hold_after_random_operations_exclusive() {
    fuzz::<true>(9, false);
    fuzz::<true>(10, true);
}

#[test]
fn pruning_keeps_an_exclusive_mesh_pure() {
    let mut rng = Pcg::new(11, 3);
    let mut mesh = MwbComboMesh3::<usize, usize, usize, usize>::new();
    let ids = mesh.extend_vertices((0..8).collect());
    for step in 0..300 {
        let a = ids[rng.below(8) as usize];
        let b = ids[rng.below(8) as usize];
        let c = ids[rng.below(8) as usize];
        let d = ids[rng.below(8) as usize];
        match rng.below(6) {
            0 | 1 | 2 => {
                if let Some(tet) = TetId::try_new([a, b, c, d]) {
                    mesh.add_tet_pruning(tet, step, || 0, || 0);
                }
            }
            3 => {
                if let Some(tet) = TetId::try_new([a, b, c, d]) {
                    mesh.remove_tet_pruning(tet);
                }
            }
            4 => {
                if let Some(tri) = TriId::try_new([a, b, c]) {
                    mesh.remove_tri_pruning(tri);
                }
            }
            _ => {
                if let Some(edge) = EdgeId::try_new([a, b]) {
                    mesh.remove_edge_pruning(edge);
                }
            }
        }
        for tri in mesh.tri_ids() {
            assert_eq!(mesh.tri_tets(tri).len(), 1);
        }
        for edge in mesh.edge_ids() {
            assert!(mesh.edge_tris(edge).len() >= 1);
        }
        check_closure(&mesh);
    }
}

#[test]
fn remove_vertex_leaves_nothing_that_has_it() {
    let mut mesh = ComboMesh3::<usize, usize, usize, usize>::new();
    let ids = mesh.extend_vertices(vec![3, 6, 9, 2, 5, 8]);
    mesh.add_tet(TetId([ids[0], ids[1], ids[2], ids[3]]), 1, || 0, || 0);
    mesh.add_tet(TetId([ids[1], ids[2], ids[3], ids[4]]), 2, || 0, || 0);
    mesh.add_tri(TriId([ids[3], ids[4], ids[5]]), 3, || 0);
    mesh.add_edge(EdgeId([ids[5], ids[3]]), 4);

    assert_eq!(mesh.remove_vertex(ids[3]), Some(2));
    assert_eq!(mesh.vertex(ids[3]), None);
    assert!(mesh.edge_ids().iter().all(|edge| !edge.contains_vertex(ids[3])));
    assert!(mesh.tri_ids().iter().all(|tri| !tri.contains_vertex(ids[3])));
    assert!(mesh.tet_ids().iter().all(|tet| !tet.contains_vertex(ids[3])));
    assert_eq!(mesh.num_tets(), 0);
    // what does not have the vertex stays
    assert_eq!(mesh.tri(TriId([ids[0], ids[1], ids[2]])), Some(&0));
    assert_eq!(mesh.tri(TriId([ids[2], ids[1], ids[4]])), Some(&0));
    assert_eq!(mesh.edge(EdgeId([ids[4], ids[5]])), Some(&0));
    assert_eq!(mesh.num_vertices(), 5);
    assert_eq!(mesh.remove_vertex(ids[3]), None);
}

#[test]
fn add_tet_twice_replaces_the_payload() {
    let mut mesh = ComboMesh3::<usize, usize, usize, usize>::new();
    let ids = mesh.extend_vertices(vec![3, 6, 9, 2]);
    let key = TetId([ids[2], ids[0], ids[3], ids[1]]);
    assert_eq!(mesh.add_tet(key, 10, || 0, || 0), None);
    assert_eq!(mesh.add_tet(key, 20, || 0, || 0), Some(10));
    assert_eq!(mesh.num_tets(), 1);
    assert_eq!(mesh.tet(key), Some(&20));
    assert_eq!(mesh.tet_ids(), vec![TetId::from_valid(key.0)]);

    let mut mesh = MwbComboMesh3::<usize, usize, usize, usize>::new();
    let ids = mesh.extend_vertices(vec![3, 6, 9, 2]);
    let key = TetId([ids[2], ids[0], ids[3], ids[1]]);
    assert_eq!(mesh.add_tet(key, 10, || 0, || 0), None);
    assert_eq!(mesh.add_tet(key, 20, || 0, || 0), Some(10));
    assert_eq!(mesh.num_tets(), 1);
    assert_eq!(mesh.tet(key), Some(&20));
}

#[test]
fn exclusive_mesh_has_no_face_on_two_tets() {
    let mut mesh = MwbComboMesh3::<usize, usize, usize, usize>::new();
    let ids = mesh.extend_vertices(vec![3, 6, 9, 2, 5, 8, 1, 4, 7]);
    let tets = vec![
        (TetId([ids[0], ids[1], ids[2], ids[3]]), 1),
        (TetId([ids[1], ids[2], ids[3], ids[0]]), 2),
        (TetId([ids[0], ids[2], ids[3], ids[4]]), 3),
        (TetId([ids[2], ids[3], ids[4], ids[5]]), 4),
        (TetId([ids[0], ids[3], ids[2], ids[6]]), 5),
        (TetId([ids[3], ids[2], ids[0], ids[7]]), 6),
    ];
    mesh.extend_tets(tets, || 0, || 0);
    let left = mesh.tet_ids();
    for x in left.iter() {
        for y in left.iter() {
            if x != y {
                for f in x.tris() {
                    assert!(!y.tris().contains(&f));
                }
            }
        }
    }
    // the third replaced the first, the fifth the second, the sixth the fifth
    assert_eq!(mesh.tet(TetId([ids[0], ids[1], ids[2], ids[3]])), None);
    assert_eq!(mesh.tet(TetId([ids[1], ids[2], ids[3], ids[0]])), None);
    assert_eq!(mesh.tet(TetId([ids[0], ids[3], ids[2], ids[6]])), None);
    assert_eq!(mesh.tet(TetId([ids[0], ids[2], ids[3], ids[4]])), Some(&3));
    assert_eq!(mesh.tet(TetId([ids[2], ids[3], ids[4], ids[5]])), Some(&4));
    assert_eq!(mesh.tet(TetId([ids[3], ids[2], ids[0], ids[7]])), Some(&6));
    assert_eq!(mesh.num_tets(), 3);
    // without pruning the faces of the replaced tetrahedra stay
    assert_eq!(mesh.tri(TriId([ids[0], ids[1], ids[2]])), Some(&0));
}

#[test]
fn removal_without_pruning_keeps_faces_and_edges() {
    let mut mesh = ComboMesh3::<usize, usize, usize, usize>::new();
    let ids = mesh.extend_vertices(vec![3, 6, 9, 2, 5]);
    mesh.add_tet(TetId([ids[0], ids[1], ids[2], ids[3]]), 1, || 7, || 8);
    mesh.add_tet(TetId([ids[0], ids[2], ids[1], ids[4]]), 2, || 7, || 8);
    assert_eq!(mesh.num_tris(), 8);
    assert_eq!(mesh.num_edges(), 18);

    assert_eq!(mesh.remove_tet(TetId([ids[1], ids[2], ids[0], ids[3]])), Some(1));
    assert_eq!(mesh.num_tets(), 1);
    assert_eq!(mesh.num_tris(), 8);
    assert_eq!(mesh.num_edges(), 18);
    assert_eq!(mesh.tri(TriId([ids[0], ids[1], ids[2]])), Some(&8));

    assert_eq!(mesh.remove_tri(TriId([ids[0], ids[2], ids[1]])), Some(8));
    assert_eq!(mesh.num_tets(), 0);
    assert_eq!(mesh.num_tris(), 7);
    assert_eq!(mesh.num_edges(), 18);

    assert_eq!(mesh.remove_edge(EdgeId([ids[0], ids[1]])), Some(7));
    assert_eq!(mesh.num_tris(), 5);
    assert_eq!(mesh.num_edges(), 17);
    assert_eq!(mesh.edge(EdgeId([ids[1], ids[0]])), Some(&7));
}

#[test]
fn pruning_takes_what_is_left_alone() {
    let mut mesh = ComboMesh3::<usize, usize, usize, usize>::new();
    let ids = mesh.extend_vertices(vec![3, 6, 9, 2, 5]);
    mesh.add_tet(TetId([ids[0], ids[1], ids[2], ids[3]]), 1, || 7, || 8);
    mesh.add_tet(TetId([ids[0], ids[2], ids[1], ids[4]]), 2, || 7, || 8);
    assert_eq!(mesh.prune_tri(TriId([ids[0], ids[1], ids[2]])), None);
    assert_eq!(mesh.prune_edge(EdgeId([ids[0], ids[1]])), None);

    assert_eq!(mesh.remove_tet_pruning(TetId([ids[0], ids[1], ids[2], ids[3]])), Some(1));
    assert_eq!(mesh.num_tets(), 1);
    assert_eq!(mesh.num_tris(), 4);
    assert_eq!(mesh.num_edges(), 12);
    assert_eq!(mesh.num_vertices(), 5);
    assert_eq!(mesh.remove_tet_pruning(TetId([ids[0], ids[1], ids[2], ids[3]])), None);

    mesh.add_edge(EdgeId([ids[3], ids[4]]), 9);
    assert_eq!(mesh.prune_edge(EdgeId([ids[3], ids[4]])), Some(9));
    assert_eq!(mesh.prune_edge(EdgeId([ids[3], ids[4]])), None);
    mesh.add_tri(TriId([ids[3], ids[4], ids[0]]), 9, || 7);
    assert_eq!(mesh.num_edges(), 14);
    assert_eq!(mesh.prune_tri(TriId([ids[4], ids[0], ids[3]])), Some(9));
    assert_eq!(mesh.num_edges(), 12);
    assert_eq!(mesh.edge(EdgeId([ids[4], ids[0]])), Some(&7));
}

#[test]
fn rings_come_in_the_order_of_splicing() {
    let mut mesh = ComboMesh3::<usize, usize, usize, usize>::new();
    let ids = mesh.extend_vertices(vec![0, 0, 0, 0, 0]);
    mesh.add_edge(EdgeId([ids[0], ids[1]]), 0);
    mesh.add_edge(EdgeId([ids[0], ids[2]]), 0);
    mesh.add_edge(EdgeId([ids[0], ids[3]]), 0);
    mesh.add_edge(EdgeId([ids[0], ids[4]]), 0);
    // each new edge stands right behind the first
    assert_eq!(mesh.vertex_targets(ids[0]), vec![ids[1], ids[4], ids[3], ids[2]]);
    assert_eq!(mesh.vertex_sources(ids[1]), vec![ids[0]]);
    mesh.remove_edge(EdgeId([ids[0], ids[1]]));
    assert_eq!(mesh.vertex_targets(ids[0]), vec![ids[4], ids[3], ids[2]]);
    mesh.remove_edge(EdgeId([ids[0], ids[3]]));
    assert_eq!(mesh.vertex_targets(ids[0]), vec![ids[4], ids[2]]);

    mesh.add_tri(TriId([ids[0], ids[2], ids[1]]), 0, || 0);
    mesh.add_tri(TriId([ids[0], ids[2], ids[3]]), 0, || 0);
    mesh.add_tri(TriId([ids[0], ids[2], ids[4]]), 0, || 0);
    // each new triangle leads the ring, the former first goes to the end
    assert_eq!(
        mesh.edge_vertex_opps(EdgeId([ids[0], ids[2]])),
        vec![ids[4], ids[1], ids[3]]
    );
    assert_eq!(mesh.edge_vertex_opp(EdgeId([ids[0], ids[2]])), Some(ids[4]));
    assert_eq!(mesh.edge_vertex_opp(EdgeId([ids[2], ids[0]])), None);
    assert_eq!(mesh.tri_vertex_opp(TriId([ids[0], ids[2], ids[4]])), None);
}

#[test]
fn canonical_forms() {
    let v = |i: u32| VertexId(i);
    assert_eq!(TriId::try_new([v(5), v(2), v(7)]), Some(TriId([v(2), v(7), v(5)])));
    assert_eq!(TriId::try_new([v(5), v(2), v(5)]), None);
    assert_eq!(TriId([v(2), v(7), v(5)]).twin(), TriId([v(2), v(5), v(7)]));
    assert_eq!(TetId::try_new([v(5), v(2), v(7), v(1)]), Some(TetId([v(1), v(2), v(5), v(7)])));
    assert_eq!(TetId::try_new([v(2), v(5), v(7), v(1)]), Some(TetId([v(1), v(2), v(7), v(5)])));
    assert_eq!(TetId::try_new([v(2), v(5), v(7), v(2)]), None);
    assert_eq!(TetId([v(1), v(2), v(5), v(7)]).twin(), TetId([v(1), v(2), v(7), v(5)]));
    assert_eq!(EdgeId::try_new([v(3), v(3)]), None);
    assert_eq!(EdgeId([v(3), v(4)]).twin(), EdgeId([v(4), v(3)]));
    let tet = TetId([v(1), v(2), v(5), v(7)]);
    assert_eq!(
        tet.tris(),
        [
            TriId([v(1), v(2), v(5)]),
            TriId([v(1), v(7), v(2)]),
            TriId([v(1), v(5), v(7)]),
            TriId([v(2), v(7), v(5)]),
        ]
    );
    assert_eq!(tet.opp_tri(v(1)), TriId([v(2), v(7), v(5)]));
    assert_eq!(tet.opp_tri(v(7)), TriId([v(1), v(2), v(5)]));
    assert_eq!(
        TriId([v(1), v(2), v(5)]).edges(),
        [EdgeId([v(1), v(2)]), EdgeId([v(2), v(5)]), EdgeId([v(5), v(1)])]
    );
}

type Points = MwbComboMesh3<Point3<f64>, (), (), ()>;

fn positions(mesh: &Points) -> Vec<Vector3<f64>> {
    let n = mesh.next_vertex_id().0 as usize;
    let mut list = vec![Vector3::repeat(f64::INFINITY); n + 1];
    for id in mesh.vertex_ids() {
        list[id.0 as usize] = mesh.vertex(id).unwrap().coords;
    }
    list
}

fn orient(list: &Vec<Vector3<f64>>, a: VertexId, b: VertexId, c: VertexId, d: VertexId) -> bool {
    simplicity::orient_3d(list, |l, i| l[i], a.0 as usize, b.0 as usize, c.0 as usize, d.0 as usize)
}

fn in_sphere(list: &Vec<Vector3<f64>>, t: TetId, e: VertexId) -> bool {
    simplicity::in_sphere(
        list,
        |l, i| l[i],
        t.0[0].0 as usize,
        t.0[1].0 as usize,
        t.0[2].0 as usize,
        t.0[3].0 as usize,
        e.0 as usize,
    )
}

fn tetrahedralize(points: &Vec<Point3<f64>>) -> (Points, Vec<Vector3<f64>>) {
    let mut mesh = Points::new();
    mesh.extend_vertices(points.clone());
    let list = positions(&mesh);
    let ghost = Point3::from(Vector3::repeat(f64::INFINITY));
    let result = delaunay_tets(
        mesh,
        ghost,
        || (),
        || (),
        || (),
        |a, b, c, d| orient(&list, a, b, c, d),
        |a, b, c, d, e| {
            simplicity::in_sphere(
                &list,
                |l, i| l[i],
                a.0 as usize,
                b.0 as usize,
                c.0 as usize,
                d.0 as usize,
                e.0 as usize,
            )
        },
        |a, b, p| {
            (list[a.0 as usize] - list[p.0 as usize]).norm_squared()
                < (list[b.0 as usize] - list[p.0 as usize]).norm_squared()
        },
    );
    (result, list)
}

fn cube_points(rng: &mut Pcg, n: usize) -> Vec<Point3<f64>> {
    (0..n)
        .map(|_| {
            Point3::new(
                rng.unit() * 20.0 - 10.0,
                rng.unit() * 20.0 - 10.0,
                rng.unit() * 20.0 - 10.0,
            )
        })
        .collect()
}

fn sphere_points(rng: &mut Pcg, n: usize) -> Vec<Point3<f64>> {
    (0..n)
        .map(|_| {
            let v = Vector3::new(rng.normal(), rng.normal(), rng.normal());
            Point3::from(v.normalize())
        })
        .collect()
}

// Every tetrahedron is positively oriented, and neither the vertex across
// any of its faces nor, where asked, any other vertex lies in its sphere.
fn check_delaunay(mesh: &Points, list: &Vec<Vector3<f64>>, all_pairs: bool) {
    let vertices = mesh.vertex_ids();
    for tet in mesh.tet_ids() {
        assert!(orient(list, tet.0[0], tet.0[1], tet.0[2], tet.0[3]));
        for next in mesh.adjacent_tets(tet) {
            for v in next.0.iter() {
                if !tet.contains_vertex(*v) {
                    assert!(!in_sphere(list, tet, *v));
                }
            }
        }
        if all_pairs {
            for v in vertices.iter() {
                if !tet.contains_vertex(*v) {
                    assert!(!in_sphere(list, tet, *v));
                }
            }
        }
    }
}

// The faces without a tetrahedron across them are the boundary of the convex
// hull: every vertex lies on the inner side of each, and each of their edges
// is shared by two of them.
fn check_hull(mesh: &Points, list: &Vec<Vector3<f64>>, all_pairs: bool) {
    let vertices = mesh.vertex_ids();
    let mut open = HashSet::new();
    for tet in mesh.tet_ids() {
        for tri in tet.tris() {
            if mesh.tri_tets(tri.twin()).is_empty() {
                open.insert(tri);
                if all_pairs {
                    for v in vertices.iter() {
                        if !tri.contains_vertex(*v) {
                            assert!(orient(list, tri.0[0], tri.0[1], tri.0[2], *v));
                        }
                    }
                }
            }
        }
    }
    assert!(open.len() >= 4);
    let mut borders = HashSet::new();
    for tri in open.iter() {
        for edge in tri.edges() {
            assert!(borders.insert(edge));
        }
    }
    for edge in borders.iter() {
        assert!(borders.contains(&edge.twin()));
    }
}

#[test]
fn delaunay_of_fewer_than_four_points_is_the_input() {
    for n in 0..4 {
        let points = (0..n).map(|i| Point3::new(i as f64, 0.5, 0.25)).collect::<Vec<_>>();
        let (mesh, _) = tetrahedralize(&points);
        assert_eq!(mesh.num_vertices(), n);
        assert_eq!(mesh.num_tets(), 0);
        assert_eq!(mesh.num_tris(), 0);
        assert_eq!(mesh.num_edges(), 0);
        assert_eq!(mesh.next_vertex_id(), VertexId(n as u32));
        for (i, id) in mesh.vertex_ids().into_iter().enumerate() {
            assert_eq!(mesh.vertex(id), Some(&points[i]));
        }
    }
}

#[test]
fn delaunay_of_six_points_is_a_fan_around_the_inner_point() {
    let points = vec![
        Point3::new(0.0, 0.0, 0.0),
        Point3::new(1.0, 0.0, 0.0),
        Point3::new(0.0, 1.0, 0.0),
        Point3::new(0.0, 0.0, 1.0),
        Point3::new(1.5, 1.5, 1.0),
        Point3::new(0.5, 0.5, 0.5),
    ];
    let (mesh, list) = tetrahedralize(&points);
    let tets = mesh.tet_ids();
    assert_eq!(tets.len(), 6);
    for tet in tets.iter() {
        assert!(tet.contains_vertex(VertexId(5)));
        let next = mesh.adjacent_tets(*tet).into_iter().collect::<HashSet<_>>();
        assert_eq!(next.len(), 3);
    }
    check_delaunay(&mesh, &list, true);
    check_hull(&mesh, &list, true);
}

#[test]
fn delaunay_of_random_points_is_delaunay() {
    let mut rng = Pcg::new(0xcafef00dd15ea5e5, 0xa02bdbf7bb3c0a7);
    for n in [5, 8, 13, 40, 150] {
        let points = cube_points(&mut rng, n);
        let (mesh, list) = tetrahedralize(&points);
        assert_eq!(mesh.num_vertices(), n);
        assert!(mesh.num_tets() > 0);
        check_delaunay(&mesh, &list, true);
        check_hull(&mesh, &list, true);
    }
}

#[test]
fn delaunay_does_not_depend_on_the_order_of_the_points() {
    let mut rng = Pcg::new(42, 7);
    let points = cube_points(&mut rng, 60);
    let (mesh, _) = tetrahedralize(&points);
    let as_points = |mesh: &Points, order: &Vec<Point3<f64>>| {
        mesh.tet_ids()
            .into_iter()
            .map(|tet| {
                let mut corners = tet
                    .0
                    .iter()
                    .map(|v| {
                        let p = order[v.0 as usize];
                        (p.x.to_bits(), p.y.to_bits(), p.z.to_bits())
                    })
                    .collect::<Vec<_>>();
                corners.sort();
                corners
            })
            .collect::<HashSet<_>>()
    };
    let expect = as_points(&mesh, &points);
    let mut shuffled = points.clone();
    for i in (1..shuffled.len()).rev() {
        let j = rng.below(i as u32 + 1) as usize;
        shuffled.swap(i, j);
    }
    let (other, _) = tetrahedralize(&shuffled);
    assert_eq!(as_points(&other, &shuffled), expect);
    shuffled.reverse();
    let (other, _) = tetrahedralize(&shuffled);
    assert_eq!(as_points(&other, &shuffled), expect);
}

#[test]
fn delaunay_of_ten_thousand_random_points() {
    let mut rng = Pcg::new(0xcafef00dd15ea5e5, 0xa02bdbf7bb3c0a7);
    let points = cube_points(&mut rng, 10000);
    let (mesh, list) = tetrahedralize(&points);
    assert_eq!(mesh.num_vertices(), 10000);
    assert!(mesh.num_tets() > 10000);
    check_delaunay(&mesh, &list, false);
    check_hull(&mesh, &list, false);
    for tet in mesh.tet_ids() {
        for tri in tet.tris() {
            assert!(mesh.tri(tri).is_some());
            assert_eq!(mesh.tri_tets(tri), vec![tet]);
        }
    }
}

#[test]
fn delaunay_of_points_on_a_sphere() {
    let mut rng = Pcg::new(0xcafef00dd15ea5e5, 0xa02bdbf7bb3c0a7);
    let points = sphere_points(&mut rng, 2000);
    let (mesh, list) = tetrahedralize(&points);
    assert_eq!(mesh.num_vertices(), 2000);
    assert!(mesh.num_tets() > 0);
    check_delaunay(&mesh, &list, false);
    check_hull(&mesh, &list, false);
    let vertices = mesh.vertex_ids();
    for (i, tet) in mesh.tet_ids().into_iter().enumerate() {
        if i % 197 == 0 {
            for v in vertices.iter() {
                if !tet.contains_vertex(*v) {
                    assert!(!in_sphere(&list, tet, *v));
                }
            }
        }
    }
}
