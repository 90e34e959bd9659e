use axiolid_core::{Point3, Tolerance};
use axiolid_mesh::{audit_mesh, TriMesh};
use kernel_bench::sphere::icosphere_topology;

/// Place the vertices the way the benchmark does: icosahedron corners,
/// midpoints in edge order, then a projection onto the sphere.
fn icosphere(center: [f64; 3], radius: f64, subdivisions: u32) -> TriMesh {
    let t = (1.0 + 5.0f64.sqrt()) / 2.0;
    let mut verts: Vec<[f64; 3]> = vec![
        [-1.0, t, 0.0],
        [1.0, t, 0.0],
        [-1.0, -t, 0.0],
        [1.0, -t, 0.0],
        [0.0, -1.0, t],
        [0.0, 1.0, t],
        [0.0, -1.0, -t],
        [0.0, 1.0, -t],
        [t, 0.0, -1.0],
        [t, 0.0, 1.0],
        [-t, 0.0, -1.0],
        [-t, 0.0, 1.0],
    ];
    let ico = icosphere_topology(subdivisions);
    for &(a, b) in &ico.parents {
        let (pa, pb) = (verts[a as usize], verts[b as usize]);
        verts.push([(pa[0] + pb[0]) * 0.5, (pa[1] + pb[1]) * 0.5, (pa[2] + pb[2]) * 0.5]);
    }
    let positions: Vec<Point3> = verts
        .iter()
        .map(|v| {
            let len = (v[0] * v[0] + v[1] * v[1] + v[2] * v[2]).sqrt();
            let k = radius / len;
            Point3::new(center[0] + v[0] * k, center[1] + v[1] * k, center[2] + v[2] * k)
        })
        .collect();
    let indices: Vec<u32> = ico.faces.iter().flat_map(|f| [f[0], f[1], f[2]]).collect();
    TriMesh::new(positions, indices)
}

#[test]
fn icospheres_are_closed_two_manifolds_at_every_density() {
    for sub in 0..=4 {
        let s = icosphere([0.0, 0.0, 0.0], 1.0, sub);
        let expected_tris = 20 * 4usize.pow(sub);
        assert_eq!(s.indices.len() / 3, expected_tris, "subdivision {sub} should give 20*4^n triangles");
        let health = audit_mesh(&s, Tolerance::METRE);
        assert!(health.is_closed_two_manifold(), "subdivision {sub} is not a closed two-manifold: {health:?}");
    }
}

#[test]
fn an_icosphere_has_one_midpoint_per_edge() {
    for sub in 0..=4u32 {
        let ico = icosphere_topology(sub);
        let faces = ico.faces.len();
        // Euler: V - E + F = 2 with E = 3F/2.
        assert_eq!(12 + ico.parents.len(), 2 + faces / 2, "subdivision {sub}");
        for (i, &(a, b)) in ico.parents.iter().enumerate() {
            assert!(a < b && (b as usize) < 12 + i);
        }
    }
}

#[test]
fn the_first_split_follows_the_first_face() {
    let ico = icosphere_topology(1);
    // Face [0, 11, 5] meets edges 0-11, 11-5, 5-0 first.
    assert_eq!(&ico.parents[..3], &[(0, 11), (5, 11), (0, 5)]);
    assert_eq!(&ico.faces[..4], &[[0, 12, 14], [11, 13, 12], [5, 14, 13], [12, 13, 14]]);
    // Face [0, 5, 1] reuses edge 0-5 and adds 5-1 and 1-0.
    assert_eq!(&ico.faces[4..8], &[[0, 14, 16], [5, 15, 14], [1, 16, 15], [14, 15, 16]]);
}

#[test]
fn tessellated_volume_approaches_the_ideal_sphere_from_below() {
    let ideal = 4.0 / 3.0 * std::f64::consts::PI;
    let mut previous = 0.0;
    for sub in 0..=4 {
        let m = icosphere([0.0, 0.0, 0.0], 1.0, sub);
        let mut v = 0.0;
        for t in m.indices.chunks_exact(3) {
            let (a, b, c) = (m.positions[t[0] as usize], m.positions[t[1] as usize], m.positions[t[2] as usize]);
            v += a.x * (b.y * c.z - b.z * c.y) - a.y * (b.x * c.z - b.z * c.x) + a.z * (b.x * c.y - b.y * c.x);
        }
        v /= 6.0;
        assert!(v < ideal, "subdivision {sub}: {v} must be below {ideal}");
        assert!(v > previous, "subdivision {sub}: volume must increase");
        previous = v;
    }
    assert!(ideal - previous > 1e-4, "gap should remain measurable");
}
