use ancestral_vision_tree::mesh::{
    connect_rings, connect_rings_adaptive, create_ring, Mesh, Part, Vertex,
};

fn vertex(slot: usize) -> Vertex {
    Vertex::new(0, Part::Shaft, 0, slot, 3)
}

#[test]
fn test_mesh_add_vertices() {
    let mut mesh = Mesh::new();
    let verts = vec![vertex(0), vertex(1), vertex(2)];
    let start = mesh.add_vertices(verts);
    assert_eq!(start, 0);
    assert_eq!(mesh.vertex_count(), 3);
}

#[test]
fn test_mesh_add_triangle() {
    let mut mesh = Mesh::new();
    mesh.add_vertices(vec![vertex(0), vertex(1), vertex(2)]);
    mesh.add_triangle(0, 1, 2);
    assert_eq!(mesh.triangle_count(), 1);
    assert_eq!(mesh.indices.len(), 3);
}

#[test]
fn test_mesh_merge() {
    let mut mesh1 = Mesh::new();
    mesh1.add_vertices(vec![Vertex::new(0, Part::Shaft, 0, 0, 1)]);
    mesh1.add_triangle(0, 0, 0);

    let mut mesh2 = Mesh::new();
    mesh2.add_vertices(vec![Vertex::new(1, Part::Shaft, 0, 0, 1)]);
    mesh2.add_triangle(0, 0, 0);

    mesh1.merge(&mesh2);
    assert_eq!(mesh1.vertex_count(), 2);
    assert_eq!(mesh1.indices[3], 1); // Index offset applied
}

#[test]
fn test_create_ring() {
    let ring = create_ring(0, Part::Shaft, 0, 8);
    assert_eq!(ring.len(), 8);

    // All vertices lie on the same ring, one in each slot
    for (slot, v) in ring.iter().enumerate() {
        assert_eq!(*v, Vertex { branch: 0, part: Part::Shaft, level: 0, slot, segments: 8 });
    }
}

#[test]
fn test_connect_rings() {
    let mut mesh = Mesh::new();
    let ring1 = create_ring(0, Part::Shaft, 0, 4);
    let ring2 = create_ring(0, Part::Shaft, 1, 4);

    let start1 = mesh.add_vertices(ring1);
    let start2 = mesh.add_vertices(ring2);
    connect_rings(&mut mesh, start1, start2, 4);

    assert_eq!(mesh.vertex_count(), 8);
    assert_eq!(mesh.triangle_count(), 8); // 4 quads = 8 triangles
}

#[test]
fn add_vertices_returns_the_first_new_index() {
    let mut mesh = Mesh::new();
    assert_eq!(mesh.add_vertices(vec![vertex(0), vertex(1)]), 0);
    assert_eq!(mesh.add_vertices(vec![]), 2);
    assert_eq!(mesh.add_vertices(vec![vertex(2)]), 2);
    assert_eq!(mesh.add_vertices(vec![vertex(0)]), 3);
    assert_eq!(mesh.vertices[2], vertex(2));
    assert!(mesh.indices.is_empty());
}

#[test]
fn quad_is_two_triangles_sharing_a_diagonal() {
    let mut mesh = Mesh::new();
    mesh.add_quad(10, 11, 12, 13);
    assert_eq!(mesh.indices, vec![10, 11, 12, 10, 12, 13]);
    assert_eq!(mesh.index_data(), &[10, 11, 12, 10, 12, 13]);
    assert_eq!(mesh.triangle_count(), 2);
    mesh.add_triangle(1, 2, 3);
    assert_eq!(mesh.indices, vec![10, 11, 12, 10, 12, 13, 1, 2, 3]);
}

#[test]
fn merge_appends_vertices_and_shifts_indices() {
    let mut a = Mesh::new();
    a.add_vertices(create_ring(0, Part::Shaft, 0, 3));
    a.add_triangle(0, 1, 2);
    let mut b = Mesh::new();
    b.add_vertices(create_ring(1, Part::Shaft, 0, 4));
    b.add_quad(0, 1, 2, 3);

    a.merge(&b);
    assert_eq!(a.vertex_count(), 7);
    assert_eq!(a.indices, vec![0, 1, 2, 3, 4, 5, 3, 5, 6]);
    assert_eq!(a.vertices[3], Vertex::new(1, Part::Shaft, 0, 0, 4));
    assert_eq!(b.vertex_count(), 4);
    assert_eq!(b.indices, vec![0, 1, 2, 0, 2, 3]);
}

#[test]
fn connect_rings_winds_each_quad_outward() {
    let mut mesh = Mesh::new();
    connect_rings(&mut mesh, 0, 3, 3);
    assert_eq!(
        mesh.indices,
        vec![0, 3, 4, 0, 4, 1, 1, 4, 5, 1, 5, 2, 2, 5, 3, 2, 3, 0]
    );
    let mut none = Mesh::new();
    connect_rings(&mut none, 0, 0, 0);
    assert!(none.indices.is_empty());
}

#[test]
fn adaptive_stitch_of_eight_and_five() {
    let mut mesh = Mesh::new();
    let start1 = mesh.add_vertices(create_ring(0, Part::Tip, 0, 8));
    let start2 = mesh.add_vertices(create_ring(0, Part::Tip, 1, 5));
    connect_rings_adaptive(&mut mesh, start1, start2, 8, 5);

    assert_eq!(
        mesh.indices,
        vec![
            0, 8, 9, 0, 9, 1, 1, 8, 9, 1, 9, 2, 2, 9, 10, 2, 10, 3, 3, 9, 10, 3, 10, 4, 4, 10,
            11, 4, 11, 5, 5, 11, 12, 5, 12, 6, 6, 11, 12, 6, 12, 7, 7, 12, 8, 7, 8, 0
        ]
    );
    // one primitive for each of the max(8, 5) = 8 slots of the larger ring
    assert_eq!(mesh.indices.len(), 8 * 6);
    for t in mesh.indices.chunks(3) {
        assert!(t.iter().all(|&i| (i as usize) < mesh.vertex_count()));
        assert!(t[0] != t[1] && t[1] != t[2] && t[0] != t[2]);
    }
    // no vertex of either ring is left out
    for v in 0..13u32 {
        assert!(mesh.indices.contains(&v));
    }
}

#[test]
fn adaptive_stitch_to_a_single_vertex_emits_triangles() {
    let mut mesh = Mesh::new();
    connect_rings_adaptive(&mut mesh, 0, 3, 3, 1);
    assert_eq!(mesh.indices, vec![0, 3, 1, 1, 3, 2, 2, 3, 0]);

    let mut other = Mesh::new();
    connect_rings_adaptive(&mut other, 10, 11, 1, 2);
    assert_eq!(other.indices, vec![10, 11, 12, 10, 12, 11]);
}

#[test]
fn adaptive_stitch_of_equal_rings_is_the_plain_one() {
    let mut plain = Mesh::new();
    connect_rings(&mut plain, 0, 6, 6);
    let mut adaptive = Mesh::new();
    connect_rings_adaptive(&mut adaptive, 0, 6, 6, 6);
    assert_eq!(plain.indices, adaptive.indices);
    assert_eq!(plain.indices.len(), 36);
}

#[test]
fn adaptive_stitch_from_smaller_to_larger_ring() {
    let mut mesh = Mesh::new();
    connect_rings_adaptive(&mut mesh, 0, 5, 5, 8);
    assert_eq!(mesh.triangle_count(), 16);
    for v in 0..13u32 {
        assert!(mesh.indices.contains(&v));
    }
    assert!(mesh.indices.iter().all(|&i| i < 13));
}
