use ancestral_vision_tree::data::{FamilyInput, FamilyMeta, FamilyTree, Person, VisualSeed};
use ancestral_vision_tree::growth::{BranchNode, GrowthParams, MemberDraws, Origin, TreeGrowth};
use ancestral_vision_tree::mesh::generator::tip_ring_segments;
use ancestral_vision_tree::mesh::{MeshGenerator, MeshParams, Part, TrackedMeshGenerator, Vertex};

fn member(id: &str, generation: usize, children: Vec<BranchNode>) -> BranchNode {
    BranchNode {
        person_id: id.to_string(),
        origin: Origin::Member {
            index: 0,
            siblings: 1,
            visual: VisualSeed { biography_len: 0, hue: 0 },
            draws: MemberDraws { heading: 0, pitch: 0, spread: 0, elevation: 0 },
        },
        generation,
        children,
    }
}

fn create_simple_node() -> BranchNode {
    member("test", 0, vec![])
}

fn family(root: &str, people: Vec<Person>) -> FamilyTree {
    FamilyTree::from_input(FamilyInput {
        family: FamilyMeta { name: "Test".to_string(), root: root.to_string() },
        people,
    })
    .unwrap()
}

fn closed(vertex_count: usize, indices: &[u32]) -> bool {
    indices.len() % 3 == 0
        && indices.iter().all(|&i| (i as usize) < vertex_count)
        && (0..vertex_count as u32).all(|v| indices.contains(&v))
}

#[test]
fn test_generate_single_branch() {
    let node = create_simple_node();
    let generator = MeshGenerator::new(MeshParams::default());
    let mesh = generator.generate_tree(&node);

    assert!(mesh.vertex_count() > 0);
    assert!(mesh.triangle_count() > 0);
}

#[test]
fn test_mesh_has_correct_structure() {
    let node = create_simple_node();
    let params = MeshParams { radial_segments: 8, length_segments: 4, ..Default::default() };
    let generator = MeshGenerator::new(params);
    let mesh = generator.generate_tree(&node);

    // Should have at least 4 rings of 8 vertices each for the branch
    // Plus additional vertices for the organic tip
    assert!(
        mesh.vertex_count() >= 4 * 8,
        "Expected at least 32 vertices, got {}",
        mesh.vertex_count()
    );

    // Should have at least 3 * 8 * 2 triangles for the branch connections
    // Plus additional triangles for the organic tip
    assert!(
        mesh.triangle_count() >= 3 * 8 * 2,
        "Expected at least 48 triangles, got {}",
        mesh.triangle_count()
    );
}

#[test]
fn test_generate_full_tree() {
    let family = family(
        "root",
        vec![Person::new("root", "Root").with_children(vec!["child"]), Person::new("child", "Child")],
    );
    let growth = TreeGrowth::new(GrowthParams::default());
    let tree = growth.grow(&family).unwrap();

    let generator = MeshGenerator::new(MeshParams::default());
    assert!(generator.fits(&tree));
    let mesh = generator.generate_tree(&tree);

    assert!(mesh.vertex_count() > 0);
    assert!(closed(mesh.vertex_count(), &mesh.indices));
}

#[test]
fn test_tracked_generation() {
    let family = family(
        "root",
        vec![
            Person::new("root", "Root").with_children(vec!["a", "b"]),
            Person::new("a", "A"),
            Person::new("b", "B"),
        ],
    );
    let growth = TreeGrowth::new(GrowthParams { generate_twigs: false, ..Default::default() });
    let tree = growth.grow(&family).unwrap();

    let generator = TrackedMeshGenerator::new(MeshParams::default());
    assert!(generator.fits(&tree));
    let (mesh, infos) = generator.generate_tree_tracked(&tree);

    assert_eq!(infos.len(), 3);
    assert_eq!(infos[0].person_id, "root");
    assert!(mesh.vertex_count() > 0);
}

#[test]
fn tracked_generation_counts_twigs_as_branches() {
    let family = family(
        "root",
        vec![
            Person::new("root", "Root").with_children(vec!["a", "b"]),
            Person::new("a", "A"),
            Person::new("b", "B"),
        ],
    );
    let tree = TreeGrowth::new(GrowthParams::default()).grow(&family).unwrap();
    let (mesh, infos) =
        TrackedMeshGenerator::new(MeshParams::default()).generate_tree_tracked(&tree);
    let ids: Vec<_> = infos.iter().map(|i| i.person_id.as_str()).collect();
    assert_eq!(ids, vec!["root", "a", "a__twig0", "a__twig1", "b", "b__twig0", "b__twig1"]);
    // seven shafts, three joints (root, a, b) and four twig tips
    assert_eq!(mesh.vertex_count(), 7 * 96 + 3 * 49 + 4 * 36);
    assert_eq!(infos[2].vertex_start, 2 * 96);
    assert_eq!(infos[3].vertex_start, 3 * 96 + 36);
    assert_eq!(infos[4].vertex_start, 4 * 96 + 2 * 36 + 49);
}

#[test]
fn lone_leaf_mesh_is_closed() {
    let family = family("root", vec![Person::new("root", "Root")]);
    let growth = TreeGrowth::new(GrowthParams { generate_twigs: false, ..Default::default() });
    let tree = growth.grow(&family).unwrap();
    assert_eq!(tree.count(), 1);

    let mesh = MeshGenerator::new(MeshParams::default()).generate_tree(&tree);
    assert_eq!(mesh.vertex_count(), 132);
    assert_eq!(mesh.indices.len(), 696);
    assert_eq!(mesh.triangle_count(), 232);
    assert!(closed(mesh.vertex_count(), &mesh.indices));
}

#[test]
fn single_branch_has_shaft_then_tip() {
    let node = create_simple_node();
    let params = MeshParams { radial_segments: 8, length_segments: 4, ..Default::default() };
    let mesh = MeshGenerator::new(params).generate_tree(&node);

    assert_eq!(mesh.vertex_count(), 56);
    assert_eq!(mesh.indices.len(), 270);
    assert_eq!(mesh.vertices[0], Vertex::new(0, Part::Shaft, 0, 0, 8));
    assert_eq!(mesh.vertices[31], Vertex::new(0, Part::Shaft, 3, 7, 8));
    assert_eq!(mesh.vertices[32], Vertex::new(0, Part::Tip, 0, 0, 8));
    assert_eq!(mesh.vertices[40], Vertex::new(0, Part::Tip, 1, 0, 6));
    assert_eq!(mesh.vertices[46], Vertex::new(0, Part::Tip, 2, 0, 5));
    assert_eq!(mesh.vertices[51], Vertex::new(0, Part::Tip, 3, 0, 4));
    assert_eq!(mesh.vertices[55], Vertex::new(0, Part::TipApex, 4, 0, 1));
    // first quad of the shaft
    assert_eq!(&mesh.indices[0..6], &[0, 8, 9, 0, 9, 1]);
    // the tip starts a surface of its own
    assert_eq!(&mesh.indices[144..150], &[32, 40, 41, 32, 41, 33]);
    // last triangle of the fan to the apex
    assert_eq!(&mesh.indices[267..270], &[54, 51, 55]);
    assert!(closed(56, &mesh.indices));
}

#[test]
fn branch_with_children_gets_a_joint_after_them() {
    let tree = member("parent", 0, vec![member("kid", 1, vec![])]);
    let params = MeshParams { radial_segments: 4, length_segments: 2, ..Default::default() };
    let mesh = MeshGenerator::new(params).generate_tree(&tree);

    // parent shaft 8, kid shaft 8, kid tip 4 * 4 + 1, parent joint 4 * 4 + 1
    assert_eq!(mesh.vertex_count(), 8 + 8 + 17 + 17);
    assert_eq!(mesh.vertices[0].branch, 0);
    assert_eq!(mesh.vertices[8], Vertex::new(1, Part::Shaft, 0, 0, 4));
    assert_eq!(mesh.vertices[16], Vertex::new(1, Part::Tip, 0, 0, 4));
    assert_eq!(mesh.vertices[32], Vertex::new(1, Part::TipApex, 4, 0, 1));
    assert_eq!(mesh.vertices[33], Vertex::new(0, Part::Joint, 0, 0, 4));
    assert_eq!(mesh.vertices[49], Vertex::new(0, Part::JointApex, 4, 0, 1));
    // shafts: 24 each; tip: 3 bands of 24 and a fan of 12; joint the same
    assert_eq!(mesh.indices.len(), 24 + 24 + 84 + 84);
    assert_eq!(&mesh.indices[mesh.indices.len() - 3..], &[48, 45, 49]);
    assert!(closed(mesh.vertex_count(), &mesh.indices));
}

#[test]
fn branches_are_numbered_in_preorder() {
    let tree = member(
        "a",
        0,
        vec![member("b", 1, vec![member("c", 2, vec![])]), member("d", 1, vec![])],
    );
    let params = MeshParams { radial_segments: 4, length_segments: 2, ..Default::default() };
    let mesh = MeshGenerator::new(params).generate_tree(&tree);
    let shafts: Vec<usize> = mesh
        .vertices
        .iter()
        .filter(|v| v.part == Part::Shaft && v.slot == 0 && v.level == 0)
        .map(|v| v.branch)
        .collect();
    assert_eq!(shafts, vec![0, 1, 2, 3]);
    let caps: Vec<(usize, Part)> = mesh
        .vertices
        .iter()
        .filter(|v| v.part == Part::TipApex || v.part == Part::JointApex)
        .map(|v| (v.branch, v.part))
        .collect();
    assert_eq!(
        caps,
        vec![(2, Part::TipApex), (1, Part::JointApex), (3, Part::TipApex), (0, Part::JointApex)]
    );
    assert!(closed(mesh.vertex_count(), &mesh.indices));
}

#[test]
fn tracked_infos_point_at_the_shafts() {
    let tree = member("a", 0, vec![member("b", 1, vec![]), member("c", 1, vec![])]);
    let params = MeshParams { radial_segments: 5, length_segments: 3, ..Default::default() };
    let (mesh, infos) = TrackedMeshGenerator::new(params).generate_tree_tracked(&tree);

    // shafts of 15, tips of 5 + 4 + 4 + 4 + 1, a joint of 4 * 5 + 1
    assert_eq!(mesh.vertex_count(), 3 * 15 + 2 * 18 + 21);
    assert_eq!(mesh.indices.len(), 3 * 60 + 2 * 90 + 105);
    assert_eq!(infos.len(), 3);
    let starts: Vec<(u32, u32)> = infos.iter().map(|i| (i.vertex_start, i.index_start)).collect();
    assert_eq!(starts, vec![(0, 0), (15, 60), (48, 210)]);
    for (k, info) in infos.iter().enumerate() {
        assert_eq!(info.vertex_count, 15);
        assert_eq!(info.index_count, 60);
        let own = info.vertex_start as usize..(info.vertex_start + info.vertex_count) as usize;
        for v in &mesh.vertices[own] {
            assert_eq!(v.branch, k);
            assert_eq!(v.part, Part::Shaft);
        }
        let range = info.index_start as usize..(info.index_start + info.index_count) as usize;
        for &i in &mesh.indices[range] {
            assert!(info.vertex_start <= i && i < info.vertex_start + info.vertex_count);
        }
    }
    assert_eq!(infos[2].vertex_bytes(), (48 * 44, 15 * 44));
    assert_eq!(infos[2].index_bytes(), (210 * 4, 60 * 4));
    let ids: Vec<_> = infos.iter().map(|i| i.person_id.as_str()).collect();
    assert_eq!(ids, vec!["a", "b", "c"]);
    assert!(closed(mesh.vertex_count(), &mesh.indices));
}

#[test]
fn tracked_mesh_is_the_untracked_mesh() {
    let tree = member(
        "a",
        0,
        vec![member("b", 1, vec![member("c", 2, vec![])]), member("d", 1, vec![])],
    );
    let params = MeshParams { radial_segments: 7, length_segments: 4, ..Default::default() };
    let plain = MeshGenerator::new(params).generate_tree(&tree);
    let (recorded, infos) = TrackedMeshGenerator::new(params).generate_tree_tracked(&tree);
    assert_eq!(plain.vertices, recorded.vertices);
    assert_eq!(plain.indices, recorded.indices);
    assert_eq!(infos.len(), 4);
}

#[test]
fn tracked_lone_leaf_is_capped() {
    let family = family("root", vec![Person::new("root", "Root")]);
    let growth = TreeGrowth::new(GrowthParams { generate_twigs: false, ..Default::default() });
    let tree = growth.grow(&family).unwrap();

    let params = MeshParams { radial_segments: 3, length_segments: 2, ..Default::default() };
    let generator = TrackedMeshGenerator::new(params);
    assert!(generator.fits(&tree));
    let (mesh, infos) = generator.generate_tree_tracked(&tree);
    // the tip adds four rings of four vertices and an apex to the shaft
    assert!(mesh.vertex_count() > 2 * 3);
    assert_eq!(mesh.vertex_count(), 2 * 3 + 17);
    assert_eq!(mesh.indices.len() % 3, 0);
    assert!(closed(mesh.vertex_count(), &mesh.indices));
    assert_eq!(mesh.vertices[mesh.vertex_count() - 1].part, Part::TipApex);
    assert_eq!(infos.len(), 1);
    assert_eq!((infos[0].vertex_start, infos[0].vertex_count), (0, 6));
    assert_eq!((infos[0].index_start, infos[0].index_count), (0, 18));

    let (mesh, _) = TrackedMeshGenerator::new(MeshParams::default()).generate_tree_tracked(&tree);
    assert_eq!(mesh.vertex_count(), 132);
    assert_eq!(mesh.indices.len(), 696);
}

#[test]
fn tip_rings_shrink_toward_the_apex() {
    let rings: Vec<usize> = (0..4).map(|level| tip_ring_segments(12, level)).collect();
    assert_eq!(rings, vec![12, 10, 7, 6]);
    let rings: Vec<usize> = (0..4).map(|level| tip_ring_segments(8, level)).collect();
    assert_eq!(rings, vec![8, 6, 5, 4]);
    let rings: Vec<usize> = (0..4).map(|level| tip_ring_segments(54, level)).collect();
    assert_eq!(rings, vec![54, 47, 34, 27]);
    let rings: Vec<usize> = (0..4).map(|level| tip_ring_segments(3, level)).collect();
    assert_eq!(rings, vec![4, 4, 4, 4]);
    let rings: Vec<usize> = (0..4).map(|level| tip_ring_segments(0, level)).collect();
    assert_eq!(rings, vec![4, 4, 4, 4]);
    assert_eq!(tip_ring_segments(usize::MAX, 0), usize::MAX);
    assert_eq!(tip_ring_segments(1000, 1), 870);
}

#[test]
fn mesh_without_radial_segments_still_has_closed_tips() {
    let node = create_simple_node();
    let params = MeshParams { radial_segments: 0, length_segments: 3, ..Default::default() };
    let generator = MeshGenerator::new(params);
    assert!(generator.fits(&node));
    let mesh = generator.generate_tree(&node);
    assert_eq!(mesh.vertex_count(), 17);
    assert!(closed(mesh.vertex_count(), &mesh.indices));
}

#[test]
fn fits_tells_when_a_mesh_cannot_be_indexed() {
    let node = create_simple_node();
    let none = MeshParams { radial_segments: 8, length_segments: 0, ..Default::default() };
    assert!(!MeshGenerator::new(none).fits(&node));
    assert!(!TrackedMeshGenerator::new(none).fits(&node));

    let huge = MeshParams { radial_segments: 70_000, length_segments: 70_000, ..Default::default() };
    assert!(!MeshGenerator::new(huge).fits(&node));
    assert!(!TrackedMeshGenerator::new(huge).fits(&node));

    let wide = MeshParams { radial_segments: usize::MAX, length_segments: 1, ..Default::default() };
    assert!(!MeshGenerator::new(wide).fits(&node));

    let fine = MeshParams::default();
    assert!(MeshGenerator::new(fine).fits(&node));
    assert!(TrackedMeshGenerator::new(fine).fits(&node));

    // vertices fit, positions in the index list do not
    let dense = MeshParams { radial_segments: 40_000, length_segments: 50_000, ..Default::default() };
    assert!(MeshGenerator::new(dense).fits(&node));
    assert!(!TrackedMeshGenerator::new(dense).fits(&node));
    assert_eq!(MeshGenerator::new(dense).index_demand(&node), None);
    assert_eq!(MeshGenerator::new(fine).index_demand(&node), Some(696));
}

#[test]
fn default_mesh_params() {
    let params = MeshParams::default();
    assert_eq!(params.radial_segments, 12);
    assert_eq!(params.length_segments, 8);
    assert_eq!(params.seed, 42);
}

#[test]
fn grown_family_mesh_is_closed_and_indexed() {
    let family = family(
        "a",
        vec![
            Person::new("a", "A").with_children(vec!["b", "c", "d"]),
            Person::new("b", "B").with_children(vec!["e"]),
            Person::new("c", "C").with_biography("Some words."),
            Person::new("d", "D"),
            Person::new("e", "E"),
        ],
    );
    let tree = TreeGrowth::new(GrowthParams::default()).grow(&family).unwrap();
    assert_eq!(tree.count(), 11);
    let generator = MeshGenerator::new(MeshParams::default());
    // five people whose branches end in a joint, six twigs that end in a tip
    assert_eq!(generator.vertex_demand(&tree), Some(11 * 96 + 5 * 49 + 6 * 36));
    let mesh = generator.generate_tree(&tree);
    assert_eq!(mesh.vertex_count(), 11 * 96 + 5 * 49 + 6 * 36);
    assert!(closed(mesh.vertex_count(), &mesh.indices));
}
