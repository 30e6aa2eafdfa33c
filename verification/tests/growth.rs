use ancestral_vision_tree::data::{FamilyInput, FamilyMeta, FamilyTree, Person};
use ancestral_vision_tree::growth::{
    hash_string, BranchNode, GrowthParams, MemberDraws, Origin, TreeGrowth, TwigDraws,
};

fn family(root: &str, people: Vec<Person>) -> FamilyTree {
    FamilyTree::from_input(FamilyInput {
        family: FamilyMeta { name: "Test".to_string(), root: root.to_string() },
        people,
    })
    .unwrap()
}

fn test_family() -> FamilyTree {
    family(
        "root",
        vec![
            Person::new("root", "Root")
                .with_biography("The founder.")
                .with_children(vec!["left", "right"]),
            Person::new("left", "Left Child").with_biography(""),
            Person::new("right", "Right Child").with_biography(
                "A longer biography that should make this branch more prominent.",
            ),
        ],
    )
}

fn without_twigs() -> GrowthParams {
    GrowthParams { generate_twigs: false, ..Default::default() }
}

fn biography_len(node: &BranchNode) -> usize {
    match node.origin {
        Origin::Member { visual, .. } => visual.biography_len,
        Origin::Twig { .. } => panic!("a twig has no biography"),
    }
}

#[test]
fn test_grow_basic_tree() {
    let family = test_family();
    let growth = TreeGrowth::new(GrowthParams::default());
    let tree = growth.grow(&family).unwrap();

    assert_eq!(tree.person_id, "root");
    assert_eq!(tree.children.len(), 2);
}

#[test]
fn test_generation_increments() {
    let family = test_family();
    let growth = TreeGrowth::new(GrowthParams::default());
    let tree = growth.grow(&family).unwrap();

    assert_eq!(tree.generation, 0);
    assert_eq!(tree.children[0].generation, 1);
}

#[test]
fn test_node_count() {
    let family = test_family();
    let growth = TreeGrowth::new(without_twigs());
    let tree = growth.grow(&family).unwrap();

    assert_eq!(tree.count(), 3);
}

#[test]
fn algorithm_test_preorder_iteration() {
    let family = test_family();
    let growth = TreeGrowth::new(without_twigs());
    let tree = growth.grow(&family).unwrap();

    let ids: Vec<_> = tree.iter_preorder().iter().map(|n| n.person_id.as_str()).collect();
    assert_eq!(ids[0], "root");
    assert_eq!(ids.len(), 3);
}

#[test]
fn test_deterministic_with_seed() {
    let family = test_family();
    let growth1 = TreeGrowth::new(GrowthParams::default()).with_seed(123);
    let growth2 = TreeGrowth::new(GrowthParams::default()).with_seed(123);

    let tree1 = growth1.grow(&family).unwrap();
    let tree2 = growth2.grow(&family).unwrap();

    assert_eq!(tree1.origin, tree2.origin);
    assert_eq!(tree1.children[1].origin, tree2.children[1].origin);
}

#[test]
fn family_of_three_grows_two_children() {
    let family = test_family();
    let tree = TreeGrowth::new(without_twigs()).grow(&family).unwrap();

    assert_eq!(tree.children.len(), 2);
    assert_eq!(tree.count(), 3);
    let left = &tree.children[0];
    let right = &tree.children[1];
    assert_eq!(left.person_id, "left");
    assert_eq!(right.person_id, "right");
    assert!(biography_len(right) > biography_len(left));
    assert_eq!(biography_len(left), 0);
    assert_eq!(biography_len(right), 63);
    assert!(left.children.is_empty());
    assert!(right.children.is_empty());
}

#[test]
fn hash_is_the_rolling_hash_of_the_key() {
    assert_eq!(hash_string(42, "root"), 42294284);
    assert_eq!(hash_string(123, "root"), 117099485);
    assert_eq!(hash_string(0, ""), 0);
    assert_eq!(hash_string(99, ""), 99);
    assert_eq!(hash_string(7, "a"), 314);
    assert_eq!(hash_string(42, "é"), 46576);
    assert_eq!(hash_string(42, "rootpitch"), 3779727028);
    assert_eq!(TreeGrowth::new(GrowthParams::default()).hash_string("root"), 42294284);
    assert_eq!(
        TreeGrowth::new(GrowthParams::default()).with_seed(123).hash_string("root"),
        117099485
    );
}

#[test]
fn hash_of_a_key_with_suffix_continues_the_hash_of_the_key() {
    let h = hash_string(42, "root");
    assert_eq!(hash_string(h, "pitch"), hash_string(42, "rootpitch"));
    assert_eq!(hash_string(hash_string(h, "sp"), "read"), hash_string(42, "rootspread"));
}

#[test]
fn member_draws_use_one_key_per_purpose() {
    let family = test_family();
    let tree = TreeGrowth::new(without_twigs()).grow(&family).unwrap();
    match tree.origin {
        Origin::Member { index, siblings, visual, draws } => {
            assert_eq!(index, 0);
            assert_eq!(siblings, 1);
            assert_eq!(visual.biography_len, 12);
            assert_eq!(visual.hue, 92);
            assert_eq!(
                draws,
                MemberDraws {
                    heading: 42294284,
                    pitch: 3779727028,
                    spread: 1299715199,
                    elevation: 1229980068,
                }
            );
        }
        Origin::Twig { .. } => panic!("the root is a family member"),
    }
    match tree.children[1].origin {
        Origin::Member { index, siblings, .. } => {
            assert_eq!(index, 1);
            assert_eq!(siblings, 2);
        }
        Origin::Twig { .. } => panic!("a child is a family member"),
    }
}

#[test]
fn leaves_carry_twigs_from_the_minimum_generation_on() {
    let family = test_family();
    let tree = TreeGrowth::new(GrowthParams::default()).grow(&family).unwrap();
    assert_eq!(tree.count(), 7);
    let left = &tree.children[0];
    assert_eq!(left.children.len(), 2);
    let twig = &left.children[0];
    assert_eq!(twig.person_id, "left__twig0");
    assert_eq!(twig.generation, 3);
    assert!(twig.children.is_empty());
    assert_eq!(
        twig.origin,
        Origin::Twig {
            index: 0,
            placing: TwigDraws {
                position: 2097819870,
                direction: 82722543,
                pitch: 2198039842,
            },
        }
    );
    assert_eq!(left.children[1].person_id, "left__twig1");
    match left.children[1].origin {
        Origin::Twig { index, placing } => {
            assert_eq!(index, 1);
            assert_eq!(placing.position, 2097819871);
        }
        Origin::Member { .. } => panic!("a twig is no family member"),
    }
}

#[test]
fn a_lone_root_carries_no_twigs_before_the_minimum_generation() {
    let family = family("root", vec![Person::new("root", "Root")]);
    let tree = TreeGrowth::new(GrowthParams::default()).grow(&family).unwrap();
    assert_eq!(tree.count(), 1);

    let eager = GrowthParams { twig_min_generation: 0, ..Default::default() };
    let tree = TreeGrowth::new(eager).grow(&family).unwrap();
    assert_eq!(tree.count(), 3);
    assert_eq!(tree.children[0].generation, 2);
}

#[test]
fn no_more_than_four_twigs_are_made() {
    let family = family("root", vec![Person::new("root", "Root")]);
    let many = GrowthParams { generate_twigs: true, twigs_per_branch: 9, twig_min_generation: 0 };
    let tree = TreeGrowth::new(many).grow(&family).unwrap();
    assert_eq!(tree.children.len(), 4);
    assert_eq!(tree.children[3].person_id, "root__twig3");

    let none = GrowthParams { generate_twigs: true, twigs_per_branch: 0, twig_min_generation: 0 };
    let tree = TreeGrowth::new(none).grow(&family).unwrap();
    assert!(tree.children.is_empty());
}

#[test]
fn branches_with_children_carry_no_twigs() {
    let family = test_family();
    let eager = GrowthParams { twig_min_generation: 0, ..Default::default() };
    let tree = TreeGrowth::new(eager).grow(&family).unwrap();
    assert_eq!(tree.children.len(), 2);
    assert_eq!(tree.children[0].person_id, "left");
    assert_eq!(tree.children[1].person_id, "right");
}

#[test]
fn growth_is_the_same_each_time() {
    let family = test_family();
    let growth = TreeGrowth::new(GrowthParams::default()).with_seed(7);
    let a = growth.grow(&family).unwrap();
    let b = growth.grow(&family).unwrap();
    let left: Vec<_> =
        a.iter_preorder().iter().map(|n| (n.person_id.clone(), n.origin, n.generation)).collect();
    let right: Vec<_> =
        b.iter_preorder().iter().map(|n| (n.person_id.clone(), n.origin, n.generation)).collect();
    assert_eq!(left, right);
    assert_eq!(left.len(), 7);
}

#[test]
fn another_seed_gives_other_draws() {
    let family = test_family();
    let a = TreeGrowth::new(without_twigs()).grow(&family).unwrap();
    let b = TreeGrowth::new(without_twigs()).with_seed(123).grow(&family).unwrap();
    assert_ne!(a.origin, b.origin);
    assert_eq!(a.person_id, b.person_id);
}

#[test]
fn endless_descent_grows_nothing() {
    let looped = family(
        "a",
        vec![
            Person::new("a", "A").with_children(vec!["b"]),
            Person::new("b", "B").with_children(vec!["a"]),
        ],
    );
    assert!(TreeGrowth::new(GrowthParams::default()).grow(&looped).is_none());
}

#[test]
fn preorder_lists_children_in_family_order() {
    let family = family(
        "a",
        vec![
            Person::new("a", "A").with_children(vec!["b", "c", "d"]),
            Person::new("b", "B").with_children(vec!["e"]),
            Person::new("c", "C"),
            Person::new("d", "D"),
            Person::new("e", "E"),
        ],
    );
    let tree = TreeGrowth::new(without_twigs()).grow(&family).unwrap();
    let ids: Vec<_> = tree.iter_preorder().iter().map(|n| n.person_id.as_str()).collect();
    assert_eq!(ids, vec!["a", "b", "e", "c", "d"]);
    assert_eq!(tree.count(), 5);
    let generations: Vec<_> = tree.iter_preorder().iter().map(|n| n.generation).collect();
    assert_eq!(generations, vec![0, 1, 2, 1, 1]);
}

#[test]
fn twig_ids_differ_from_member_ids_without_the_mark() {
    let family = family(
        "root",
        vec![
            Person::new("root", "Root").with_children(vec!["kid", "kid_twig0"]),
            Person::new("kid", "Kid"),
            Person::new("kid_twig0", "Almost"),
        ],
    );
    let tree = TreeGrowth::new(GrowthParams::default()).grow(&family).unwrap();
    let members = ["root", "kid", "kid_twig0"];
    for node in tree.iter_preorder() {
        if let Origin::Twig { .. } = node.origin {
            assert!(node.person_id.contains("__twig"));
            assert!(!members.contains(&node.person_id.as_str()));
        }
    }
    assert_eq!(tree.count(), 7);
}

#[test]
fn a_loop_off_the_lines_from_the_root_does_not_matter() {
    let family = family(
        "a",
        vec![
            Person::new("a", "A").with_children(vec!["b", "c"]),
            Person::new("b", "B").with_children(vec!["d"]),
            Person::new("c", "C").with_children(vec!["d"]),
            Person::new("d", "D"),
            Person::new("e", "E").with_children(vec!["e"]),
        ],
    );
    // the person who is their own child is no descendant of the root
    assert_eq!(family.max_depth(), 3);
    let tree = TreeGrowth::new(without_twigs()).grow(&family).unwrap();
    assert_eq!(tree.count(), 5);
}
