use ancestral_vision_tree::data::{FamilyError, FamilyInput, FamilyMeta, FamilyTree, Person};

fn family(name: &str, root: &str, people: Vec<Person>) -> Result<FamilyTree, FamilyError> {
    FamilyTree::from_input(FamilyInput {
        family: FamilyMeta { name: name.to_string(), root: root.to_string() },
        people,
    })
}

fn sample() -> Result<FamilyTree, FamilyError> {
    family(
        "Test Family",
        "grandparent",
        vec![
            Person::new("grandparent", "Grand Parent")
                .with_biography("The founder of our family line.")
                .with_years(Some(1920), Some(2000))
                .with_children(vec!["parent1", "parent2"]),
            Person::new("parent1", "Parent One")
                .with_biography("First child.")
                .with_children(vec!["child1"]),
            Person::new("parent2", "Parent Two")
                .with_biography("Second child.")
                .with_children(vec![]),
            Person::new("child1", "Child One").with_biography("The youngest generation."),
        ],
    )
}

#[test]
fn test_parse_yaml() {
    let tree = sample().unwrap();
    assert_eq!(tree.name(), "Test Family");
    assert_eq!(tree.len(), 4);
}

#[test]
fn test_root_access() {
    let tree = sample().unwrap();
    let root = tree.root().unwrap();
    assert_eq!(root.name, "Grand Parent");
}

#[test]
fn test_children_access() {
    let tree = sample().unwrap();
    let children = tree.children_of("grandparent");
    assert_eq!(children.len(), 2);
}

#[test]
fn test_max_depth() {
    let tree = sample().unwrap();
    assert_eq!(tree.max_depth(), 3); // grandparent -> parent1 -> child1
}

#[test]
fn family_tree_test_preorder_iteration() {
    let tree = sample().unwrap();
    let mut names: Vec<&str> = Vec::new();
    let mut walk = tree.iter_preorder();
    while let Some(p) = walk.next() {
        names.push(p.name.as_str());
    }
    assert_eq!(names[0], "Grand Parent");
    assert_eq!(names.len(), 4);
}

#[test]
fn test_invalid_root() {
    let result = family("Bad", "nonexistent", vec![Person::new("someone", "Someone")]);
    assert!(result.is_err());
    assert!(result.unwrap_err().message().contains("not found"));
}

#[test]
fn test_invalid_child_reference() {
    let result = family(
        "Bad",
        "parent",
        vec![Person::new("parent", "Parent").with_children(vec!["missing-child"])],
    );
    assert!(result.is_err());
}

#[test]
fn preorder_visits_each_person_before_their_children() {
    let tree = sample().unwrap();
    let mut ids: Vec<String> = Vec::new();
    let mut walk = tree.iter_preorder();
    while let Some(p) = walk.next() {
        ids.push(p.id.clone());
    }
    assert_eq!(ids, vec!["grandparent", "parent1", "child1", "parent2"]);
    assert!(walk.next().is_none());
}

#[test]
fn root_error_names_the_root() {
    let err = family("Bad", "nonexistent", vec![Person::new("someone", "Someone")]).unwrap_err();
    assert!(matches!(&err, FamilyError::RootNotFound { root } if root == "nonexistent"));
    assert_eq!(err.message(), "Root person 'nonexistent' not found in people list");
}

#[test]
fn child_error_names_child_and_parent() {
    let err = family(
        "Bad",
        "parent",
        vec![Person::new("parent", "Parent").with_children(vec!["missing-child"])],
    )
    .unwrap_err();
    assert!(matches!(
        &err,
        FamilyError::ChildNotFound { child, parent } if child == "missing-child" && parent == "parent"
    ));
    assert_eq!(err.message(), "Child 'missing-child' referenced by 'parent' not found");
}

#[test]
fn missing_root_is_reported_before_missing_children() {
    let err = family(
        "Bad",
        "nobody",
        vec![Person::new("parent", "Parent").with_children(vec!["missing-child"])],
    )
    .unwrap_err();
    assert!(matches!(err, FamilyError::RootNotFound { .. }));
}

#[test]
fn later_person_replaces_earlier_with_same_id() {
    let tree = family(
        "Twice",
        "a",
        vec![
            Person::new("a", "First").with_children(vec!["b"]),
            Person::new("b", "Bee"),
            Person::new("a", "Second"),
        ],
    )
    .unwrap();
    assert_eq!(tree.len(), 2);
    assert_eq!(tree.root().unwrap().name, "Second");
    assert!(tree.children_of("a").is_empty());
    assert_eq!(tree.max_depth(), 1);
}

#[test]
fn get_finds_people_by_id_only() {
    let tree = sample().unwrap();
    assert_eq!(tree.get("child1").unwrap().name, "Child One");
    assert!(tree.get("Child One").is_none());
    assert!(tree.get("").is_none());
    assert!(tree.children_of("nobody").is_empty());
    assert_eq!(tree.root_id(), "grandparent");
    assert!(!tree.is_empty());
}

#[test]
fn children_come_in_family_order() {
    let tree = sample().unwrap();
    let names: Vec<&str> =
        tree.children_of("grandparent").iter().map(|p| p.name.as_str()).collect();
    assert_eq!(names, vec!["Parent One", "Parent Two"]);
}

#[test]
fn single_person_family_has_depth_one() {
    let tree = family("One", "root", vec![Person::new("root", "Root")]).unwrap();
    assert_eq!(tree.max_depth(), 1);
    assert_eq!(tree.len(), 1);
}

#[test]
fn endless_descent_has_depth_zero() {
    let tree = family(
        "Loop",
        "a",
        vec![
            Person::new("a", "A").with_children(vec!["b"]),
            Person::new("b", "B").with_children(vec!["a"]),
        ],
    )
    .unwrap();
    assert_eq!(tree.max_depth(), 0);

    let own = family("Own", "a", vec![Person::new("a", "A").with_children(vec!["a"])]).unwrap();
    assert_eq!(own.max_depth(), 0);
}

#[test]
fn depth_may_equal_the_number_of_people() {
    let tree = family(
        "Line",
        "a",
        vec![
            Person::new("a", "A").with_children(vec!["b"]),
            Person::new("b", "B").with_children(vec!["c"]),
            Person::new("c", "C"),
        ],
    )
    .unwrap();
    assert_eq!(tree.max_depth(), 3);
}

#[test]
fn shared_child_is_counted_on_each_line() {
    let tree = family(
        "Shared",
        "a",
        vec![
            Person::new("a", "A").with_children(vec!["b", "c"]),
            Person::new("b", "B").with_children(vec!["d"]),
            Person::new("c", "C").with_children(vec!["d"]),
            Person::new("d", "D"),
        ],
    )
    .unwrap();
    assert_eq!(tree.max_depth(), 3);
    let mut count = 0;
    let mut walk = tree.iter_preorder();
    while let Some(_) = walk.next() {
        count += 1;
    }
    assert_eq!(count, 5);
}
