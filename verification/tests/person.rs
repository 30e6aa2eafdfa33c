use ancestral_vision_tree::data::Person;

#[test]
fn test_person_creation() {
    let person = Person::new("test-id", "Test Name");
    assert_eq!(person.id, "test-id");
    assert_eq!(person.name, "Test Name");
    assert!(person.children.is_empty());
}

#[test]
fn test_person_builder() {
    let person = Person::new("alice", "Alice Smith")
        .with_biography("A wonderful person who lived a full life.")
        .with_children(vec!["bob", "carol"])
        .with_years(Some(1950), Some(2020));

    assert_eq!(person.children.len(), 2);
    assert_eq!(person.birth_year, Some(1950));
    assert!(!person.biography.is_empty());
}

#[test]
fn test_lifespan_string() {
    let p1 = Person::new("a", "A").with_years(Some(1900), Some(1980));
    assert_eq!(p1.lifespan_string(), "1900 - 1980");

    let p2 = Person::new("b", "B").with_years(Some(1990), None);
    assert_eq!(p2.lifespan_string(), "1990 - present");

    let p3 = Person::new("c", "C");
    assert_eq!(p3.lifespan_string(), "");
}

#[test]
fn lifespan_with_unknown_birth() {
    let p = Person::new("d", "D").with_years(None, Some(1975));
    assert_eq!(p.lifespan_string(), "? - 1975");
}

#[test]
fn lifespan_with_negative_and_extreme_years() {
    let p = Person::new("e", "E").with_years(Some(-44), Some(0));
    assert_eq!(p.lifespan_string(), "-44 - 0");
    let q = Person::new("f", "F").with_years(Some(i32::MIN), Some(i32::MAX));
    assert_eq!(q.lifespan_string(), "-2147483648 - 2147483647");
    let r = Person::new("g", "G").with_years(Some(10), Some(109));
    assert_eq!(r.lifespan_string(), "10 - 109");
}

#[test]
fn builder_keeps_what_it_does_not_set() {
    let person = Person::new("alice", "Alice Smith")
        .with_years(Some(1950), None)
        .with_biography("Bio")
        .with_children(vec!["bob"]);
    assert_eq!(person.id, "alice");
    assert_eq!(person.name, "Alice Smith");
    assert_eq!(person.biography, "Bio");
    assert_eq!(person.birth_year, Some(1950));
    assert_eq!(person.death_year, None);
    assert_eq!(person.children, vec!["bob".to_string()]);
}

#[test]
fn visual_seed_is_biography_length_and_hue() {
    let person = Person::new("root", "Root").with_biography("The founder.");
    let seed = person.visual_seed();
    assert_eq!(seed.biography_len, 12);
    assert_eq!(seed.hue, 92);

    let alice = Person::new("alice", "Alice");
    let seed = alice.visual_seed();
    assert_eq!(seed.biography_len, 0);
    assert_eq!(seed.hue, 150);
}

#[test]
fn visual_seed_counts_bytes_and_keeps_hue_below_360() {
    let person = Person::new("zzzzzzzzzz", "Z").with_biography("é");
    let seed = person.visual_seed();
    assert_eq!(seed.biography_len, 2);
    assert_eq!(seed.hue, (122 * 10) % 360);
    assert!(seed.hue < 360);
}
