use ancestral_vision_tree::data::text::escape_json;
use ancestral_vision_tree::data::Person;
use ancestral_vision_tree::growth::Arrangement;
use ancestral_vision_tree::mesh::{MeshGenerator, MeshParams};

#[test]
fn test_escape_json() {
    assert_eq!(escape_json("hello"), "hello");
    assert_eq!(escape_json("hello\nworld"), "hello\\nworld");
    assert_eq!(escape_json(r#"say "hi""#), r#"say \"hi\""#);
}

#[test]
fn escape_json_handles_each_special_character() {
    assert_eq!(escape_json(""), "");
    assert_eq!(escape_json("\\"), "\\\\");
    assert_eq!(escape_json("\""), "\\\"");
    assert_eq!(escape_json("\n"), "\\n");
    assert_eq!(escape_json("\r"), "\\r");
    assert_eq!(escape_json("\t"), "\\t");
    assert_eq!(escape_json("a\\n"), "a\\\\n");
    assert_eq!(escape_json("tab\there \"and\" back\\slash\r\n"), "tab\\there \\\"and\\\" back\\\\slash\\r\\n");
    assert_eq!(escape_json("Zoë — ☃"), "Zoë — ☃");
}

#[test]
fn person_info_is_a_json_object_of_four_strings() {
    let person = Person::new("ann", "Ann \"Annie\" Lee")
        .with_biography("Line one.\nLine two.")
        .with_years(Some(1901), None);
    assert_eq!(
        person.info_json(),
        r#"{"id":"ann","name":"Ann \"Annie\" Lee","biography":"Line one.\nLine two.","lifespan":"1901 - present"}"#
    );
    let bare = Person::new("x", "X");
    assert_eq!(bare.info_json(), r#"{"id":"x","name":"X","biography":"","lifespan":""}"#);
}

#[test]
fn arrangement_follows_the_number_of_children() {
    assert_eq!(Arrangement::of(1), Arrangement::Straight);
    assert_eq!(Arrangement::of(2), Arrangement::Fork);
    assert_eq!(Arrangement::of(3), Arrangement::Radial);
    assert_eq!(Arrangement::of(12), Arrangement::Radial);
    assert_eq!(Arrangement::of(0), Arrangement::Straight);
}

#[test]
fn bark_noise_bits() {
    let generator = MeshGenerator::new(MeshParams::default());
    assert_eq!(generator.bark_noise(0, 42), 125049458);
    assert_eq!(generator.bark_noise(1, 42), 2315899);
    assert_eq!(generator.bark_noise(7, 42), 3560454465);
    assert_eq!(generator.bark_noise(3, 0), 125049458);
}
