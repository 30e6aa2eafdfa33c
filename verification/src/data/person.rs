//! A person of the family and what their branch's look is derived from.

use vstd::prelude::*;
use vstd::string::{StringExecFns, StringSliceAdditionalSpecFns};
use vstd::utf8::encode_utf8;
use super::text::{decimal, escape_json, escaped, push_i32};

verus! {

/// A person in the family tree.
#[derive(Debug, Clone)]
pub struct Person {
    pub id: String,
    pub name: String,
    pub biography: String,
    pub birth_year: Option<i32>,
    pub death_year: Option<i32>,
    /// Identifiers of the children, in family order.
    pub children: Vec<String>,
}

/// The mathematical value of a [`Person`].
pub struct PersonView {
    pub id: Seq<char>,
    pub name: Seq<char>,
    pub biography: Seq<char>,
    pub birth_year: Option<i32>,
    pub death_year: Option<i32>,
    pub children: Seq<Seq<char>>,
}

/// The integers from which a branch's look is derived: the length of the
/// biography in bytes, and a hue in degrees below 360.
#[derive(Clone, Copy, Debug, PartialEq, Eq, Structural)]
pub struct VisualSeed {
    pub biography_len: usize,
    pub hue: u32,
}

/// The texts of a list of strings.
pub open spec fn texts(strings: Seq<String>) -> Seq<Seq<char>> {
    Seq::new(strings.len(), |k: int| strings[k]@)
}

/// The sum of `bytes`, wrapping at 32 bits.
pub open spec fn byte_sum(bytes: Seq<u8>) -> u32
    decreases bytes.len(),
{
    if bytes.len() == 0 {
        0
    } else {
        byte_sum(bytes.drop_last()).wrapping_add(bytes.last() as u32)
    }
}

/// The lifespan of a person as shown to readers.
pub open spec fn lifespan(birth: Option<i32>, death: Option<i32>) -> Seq<char> {
    match (birth, death) {
        (Some(b), Some(d)) => decimal(b as int) + " - "@ + decimal(d as int),
        (Some(b), None) => decimal(b as int) + " - present"@,
        (None, Some(d)) => "? - "@ + decimal(d as int),
        (None, None) => Seq::empty(),
    }
}

impl View for Person {
    type V = PersonView;

    open spec fn view(&self) -> PersonView {
        PersonView {
            id: self.id@,
            name: self.name@,
            biography: self.biography@,
            birth_year: self.birth_year,
            death_year: self.death_year,
            children: texts(self.children@),
        }
    }
}

impl Person {
    /// A person without biography, years or children.
    pub fn new(id: &str, name: &str) -> (person: Self)
        ensures
            person@ == (PersonView {
                id: id@,
                name: name@,
                biography: Seq::empty(),
                birth_year: None,
                death_year: None,
                children: Seq::empty(),
            }),
    {
        let person = Person {
            id: id.to_owned(),
            name: name.to_owned(),
            biography: String::new(),
            birth_year: None,
            death_year: None,
            children: Vec::new(),
        };
        assert(texts(person.children@) =~= Seq::empty());
        person
    }

    /// The same person with the biography `bio`.
    pub fn with_biography(self, bio: &str) -> (person: Self)
        ensures
            person@ == (PersonView { biography: bio@, ..self@ }),
    {
        let mut person = self;
        person.biography = bio.to_owned();
        person
    }

    /// The same person with the children `children`, in that order.
    pub fn with_children(self, children: Vec<&str>) -> (person: Self)
        ensures
            person@ == (PersonView { children: Seq::new(children@.len(), |k: int| children@[k]@), ..self@ }),
    {
        let mut owned: Vec<String> = Vec::new();
        let mut i: usize = 0;
        while i < children.len()
            invariant
                i <= children@.len(),
                owned@.len() == i,
                forall|k: int| 0 <= k < i ==> owned@[k]@ == children@[k]@,
            decreases children@.len() - i,
        {
            owned.push(children[i].to_owned());
            i += 1;
        }
        let mut person = self;
        person.children = owned;
        assert(texts(person.children@) =~= Seq::new(children@.len(), |k: int| children@[k]@));
        person
    }

    /// The same person with the given years of birth and death.
    pub fn with_years(self, birth: Option<i32>, death: Option<i32>) -> (person: Self)
        ensures
            person@ == (PersonView { birth_year: birth, death_year: death, ..self@ }),
    {
        let mut person = self;
        person.birth_year = birth;
        person.death_year = death;
        person
    }

    /// The integers that the look of this person's branch is derived from:
    /// the length of the biography, and the sum of the identifier's bytes
    /// reduced to a hue below 360 degrees.
    pub fn visual_seed(&self) -> (seed: VisualSeed)
        ensures
            seed.biography_len == encode_utf8(self.biography@).len(),
            seed.hue == byte_sum(encode_utf8(self.id@)) % 360,
            seed.hue < 360,
    {
        let bytes = self.id.as_str().as_bytes();
        let mut sum: u32 = 0;
        let mut i: usize = 0;
        while i < bytes.len()
            invariant
                i <= bytes@.len(),
                sum == byte_sum(bytes@.take(i as int)),
            decreases bytes@.len() - i,
        {
            proof {
                assert(bytes@.take(i + 1).drop_last() =~= bytes@.take(i as int));
            }
            sum = sum.wrapping_add(bytes[i] as u32);
            i += 1;
        }
        assert(bytes@.take(i as int) =~= bytes@);
        VisualSeed { biography_len: self.biography.as_str().as_bytes().len(), hue: sum % 360 }
    }

    /// The JSON object that describes the person to readers.
    pub open spec fn info(&self) -> Seq<char> {
        "{\"id\":\""@ + escaped(self.id@) + "\",\"name\":\""@ + escaped(self.name@)
            + "\",\"biography\":\""@ + escaped(self.biography@) + "\",\"lifespan\":\""@
            + escaped(lifespan(self.birth_year, self.death_year)) + "\"}"@
    }

    /// Identifier, name, biography and lifespan of the person as a JSON
    /// object of four strings.
    pub fn info_json(&self) -> (json: String)
        ensures
            json@ == self.info(),
    {
        let mut json = String::new();
        json.append("{\"id\":\"");
        json.append(escape_json(self.id.as_str()).as_str());
        json.append("\",\"name\":\"");
        json.append(escape_json(self.name.as_str()).as_str());
        json.append("\",\"biography\":\"");
        json.append(escape_json(self.biography.as_str()).as_str());
        json.append("\",\"lifespan\":\"");
        json.append(escape_json(self.lifespan_string().as_str()).as_str());
        json.append("\"}");
        assert(json@ =~= self.info());
        json
    }

    /// Lifespan as a string for display.
    pub fn lifespan_string(&self) -> (text: String)
        ensures
            text@ == lifespan(self.birth_year, self.death_year),
    {
        let mut text = String::new();
        match (self.birth_year, self.death_year) {
            (Some(b), Some(d)) => {
                push_i32(&mut text, b);
                text.append(" - ");
                push_i32(&mut text, d);
            },
            (Some(b), None) => {
                push_i32(&mut text, b);
                text.append(" - present");
            },
            (None, Some(d)) => {
                text.append("? - ");
                push_i32(&mut text, d);
            },
            (None, None) => {},
        }
        assert(text@ =~= lifespan(self.birth_year, self.death_year));
        text
    }
}

} // verus!
