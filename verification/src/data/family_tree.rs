//! The family: its people by identifier, validated on construction.

use vstd::prelude::*;
use super::person::{texts, Person, PersonView};
use vstd::string::StringExecFns;
use super::text::str_eq;

verus! {

/// Name and root of a family, as they are read.
#[derive(Debug)]
pub struct FamilyMeta {
    pub name: String,
    pub root: String,
}

/// A family as it is read: its name and root, and the list of its people.
#[derive(Debug)]
pub struct FamilyInput {
    pub family: FamilyMeta,
    pub people: Vec<Person>,
}

/// Why a family was rejected.
#[derive(Debug)]
pub enum FamilyError {
    /// No person has the identifier named as root.
    RootNotFound { root: String },
    /// `parent` names a child that no person has as identifier.
    ChildNotFound { child: String, parent: String },
}

/// A family whose root and whose every child reference resolve to a person.
#[derive(Debug)]
pub struct FamilyTree {
    name: String,
    root_id: String,
    /// The people, no two with one identifier, found by searching for the
    /// identifier: of a hash map keyed by strings nothing can be proved.
    people: Vec<Person>,
}

/// The mathematical value of a [`FamilyTree`].
pub struct FamilyModel {
    pub name: Seq<char>,
    pub root_id: Seq<char>,
    /// The people by identifier.
    pub people: Map<Seq<char>, PersonView>,
}

/// The values of a list of people.
pub open spec fn views(people: Seq<Person>) -> Seq<PersonView> {
    Seq::new(people.len(), |k: int| people[k]@)
}

/// The values of a list of borrowed people.
pub open spec fn ref_views(people: Seq<&Person>) -> Seq<PersonView> {
    Seq::new(people.len(), |k: int| people[k]@)
}

/// The people of a list by identifier; of two people with one identifier
/// the later one stays.
pub open spec fn directory(people: Seq<PersonView>) -> Map<Seq<char>, PersonView>
    decreases people.len(),
{
    if people.len() == 0 {
        Map::empty()
    } else {
        directory(people.drop_last()).insert(people.last().id, people.last())
    }
}

/// No two people of the list share an identifier.
pub open spec fn distinct(people: Seq<PersonView>) -> bool {
    forall|i: int, j: int|
        0 <= i < j < people.len() ==> (#[trigger] people[i]).id != (#[trigger] people[j]).id
}

/// Some person of the list has the identifier `id`.
pub open spec fn listed(people: Seq<PersonView>, id: Seq<char>) -> bool {
    exists|k: int| 0 <= k < people.len() && (#[trigger] people[k]).id == id
}

/// The directory knows exactly the identifiers of the list.
pub proof fn lemma_directory_dom(people: Seq<PersonView>, id: Seq<char>)
    ensures
        directory(people).dom().contains(id) <==> listed(people, id),
    decreases people.len(),
{
    if people.len() > 0 {
        let front = people.drop_last();
        lemma_directory_dom(front, id);
        if listed(front, id) {
            let k = choose|k: int| 0 <= k < front.len() && (#[trigger] front[k]).id == id;
            assert(people[k].id == id);
        }
        if listed(people, id) {
            let k = choose|k: int| 0 <= k < people.len() && (#[trigger] people[k]).id == id;
            if k < front.len() {
                assert(front[k].id == id);
            }
        }
    }
}

/// In a list without repeated identifiers, the directory holds each person
/// under their identifier, and as many people as the list.
pub proof fn lemma_directory_distinct(people: Seq<PersonView>)
    requires
        distinct(people),
    ensures
        forall|k: int|
            0 <= k < people.len() ==> directory(people)[(#[trigger] people[k]).id] == people[k],
        directory(people).dom().finite(),
        directory(people).dom().len() == people.len(),
    decreases people.len(),
{
    if people.len() > 0 {
        let front = people.drop_last();
        let last = people.last();
        assert(distinct(front)) by {
            assert forall|i: int, j: int| 0 <= i < j < front.len() implies (#[trigger] front[i]).id
                != (#[trigger] front[j]).id by {
                assert(people[i].id != people[j].id);
            }
        }
        lemma_directory_distinct(front);
        lemma_directory_dom(front, last.id);
        assert(!listed(front, last.id)) by {
            if listed(front, last.id) {
                let k = choose|k: int| 0 <= k < front.len() && (#[trigger] front[k]).id == last.id;
                assert(people[k].id != people[people.len() - 1].id);
            }
        }
        assert forall|k: int| 0 <= k < people.len() implies directory(people)[(
        #[trigger] people[k]).id] == people[k] by {
            if k < front.len() {
                assert(front[k] == people[k]);
                assert(people[k].id != people[people.len() - 1].id);
            }
        }
    }
}

impl FamilyModel {
    /// Some person has the identifier `id`.
    pub open spec fn contains(self, id: Seq<char>) -> bool {
        self.people.dom().contains(id)
    }

    /// Every child that a person names is a person of the family.
    pub open spec fn closed(self) -> bool {
        forall|id: Seq<char>, k: int|
            self.contains(id) && 0 <= k < self.people[id].children.len() ==> self.contains(
                #[trigger] self.people[id].children[k],
            )
    }

    /// The family is finite, has its root, and is closed under children.
    pub open spec fn wf(self) -> bool {
        &&& self.people.dom().finite()
        &&& self.contains(self.root_id)
        &&& self.closed()
        &&& forall|id: Seq<char>| self.contains(id) ==> (#[trigger] self.people[id]).id == id
    }

    /// The children of the person `id`, in family order; none if there is
    /// no such person.
    pub open spec fn kids(self, id: Seq<char>) -> Seq<PersonView> {
        if self.contains(id) {
            Seq::new(
                self.people[id].children.len(),
                |k: int| self.people[self.people[id].children[k]],
            )
        } else {
            Seq::empty()
        }
    }
}

impl FamilyError {
    /// The text of the message for this error.
    pub open spec fn text(&self) -> Seq<char> {
        match self {
            FamilyError::RootNotFound { root } => "Root person '"@ + root@
                + "' not found in people list"@,
            FamilyError::ChildNotFound { child, parent } => "Child '"@ + child@
                + "' referenced by '"@ + parent@ + "' not found"@,
        }
    }

    /// The error as a message for readers.
    pub fn message(&self) -> (message: String)
        ensures
            message@ == self.text(),
    {
        let mut message = String::new();
        match self {
            FamilyError::RootNotFound { root } => {
                message.append("Root person '");
                message.append(root.as_str());
                message.append("' not found in people list");
            },
            FamilyError::ChildNotFound { child, parent } => {
                message.append("Child '");
                message.append(child.as_str());
                message.append("' referenced by '");
                message.append(parent.as_str());
                message.append("' not found");
            },
        }
        assert(message@ =~= self.text());
        message
    }
}

impl FamilyModel {
    /// Number of generations on the longest line of descent from the
    /// person `id`, if no line has more than `budget` generations.
    pub open spec fn descent(self, id: Seq<char>, budget: nat) -> Option<nat>
        decreases budget, 0nat,
    {
        if budget == 0 {
            None
        } else {
            let children = self.people[id].children;
            match self.kids_descent(children, (budget - 1) as nat, children.len()) {
                Some(d) => Some(d + 1),
                None => None,
            }
        }
    }

    /// The longest of the descents of the first `upto` of `ids`, if none
    /// has more than `budget` generations.
    pub open spec fn kids_descent(self, ids: Seq<Seq<char>>, budget: nat, upto: nat) -> Option<nat>
        decreases budget, upto,
    {
        if upto == 0 || upto > ids.len() {
            Some(0)
        } else {
            match (
                self.kids_descent(ids, budget, (upto - 1) as nat),
                self.descent(ids[upto - 1], budget),
            ) {
                (Some(a), Some(b)) => Some(
                    if a >= b {
                        a
                    } else {
                        b
                    },
                ),
                _ => None,
            }
        }
    }

    /// Number of generations of the family, if no line of descent from
    /// the root has more people than the family. It has none only where some
    /// person is their own descendant.
    pub open spec fn depth(self) -> Option<nat> {
        self.descent(self.root_id, self.people.dom().len())
    }

    /// The person `parent` names `child` as a child.
    pub open spec fn child_of(self, parent: Seq<char>, child: Seq<char>) -> bool {
        exists|k: int|
            0 <= k < self.people[parent].children.len()
                && #[trigger] self.people[parent].children[k] == child
    }

    /// `line` is a line of descent: people of the family, each a child of
    /// the one before.
    pub open spec fn is_line(self, line: Seq<Seq<char>>) -> bool {
        &&& line.len() >= 1
        &&& forall|i: int| 0 <= i < line.len() ==> self.contains(#[trigger] line[i])
        &&& forall|i: int|
            0 <= i < line.len() - 1 ==> self.child_of(#[trigger] line[i], line[i + 1])
    }

    /// No person is their own descendant: no line of descent comes back to
    /// the person it began with.
    pub open spec fn grounded(self) -> bool {
        forall|line: Seq<Seq<char>>|
            #[trigger] self.is_line(line) && line.len() >= 2 ==> line.first() != line.last()
    }

    /// Where the descents of some children do not fit a budget, that of
    /// one child does not.
    pub proof fn lemma_endless_kid(self, ids: Seq<Seq<char>>, budget: nat, upto: nat) -> (k: int)
        requires
            upto <= ids.len(),
            self.kids_descent(ids, budget, upto) is None,
        ensures
            0 <= k < upto,
            self.descent(ids[k], budget) is None,
        decreases upto,
    {
        if self.descent(ids[upto - 1], budget) is None {
            upto - 1
        } else {
            self.lemma_endless_kid(ids, budget, (upto - 1) as nat)
        }
    }

    /// A descent that does not fit a budget has a line of more people than
    /// the budget.
    pub proof fn lemma_endless_line(self, id: Seq<char>, budget: nat) -> (line: Seq<Seq<char>>)
        requires
            self.wf(),
            self.contains(id),
            self.descent(id, budget) is None,
        ensures
            self.is_line(line),
            line.len() == budget + 1,
            line[0] == id,
        decreases budget,
    {
        if budget == 0 {
            seq![id]
        } else {
            let children = self.people[id].children;
            let k = self.lemma_endless_kid(children, (budget - 1) as nat, children.len());
            let child = children[k];
            assert(self.contains(child));
            let rest = self.lemma_endless_line(child, (budget - 1) as nat);
            let line = seq![id] + rest;
            assert forall|i: int| 0 <= i < line.len() implies self.contains(
                #[trigger] line[i],
            ) by {
                if i > 0 {
                    assert(line[i] == rest[i - 1]);
                }
            }
            assert forall|i: int| 0 <= i < line.len() - 1 implies self.child_of(
                #[trigger] line[i],
                line[i + 1],
            ) by {
                if i == 0 {
                    assert(line[1] == rest[0]);
                    assert(self.people[id].children[k] == child);
                } else {
                    assert(line[i] == rest[i - 1]);
                    assert(line[i + 1] == rest[i]);
                }
            }
            line
        }
    }

    /// Where no person is their own descendant, no person stands twice on
    /// a line of descent.
    pub proof fn lemma_line_distinct(self, line: Seq<Seq<char>>)
        requires
            self.grounded(),
            self.is_line(line),
        ensures
            line.no_duplicates(),
    {
        assert forall|i: int, j: int|
            0 <= i < line.len() && 0 <= j < line.len() && i != j implies line[i] != line[j] by {
            let (a, b) = if i < j { (i, j) } else { (j, i) };
            let part = line.subrange(a, b + 1);
            assert forall|x: int| 0 <= x < part.len() implies self.contains(#[trigger] part[x]) by {
                assert(part[x] == line[a + x]);
            }
            assert forall|x: int| 0 <= x < part.len() - 1 implies self.child_of(
                #[trigger] part[x],
                part[x + 1],
            ) by {
                assert(part[x] == line[a + x]);
                assert(part[x + 1] == line[a + x + 1]);
            }
            assert(self.is_line(part));
            assert(part.first() == line[a]);
            assert(part.last() == line[b]);
        }
    }

    /// In a family in which no person is their own descendant, every line
    /// of descent from the root ends: the family has a depth.
    pub proof fn lemma_grounded_has_depth(self)
        requires
            self.wf(),
            self.grounded(),
        ensures
            self.depth() is Some,
    {
        if self.depth() is None {
            let people = self.people.dom();
            let line = self.lemma_endless_line(self.root_id, people.len());
            self.lemma_line_distinct(line);
            line.unique_seq_to_set();
            assert(line.to_set().subset_of(people)) by {
                assert forall|id: Seq<char>| line.to_set().contains(id) implies people.contains(
                    id,
                ) by {
                    let i = choose|i: int| 0 <= i < line.len() && line[i] == id;
                    assert(self.contains(line[i]));
                }
            }
            vstd::set_lib::lemma_len_subset(line.to_set(), people);
        }
    }

    /// A descent that ends within a budget has no more generations than
    /// the budget, and is the same under every larger budget.
    pub proof fn lemma_descent_stable(self, id: Seq<char>, budget: nat, more: nat)
        requires
            self.descent(id, budget) is Some,
            budget <= more,
        ensures
            self.descent(id, more) == self.descent(id, budget),
            self.descent(id, budget)->0 <= budget,
        decreases budget, 0nat,
    {
        let children = self.people[id].children;
        self.lemma_kids_descent_stable(
            children,
            (budget - 1) as nat,
            (more - 1) as nat,
            children.len(),
        );
    }

    /// Descents of children that end within a budget are the same under
    /// every larger budget.
    pub proof fn lemma_kids_descent_stable(
        self,
        ids: Seq<Seq<char>>,
        budget: nat,
        more: nat,
        upto: nat,
    )
        requires
            self.kids_descent(ids, budget, upto) is Some,
            budget <= more,
        ensures
            self.kids_descent(ids, more, upto) == self.kids_descent(ids, budget, upto),
            self.kids_descent(ids, budget, upto)->0 <= budget,
        decreases budget, upto,
    {
        if !(upto == 0 || upto > ids.len()) {
            self.lemma_kids_descent_stable(ids, budget, more, (upto - 1) as nat);
            self.lemma_descent_stable(ids[upto - 1], budget, more);
        }
    }

    /// Once a child's descent runs out of budget, so does that of all the children.
    pub proof fn lemma_kids_descent_none(self, ids: Seq<Seq<char>>, budget: nat, i: nat, j: nat)
        requires
            i <= j <= ids.len(),
            self.kids_descent(ids, budget, i) is None,
        ensures
            self.kids_descent(ids, budget, j) is None,
        decreases j,
    {
        if i < j {
            self.lemma_kids_descent_none(ids, budget, i, (j - 1) as nat);
        }
    }
}

impl View for FamilyTree {
    type V = FamilyModel;

    closed spec fn view(&self) -> FamilyModel {
        FamilyModel {
            name: self.name@,
            root_id: self.root_id@,
            people: directory(views(self.people@)),
        }
    }
}

impl FamilyTree {
    #[verifier::type_invariant]
    spec fn inv(&self) -> bool {
        let people = views(self.people@);
        &&& distinct(people)
        &&& listed(people, self.root_id@)
        &&& forall|i: int, k: int|
            0 <= i < people.len() && 0 <= k < people[i].children.len() ==> listed(
                people,
                #[trigger] people[i].children[k],
            )
    }

    /// What the invariant means for the model.
    proof fn lemma_inv(&self)
        requires
            self.inv(),
        ensures
            self@.wf(),
            self@.people.dom().len() == self.people@.len(),
            forall|k: int|
                0 <= k < self.people@.len() ==> self@.contains((#[trigger] self.people@[k]).id@)
                    && self@.people[self.people@[k].id@] == self.people@[k]@,
            forall|id: Seq<char>| self@.contains(id) <==> listed(views(self.people@), id),
    {
        let people = views(self.people@);
        lemma_directory_distinct(people);
        assert forall|id: Seq<char>| self@.contains(id) <==> listed(people, id) by {
            lemma_directory_dom(people, id);
        }
        assert forall|k: int| 0 <= k < self.people@.len() implies self@.contains(
            (#[trigger] self.people@[k]).id@,
        ) && self@.people[self.people@[k].id@] == self.people@[k]@ by {
            assert(people[k] == self.people@[k]@);
            assert(listed(people, people[k].id));
        }
        assert forall|id: Seq<char>| self@.contains(id) implies (#[trigger] self@.people[id]).id
            == id by {
            lemma_directory_dom(people, id);
            let k = choose|k: int| 0 <= k < people.len() && (#[trigger] people[k]).id == id;
            assert(self@.people[people[k].id] == people[k]);
        }
        assert forall|id: Seq<char>, k: int|
            self@.contains(id) && 0 <= k < self@.people[id].children.len() implies self@.contains(
            #[trigger] self@.people[id].children[k],
        ) by {
            lemma_directory_dom(people, id);
            let i = choose|i: int| 0 <= i < people.len() && (#[trigger] people[i]).id == id;
            assert(self@.people[people[i].id] == people[i]);
            assert(listed(people, people[i].children[k]));
            lemma_directory_dom(people, people[i].children[k]);
        }
    }

    fn find_in(people: &Vec<Person>, id: &str) -> (found: Option<usize>)
        ensures
            match found {
                Some(k) => k < people@.len() && people@[k as int].id@ == id@ && forall|j: int|
                    0 <= j < k ==> people@[j].id@ != id@,
                None => !listed(views(people@), id@),
            },
    {
        let mut k: usize = 0;
        while k < people.len()
            invariant
                k <= people@.len(),
                forall|j: int| 0 <= j < k ==> people@[j].id@ != id@,
            decreases people@.len() - k,
        {
            if str_eq(people[k].id.as_str(), id) {
                return Some(k);
            }
            k += 1;
        }
        proof {
            if listed(views(people@), id@) {
                let j = choose|j: int|
                    0 <= j < views(people@).len() && (#[trigger] views(people@)[j]).id == id@;
                assert(people@[j].id@ != id@);
            }
        }
        None
    }

    /// Indexes the people of `input` by identifier, a later person
    /// replacing an earlier one with the same identifier, and checks that
    /// the root and every child that a person names are among them.
    #[verifier::rlimit(40)]
    pub fn from_input(input: FamilyInput) -> (result: Result<FamilyTree, FamilyError>)
        ensures
            ({
                let model = FamilyModel {
                    name: input.family.name@,
                    root_id: input.family.root@,
                    people: directory(views(input.people@)),
                };
                &&& result is Ok <==> model.contains(model.root_id) && model.closed()
                &&& match result {
                    Ok(tree) => tree@ == model && model.wf(),
                    Err(FamilyError::RootNotFound { root }) => root@ == model.root_id
                        && !model.contains(model.root_id),
                    Err(FamilyError::ChildNotFound { child, parent }) => {
                        &&& model.contains(model.root_id)
                        &&& model.contains(parent@)
                        &&& !model.contains(child@)
                        &&& exists|k: int|
                            0 <= k < model.people[parent@].children.len()
                                && #[trigger] model.people[parent@].children[k] == child@
                    },
                }
            }),
    {
        let ghost target = FamilyModel {
            name: input.family.name@,
            root_id: input.family.root@,
            people: directory(views(input.people@)),
        };
        let FamilyInput { family, people } = input;
        let ghost orig = views(people@);
        let mut rest = people;
        let mut kept: Vec<Person> = Vec::new();
        proof {
            assert(orig.take(orig.len() as int) =~= orig);
            assert(directory(orig).union_prefer_right(directory(views(kept@))) =~= directory(orig));
        }
        while rest.len() > 0
            invariant
                rest@.len() <= orig.len(),
                views(rest@) == orig.take(rest@.len() as int),
                distinct(views(kept@)),
                directory(orig) == directory(orig.take(rest@.len() as int)).union_prefer_right(
                    directory(views(kept@)),
                ),
            decreases rest@.len(),
        {
            let ghost n = rest@.len() as int;
            let ghost before = views(kept@);
            let ghost full = rest@;
            let person = rest.pop().unwrap();
            proof {
                assert(person@ == views(full)[n - 1]);
                assert(person@ == orig.take(n)[n - 1]);
                assert(orig.take(n).drop_last() =~= orig.take(n - 1));
                assert(views(rest@) =~= orig.take(n - 1));
                lemma_directory_dom(before, person.id@);
                assert(directory(orig.take(n)) == directory(orig.take(n - 1)).insert(
                    person@.id,
                    person@,
                ));
            }
            match Self::find_in(&kept, person.id.as_str()) {
                Some(at) => {
                    proof {
                        assert(before[at as int].id == person@.id);
                        assert(listed(before, person@.id));
                        assert(directory(orig.take(n)).union_prefer_right(directory(before))
                            =~= directory(orig.take(n - 1)).union_prefer_right(directory(before)));
                    }
                },
                None => {
                    kept.push(person);
                    proof {
                        let after = views(kept@);
                        assert(after.drop_last() =~= before);
                        assert(after.last() == person@);
                        assert(distinct(after)) by {
                            assert forall|i: int, j: int| 0 <= i < j < after.len() implies (
                            #[trigger] after[i]).id != (#[trigger] after[j]).id by {
                                if j < before.len() {
                                    assert(before[i].id != before[j].id);
                                } else {
                                    assert(before[i] == after[i]);
                                }
                            }
                        }
                        assert(directory(orig.take(n)).union_prefer_right(directory(before))
                            =~= directory(orig.take(n - 1)).union_prefer_right(directory(after)));
                    }
                },
            }
        }
        let ghost people = views(kept@);
        proof {
            assert(directory(orig.take(0)).union_prefer_right(directory(people)) =~= directory(
                people,
            ));
            lemma_directory_distinct(people);
            assert forall|id: Seq<char>| directory(people).dom().contains(id) <==> listed(
                people,
                id,
            ) by {
                lemma_directory_dom(people, id);
            }
        }
        let ghost model = FamilyModel {
            name: family.name@,
            root_id: family.root@,
            people: directory(people),
        };
        assert(model == target);
        match Self::find_in(&kept, family.root.as_str()) {
            Some(at) => {
                assert(people[at as int].id == family.root@);
                assert(listed(people, family.root@));
            },
            None => {
                return Err(FamilyError::RootNotFound { root: family.root });
            },
        }
        let mut i: usize = 0;
        while i < kept.len()
            invariant
                i <= kept@.len(),
                people == views(kept@),
                forall|a: int, k: int|
                    0 <= a < i && 0 <= k < people[a].children.len() ==> listed(
                        people,
                        #[trigger] people[a].children[k],
                    ),
                model.people == directory(people),
                model.root_id == family.root@,
                model.contains(model.root_id),
                model == target,
                target == (FamilyModel {
                    name: input.family.name@,
                    root_id: input.family.root@,
                    people: directory(views(input.people@)),
                }),
                distinct(people),
                forall|id: Seq<char>| directory(people).dom().contains(id) <==> listed(people, id),
                forall|k: int|
                    0 <= k < people.len() ==> directory(people)[(#[trigger] people[k]).id]
                        == people[k],
            decreases kept@.len() - i,
        {
            let person = &kept[i];
            assert(person@ == people[i as int]);
            let mut k: usize = 0;
            while k < person.children.len()
                invariant
                    k <= person.children@.len(),
                    i < kept@.len(),
                    person@ == people[i as int],
                    people == views(kept@),
                    forall|j: int|
                        0 <= j < k ==> listed(people, #[trigger] people[i as int].children[j]),
                    model.people == directory(people),
                    model.root_id == family.root@,
                    model.contains(model.root_id),
                    model == target,
                    target == (FamilyModel {
                        name: input.family.name@,
                        root_id: input.family.root@,
                        people: directory(views(input.people@)),
                    }),
                    forall|id: Seq<char>|
                        directory(people).dom().contains(id) <==> listed(people, id),
                    forall|k: int|
                        0 <= k < people.len() ==> directory(people)[(#[trigger] people[k]).id]
                            == people[k],
                decreases person.children@.len() - k,
            {
                assert(person@.children[k as int] == person.children@[k as int]@);
                match Self::find_in(&kept, person.children[k].as_str()) {
                    Some(at) => {
                        assert(people[at as int].id == person@.children[k as int]);
                        assert(listed(people, people[i as int].children[k as int]));
                    },
                    None => {
                        proof {
                            let child = person@.children[k as int];
                            assert(listed(people, person@.id));
                            assert(model.contains(person@.id));
                            assert(model.people[person@.id] == person@);
                            assert(!model.contains(child));
                            assert(model.people[person@.id].children[k as int] == child);
                            assert(!model.closed());
                        }
                        let child = person.children[k].clone();
                        let parent = person.id.clone();
                        proof {
                            assert(parent@ == person@.id);
                            assert(child@ == person@.children[k as int]);
                            assert(target.contains(target.root_id));
                            assert(target.contains(parent@));
                            assert(!target.contains(child@));
                            assert(0 <= k < target.people[parent@].children.len());
                            assert(target.people[parent@].children[k as int] == child@);
                            assert(!target.closed());
                        }
                        return Err(FamilyError::ChildNotFound { child, parent });
                    },
                }
                k += 1;
            }
            i += 1;
        }
        let tree = FamilyTree { name: family.name, root_id: family.root, people: kept };
        proof {
            assert(tree.inv());
            tree.lemma_inv();
            assert(tree@.people =~= model.people);
        }
        Ok(tree)
    }

    /// The name of the family.
    pub fn name(&self) -> (name: &str)
        ensures
            name@ == self@.name,
    {
        self.name.as_str()
    }

    /// The identifier of the root person.
    pub fn root_id(&self) -> (id: &str)
        ensures
            id@ == self@.root_id,
    {
        self.root_id.as_str()
    }

    /// The person with the identifier `id`, if there is one.
    pub fn get(&self, id: &str) -> (person: Option<&Person>)
        ensures
            self@.wf(),
            match person {
                Some(p) => self@.contains(id@) && p@ == self@.people[id@],
                None => !self@.contains(id@),
            },
    {
        proof {
            use_type_invariant(self);
            self.lemma_inv();
        }
        match Self::find_in(&self.people, id) {
            Some(k) => Some(&self.people[k]),
            None => None,
        }
    }

    /// The root person. A family always has one.
    pub fn root(&self) -> (person: Option<&Person>)
        ensures
            self@.wf(),
            person matches Some(p) && p@ == self@.people[self@.root_id],
    {
        self.get(self.root_id.as_str())
    }

    /// The children of the person `id`, in family order.
    pub fn children_of(&self, id: &str) -> (children: Vec<&Person>)
        ensures
            self@.wf(),
            ref_views(children@) == self@.kids(id@),
    {
        proof {
            use_type_invariant(self);
            self.lemma_inv();
        }
        let mut children: Vec<&Person> = Vec::new();
        let parent = match Self::find_in(&self.people, id) {
            Some(k) => &self.people[k],
            None => {
                assert(ref_views(children@) =~= self@.kids(id@));
                return children;
            },
        };
        let mut k: usize = 0;
        while k < parent.children.len()
            invariant
                k <= parent.children@.len(),
                self.inv(),
                self@.wf(),
                self@.contains(id@),
                parent@ == self@.people[id@],
                children@.len() == k,
                forall|j: int|
                    0 <= j < k ==> (#[trigger] children@[j])@
                        == self@.people[parent@.children[j]],
            decreases parent.children@.len() - k,
        {
            proof {
                self.lemma_inv();
                assert(parent@.children[k as int] == parent.children@[k as int]@);
                assert(self@.contains(parent@.children[k as int]));
            }
            match Self::find_in(&self.people, parent.children[k].as_str()) {
                Some(j) => {
                    children.push(&self.people[j]);
                },
                None => {},
            }
            k += 1;
        }
        assert(ref_views(children@) =~= self@.kids(id@));
        children
    }

    fn depth_within(&self, person: &Person, budget: usize) -> (depth: Option<usize>)
        requires
            self@.contains(person.id@),
            self@.people[person.id@] == person@,
        ensures
            match depth {
                Some(d) => self@.descent(person.id@, budget as nat) == Some(d as nat) && d
                    <= budget,
                None => self@.descent(person.id@, budget as nat) is None,
            },
        decreases budget,
    {
        if budget == 0 {
            return None;
        }
        let kids = self.children_of(person.id.as_str());
        let ghost ids = person@.children;
        assert(ref_views(kids@).len() == kids@.len());
        let mut deepest: usize = 0;
        let mut k: usize = 0;
        while k < kids.len()
            invariant
                k <= kids@.len(),
                budget > 0,
                self@.wf(),
                self@.contains(person.id@),
                self@.people[person.id@] == person@,
                ids == person@.children,
                ref_views(kids@) == self@.kids(person.id@),
                kids@.len() == ids.len(),
                self@.kids_descent(ids, (budget - 1) as nat, k as nat) == Some(deepest as nat),
                deepest <= budget - 1,
            decreases kids@.len() - k,
        {
            let kid = kids[k];
            proof {
                assert(self@.kids(person.id@)[k as int] == self@.people[ids[k as int]]);
                assert(ref_views(kids@)[k as int] == kid@);
                assert(self@.contains(ids[k as int]));
                assert(kid@.id == ids[k as int]);
            }
            match self.depth_within(kid, budget - 1) {
                Some(d) => {
                    if d > deepest {
                        deepest = d;
                    }
                },
                None => {
                    proof {
                        self@.lemma_kids_descent_none(
                            ids,
                            (budget - 1) as nat,
                            (k + 1) as nat,
                            ids.len(),
                        );
                    }
                    return None;
                },
            }
            k += 1;
        }
        Some(deepest + 1)
    }

    /// Number of generations on the longest line of descent from the
    /// root, which counts as the first; 0 if a line of descent has more
    /// people than the family, which happens only where some person is
    /// their own descendant.
    pub fn max_depth(&self) -> (depth: usize)
        ensures
            match self@.depth() {
                Some(d) => depth == d && d >= 1,
                None => depth == 0,
            },
            self@.grounded() ==> depth >= 1,
    {
        proof {
            use_type_invariant(self);
            self.lemma_inv();
            if self@.grounded() {
                self@.lemma_grounded_has_depth();
            }
        }
        let root = match self.root() {
            Some(root) => root,
            None => {
                return 0;
            },
        };
        match self.depth_within(root, self.len()) {
            Some(d) => d,
            None => 0,
        }
    }

    /// Walks the family in pre-order, the root first.
    pub fn iter_preorder(&self) -> (iter: PreorderIter<'_>)
        ensures
            iter.family() == self@,
            iter.pending() == seq![self@.root_id],
            iter.resolvable(),
    {
        proof {
            use_type_invariant(self);
            self.lemma_inv();
        }
        let mut stack: Vec<String> = Vec::new();
        stack.push(self.root_id.clone());
        let iter = PreorderIter { tree: self, stack };
        assert(iter.pending() =~= seq![self@.root_id]);
        iter
    }

    /// Number of people in the family.
    pub fn len(&self) -> (n: usize)
        ensures
            n == self@.people.dom().len(),
            n >= 1,
    {
        proof {
            use_type_invariant(self);
            self.lemma_inv();
            let k = choose|k: int|
                0 <= k < views(self.people@).len() && (#[trigger] views(self.people@)[k]).id
                    == self.root_id@;
        }
        self.people.len()
    }

    /// Whether the family has no people, which a family never is: it has its root.
    pub fn is_empty(&self) -> (empty: bool)
        ensures
            empty == (self@.people.dom().len() == 0),
            !empty,
    {
        self.len() == 0
    }
}

/// A pre-order walk over a family: each person before their children,
/// the children in family order.
pub struct PreorderIter<'a> {
    tree: &'a FamilyTree,
    stack: Vec<String>,
}

impl<'a> PreorderIter<'a> {
    /// The family that is walked.
    pub closed spec fn family(&self) -> FamilyModel {
        self.tree@
    }

    /// The identifiers still to be visited with their descendants; the
    /// last one is next.
    pub closed spec fn pending(&self) -> Seq<Seq<char>> {
        texts(self.stack@)
    }

    /// Every pending identifier is that of a person of the family.
    pub open spec fn resolvable(&self) -> bool {
        forall|k: int|
            0 <= k < self.pending().len() ==> self.family().contains(#[trigger] self.pending()[k])
    }

    /// The next person of the walk, whose children are visited next, or
    /// `None` when the walk is over. A walk over pending identifiers that
    /// are all known ends only when none is left.
    #[verifier::rlimit(40)]
    pub fn next(&mut self) -> (person: Option<&'a Person>)
        ensures
            final(self).family() == old(self).family(),
            old(self).resolvable() ==> final(self).resolvable(),
            match person {
                None => if old(self).pending().len() == 0 {
                    final(self).pending() == old(self).pending()
                } else {
                    &&& !old(self).family().contains(old(self).pending().last())
                    &&& final(self).pending() == old(self).pending().drop_last()
                },
                Some(p) => {
                    &&& old(self).pending().len() > 0
                    &&& old(self).family().contains(old(self).pending().last())
                    &&& p@ == old(self).family().people[old(self).pending().last()]
                    &&& final(self).pending() == old(self).pending().drop_last()
                        + p@.children.reverse()
                },
            },
    {
        let tree: &'a FamilyTree = self.tree;
        proof {
            use_type_invariant(tree);
            tree.lemma_inv();
        }
        if self.stack.len() == 0 {
            return None;
        }
        let ghost before = self.stack@;
        let id = match self.stack.pop() {
            Some(id) => id,
            None => {
                return None;
            },
        };
        assert(id@ == texts(before).last());
        let person = match FamilyTree::find_in(&tree.people, id.as_str()) {
            Some(at) => &tree.people[at],
            None => {
                return None;
            },
        };
        assert(texts(self.stack@) =~= texts(before).drop_last());
        let ghost rest = self.stack@;
        let mut k: usize = person.children.len();
        while k > 0
            invariant
                k <= person.children@.len(),
                tree == self.tree,
                tree.inv(),
                tree@.contains(person.id@),
                tree@.people[person.id@] == person@,
                tree@.wf(),
                texts(self.stack@) == texts(rest) + person@.children.reverse().take(
                    person.children@.len() - k,
                ),
            decreases k,
        {
            k -= 1;
            proof {
                assert(person@.children[k as int] == person.children@[k as int]@);
                assert(tree@.contains(person@.children[k as int]));
            }
            let ghost prev = self.stack@;
            self.stack.push(person.children[k].clone());
            proof {
                let n = person.children@.len() as int;
                let turned = person@.children.reverse();
                assert(turned.len() == n);
                assert(turned[n - 1 - k] == person@.children[k as int]);
                assert(texts(self.stack@) =~= texts(prev).push(person@.children[k as int]));
                assert(turned.take(n - k) =~= turned.take(n - k - 1).push(turned[n - 1 - k]));
                assert(texts(self.stack@) =~= texts(rest) + turned.take(n - k));
            }
        }
        proof {
            assert(person@.children.reverse().take(person.children@.len() as int)
                =~= person@.children.reverse());
        }
        Some(person)
    }
}

} // verus!
