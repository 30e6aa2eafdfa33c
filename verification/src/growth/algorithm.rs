//! The branch skeleton grown from a family.

use vstd::prelude::*;
use vstd::string::{StringExecFns, StringSliceAdditionalSpecFns};
use vstd::utf8::encode_utf8;
use crate::data::family_tree::{FamilyModel, FamilyTree};
use crate::data::person::{byte_sum, Person, VisualSeed};
use crate::data::text::{digits, push_decimal};
use super::hash::{hash_bytes, hash_string};

verus! {

/// The pseudo-random draws that shape the branch of a family member.
#[derive(Clone, Copy, Debug, PartialEq, Eq, Structural)]
pub struct MemberDraws {
    /// Turn about the vertical axis.
    pub heading: u32,
    /// Tilt up or down.
    pub pitch: u32,
    /// Variation of the angle at which the branch leaves its parent.
    pub spread: u32,
    /// Variation of the elevation at which it leaves.
    pub elevation: u32,
}

/// The pseudo-random draws that place a twig on its branch.
#[derive(Clone, Copy, Debug, PartialEq, Eq, Structural)]
pub struct TwigDraws {
    /// Where along the branch the twig starts.
    pub position: u32,
    /// Where around the branch axis it points.
    pub direction: u32,
    pub pitch: u32,
}

/// What a branch stands for.
#[derive(Clone, Copy, Debug, PartialEq, Eq, Structural)]
pub enum Origin {
    /// A member of the family, child number `index` of `siblings` children
    /// (the root is child 0 of 1).
    Member { index: usize, siblings: usize, visual: VisualSeed, draws: MemberDraws },
    /// Decorative twig number `index` of a leaf branch.
    Twig { index: usize, placing: TwigDraws },
}

/// How the children of a branch leave it.
#[derive(Clone, Copy, Debug, PartialEq, Eq, Structural)]
pub enum Arrangement {
    /// An only child continues its parent almost straight.
    Straight,
    /// Two children split to opposite sides.
    Fork,
    /// More children are placed around the parent, each a golden angle
    /// after the one before.
    Radial,
}

impl Arrangement {
    /// The arrangement of `siblings` children.
    pub open spec fn spec_of(siblings: usize) -> Arrangement {
        if siblings <= 1 {
            Arrangement::Straight
        } else if siblings == 2 {
            Arrangement::Fork
        } else {
            Arrangement::Radial
        }
    }

    /// The arrangement of `siblings` children.
    pub fn of(siblings: usize) -> (arrangement: Arrangement)
        ensures
            arrangement == Self::spec_of(siblings),
    {
        if siblings <= 1 {
            Arrangement::Straight
        } else if siblings == 2 {
            Arrangement::Fork
        } else {
            Arrangement::Radial
        }
    }
}

/// A node of the grown tree. A parent owns its children.
#[derive(Debug)]
pub struct BranchNode {
    /// Identifier of the person, or of the twig.
    pub person_id: String,
    pub origin: Origin,
    /// Depth below the root, which has generation 0.
    pub generation: usize,
    /// Children in family order; twigs only on branches without children.
    pub children: Vec<BranchNode>,
}

/// The mathematical value of a [`BranchNode`].
pub struct BranchModel {
    pub person_id: Seq<char>,
    pub origin: Origin,
    pub generation: usize,
    pub children: Seq<BranchModel>,
}

impl View for BranchNode {
    type V = BranchModel;

    open spec fn view(&self) -> BranchModel {
        self.model()
    }
}

impl BranchNode {
    /// The node as a mathematical tree.
    pub open spec fn model(&self) -> BranchModel
        decreases self,
    {
        BranchModel {
            person_id: self.person_id@,
            origin: self.origin,
            generation: self.generation,
            children: Seq::new(
                self.children@.len(),
                |i: int|
                    if 0 <= i < self.children@.len() {
                        self.children@[i].model()
                    } else {
                        arbitrary()
                    },
            ),
        }
    }

    /// The model of a node holds the models of its children, in order.
    pub proof fn lemma_view(&self)
        ensures
            self@.person_id == self.person_id@,
            self@.origin == self.origin,
            self@.generation == self.generation,
            self@.children.len() == self.children@.len(),
            forall|i: int|
                0 <= i < self.children@.len() ==> (#[trigger] self@.children[i])
                    == self.children@[i]@,
    {
    }
}

impl BranchModel {
    /// Number of nodes in the subtree.
    pub open spec fn count(self) -> nat
        decreases self, self.children.len() + 1,
    {
        1 + self.kids_count(self.children.len())
    }

    /// Number of nodes in the subtrees of the first `upto` children.
    pub open spec fn kids_count(self, upto: nat) -> nat
        decreases self, upto,
    {
        if upto == 0 || upto > self.children.len() {
            0
        } else {
            self.kids_count((upto - 1) as nat) + self.children[upto - 1].count()
        }
    }

    /// The nodes of the subtree, each before its children.
    pub open spec fn preorder(self) -> Seq<BranchModel>
        decreases self, self.children.len() + 1,
    {
        seq![self] + self.kids_preorder(self.children.len())
    }

    /// The nodes in the subtrees of the first `upto` children.
    pub open spec fn kids_preorder(self, upto: nat) -> Seq<BranchModel>
        decreases self, upto,
    {
        if upto == 0 || upto > self.children.len() {
            Seq::empty()
        } else {
            self.kids_preorder((upto - 1) as nat) + self.children[upto - 1].preorder()
        }
    }

    /// The pre-order walk visits every node once.
    pub proof fn lemma_preorder_len(self)
        ensures
            self.preorder().len() == self.count(),
        decreases self, self.children.len() + 1,
    {
        self.lemma_kids_preorder_len(self.children.len());
    }

    /// The walk over the first `upto` children's subtrees visits each of their nodes once.
    pub proof fn lemma_kids_preorder_len(self, upto: nat)
        requires
            upto <= self.children.len(),
        ensures
            self.kids_preorder(upto).len() == self.kids_count(upto),
        decreases self, upto,
    {
        if upto > 0 {
            self.lemma_kids_preorder_len((upto - 1) as nat);
            self.children[upto - 1].lemma_preorder_len();
        }
    }

    /// More children mean more nodes.
    pub proof fn lemma_kids_count_grows(self, i: nat, j: nat)
        requires
            i <= j <= self.children.len(),
        ensures
            self.kids_count(i) <= self.kids_count(j),
        decreases j,
    {
        if i < j {
            self.lemma_kids_count_grows(i, (j - 1) as nat);
        }
    }
}

/// The models of a list of nodes.
pub open spec fn models(nodes: Seq<&BranchNode>) -> Seq<BranchModel> {
    Seq::new(nodes.len(), |k: int| nodes[k]@)
}

impl BranchNode {
    fn collect_preorder<'a>(&'a self, out: &mut Vec<&'a BranchNode>)
        ensures
            models(final(out)@) == models(old(out)@) + self@.preorder(),
        decreases self,
    {
        proof {
            self.lemma_view();
        }
        out.push(self);
        assert(models(out@) =~= models(old(out)@) + seq![self@]);
        let mut i: usize = 0;
        while i < self.children.len()
            invariant
                i <= self.children@.len(),
                self@.children.len() == self.children@.len(),
                models(out@) == models(old(out)@) + seq![self@] + self@.kids_preorder(i as nat),
            decreases self.children@.len() - i,
        {
            proof {
                self.lemma_view();
            }
            self.children[i].collect_preorder(out);
            i += 1;
            assert(models(out@) =~= models(old(out)@) + seq![self@] + self@.kids_preorder(
                i as nat,
            ));
        }
        assert(models(out@) =~= models(old(out)@) + self@.preorder());
    }

    /// All nodes of the subtree in pre-order: this node, then its children
    /// with their subtrees, in order.
    pub fn iter_preorder(&self) -> (nodes: Vec<&BranchNode>)
        ensures
            models(nodes@) == self@.preorder(),
    {
        let mut nodes: Vec<&BranchNode> = Vec::new();
        self.collect_preorder(&mut nodes);
        assert(models(nodes@) =~= self@.preorder());
        nodes
    }

    /// Total number of nodes in the subtree.
    pub fn count(&self) -> (n: usize)
        ensures
            n == self@.count(),
    {
        let nodes = self.iter_preorder();
        proof {
            self@.lemma_preorder_len();
            assert(models(nodes@).len() == nodes@.len());
        }
        nodes.len()
    }
}

/// The text `text` holds the text `part` somewhere.
pub open spec fn holds(text: Seq<char>, part: Seq<char>) -> bool {
    exists|i: int|
        0 <= i && i + part.len() <= text.len() && #[trigger] text.subrange(i, i + part.len())
            == part
}

/// The models of a list of owned nodes.
pub open spec fn owned_models(nodes: Seq<BranchNode>) -> Seq<BranchModel> {
    Seq::new(nodes.len(), |k: int| nodes[k]@)
}

/// What of the growth does not depend on the family: whether leaf
/// branches carry twigs, how many, and from which generation on.
#[derive(Clone, Copy, Debug)]
pub struct GrowthParams {
    /// Whether branches without children carry decorative twigs.
    pub generate_twigs: bool,
    /// Twigs per leaf branch; no more than 4 are made.
    pub twigs_per_branch: usize,
    /// First generation whose leaf branches carry twigs.
    pub twig_min_generation: usize,
}

impl Default for GrowthParams {
    fn default() -> (params: Self)
        ensures
            params.generate_twigs,
            params.twigs_per_branch == 2,
            params.twig_min_generation == 1,
    {
        GrowthParams { generate_twigs: true, twigs_per_branch: 2, twig_min_generation: 1 }
    }
}

/// Most twigs that a branch can carry.
pub const MAX_TWIGS: usize = 4;

/// Grows the branch skeleton of a family.
pub struct TreeGrowth {
    pub params: GrowthParams,
    seed: u32,
}

impl TreeGrowth {
    /// The seed of every draw.
    pub closed spec fn seed(&self) -> u32 {
        self.seed
    }

    /// The parameters of the growth.
    pub closed spec fn config(&self) -> GrowthParams {
        self.params
    }

    /// The hash of `key` continued with the bytes of `suffix`: the hash of
    /// the key with the suffix appended.
    pub open spec fn keyed(h: u32, suffix: Seq<char>) -> u32 {
        hash_bytes(h, encode_utf8(suffix))
    }

    /// The draws for the family member `id`, each from its own key: the
    /// identifier itself, and the identifier followed by `pitch`,
    /// `spread` and `elev`.
    pub open spec fn member_draws(&self, id: Seq<char>) -> MemberDraws {
        let h = Self::keyed(self.seed(), id);
        MemberDraws {
            heading: h,
            pitch: Self::keyed(h, "pitch"@),
            spread: Self::keyed(h, "spread"@),
            elevation: Self::keyed(h, "elev"@),
        }
    }

    /// The draws for twig `i` of the branch `parent`, each from its own
    /// key: the parent's identifier followed by `twig` and the twig's
    /// number, and that followed by `dir` and by `pitch`.
    pub open spec fn twig_draws(&self, parent: Seq<char>, i: nat) -> TwigDraws {
        let h = Self::keyed(Self::keyed(Self::keyed(self.seed(), parent), "twig"@), digits(i));
        TwigDraws {
            position: h,
            direction: Self::keyed(h, "dir"@),
            pitch: Self::keyed(h, "pitch"@),
        }
    }

    /// Twig `i` of the branch `parent` of generation `generation`.
    pub open spec fn twig(&self, parent: Seq<char>, generation: nat, i: nat) -> BranchModel {
        BranchModel {
            person_id: parent + "__twig"@ + digits(i),
            origin: Origin::Twig { index: i as usize, placing: self.twig_draws(parent, i) },
            generation: (generation + 2) as usize,
            children: Seq::empty(),
        }
    }

    /// The twigs of the branch `parent`: as many as the parameters ask
    /// for, at most 4.
    pub open spec fn twigs(&self, parent: Seq<char>, generation: nat) -> Seq<BranchModel> {
        let n = if self.config().twigs_per_branch <= MAX_TWIGS {
            self.config().twigs_per_branch
        } else {
            MAX_TWIGS
        };
        Seq::new(n as nat, |i: int| self.twig(parent, generation, i as nat))
    }

    /// The children of a branch whose person has no children: twigs where
    /// the parameters ask for them from this generation on, else none.
    pub open spec fn leaf_children(&self, parent: Seq<char>, generation: nat) -> Seq<BranchModel> {
        if self.config().generate_twigs && generation >= self.config().twig_min_generation {
            self.twigs(parent, generation)
        } else {
            Seq::empty()
        }
    }

    /// What the branch of the person `id` stands for, as child `index` of `siblings`.
    pub open spec fn member_origin(
        &self,
        family: FamilyModel,
        id: Seq<char>,
        index: nat,
        siblings: nat,
    ) -> Origin {
        Origin::Member {
            index: index as usize,
            siblings: siblings as usize,
            visual: VisualSeed {
                biography_len: encode_utf8(family.people[id].biography).len() as usize,
                hue: (byte_sum(encode_utf8(id)) % 360) as u32,
            },
            draws: self.member_draws(id),
        }
    }

    /// `node` is the branch grown for the person `id` of `family` at
    /// generation `generation`, as child `index` of `siblings`: it carries
    /// the person's identifier and draws, one such branch for each child of
    /// the person, in family order and one generation on, or, for a person
    /// without children, the twigs of a leaf.
    pub open spec fn grown(
        &self,
        node: BranchModel,
        family: FamilyModel,
        id: Seq<char>,
        generation: nat,
        index: nat,
        siblings: nat,
    ) -> bool
        decreases node,
    {
        let kids = family.people[id].children;
        &&& node.person_id == id
        &&& node.generation == generation
        &&& node.origin == self.member_origin(family, id, index, siblings)
        &&& if kids.len() == 0 {
            node.children == self.leaf_children(id, generation)
        } else {
            &&& node.children.len() == kids.len()
            &&& forall|k: int|
                0 <= k < node.children.len() ==> self.grown(
                    #[trigger] node.children[k],
                    family,
                    kids[k],
                    generation + 1,
                    k as nat,
                    kids.len(),
                )
        }
    }

    /// Where no person's identifier holds `__twig`, no twig has the
    /// identifier of a person.
    pub proof fn lemma_twig_is_no_member(
        &self,
        family: FamilyModel,
        parent: Seq<char>,
        generation: nat,
        i: nat,
    )
        requires
            forall|id: Seq<char>| family.contains(id) ==> !holds(id, "__twig"@),
        ensures
            !family.contains(self.twig(parent, generation, i).person_id),
    {
        let mark = "__twig"@;
        let id = parent + mark + digits(i);
        let at = parent.len() as int;
        assert(id.subrange(at, at + mark.len()) =~= mark);
        assert(holds(id, mark));
    }

    /// For a fixed family, parameters and seed there is one grown tree.
    pub proof fn lemma_grown_unique(
        &self,
        a: BranchModel,
        b: BranchModel,
        family: FamilyModel,
        id: Seq<char>,
        generation: nat,
        index: nat,
        siblings: nat,
    )
        requires
            self.grown(a, family, id, generation, index, siblings),
            self.grown(b, family, id, generation, index, siblings),
        ensures
            a == b,
        decreases a,
    {
        let kids = family.people[id].children;
        if kids.len() > 0 {
            assert forall|k: int| 0 <= k < a.children.len() implies a.children[k]
                == b.children[k] by {
                self.lemma_grown_unique(
                    a.children[k],
                    b.children[k],
                    family,
                    kids[k],
                    generation + 1,
                    k as nat,
                    kids.len(),
                );
            }
            assert(a.children =~= b.children);
        }
    }

    /// A growth with the seed 42.
    pub fn new(params: GrowthParams) -> (growth: Self)
        ensures
            growth.config() == params,
            growth.seed() == 42,
    {
        TreeGrowth { params, seed: 42 }
    }

    /// The same growth with another seed.
    pub fn with_seed(self, seed: u32) -> (growth: Self)
        ensures
            growth.config() == self.config(),
            growth.seed() == seed,
    {
        let mut growth = self;
        growth.seed = seed;
        growth
    }

    /// The hash of `s` under this growth's seed.
    pub fn hash_string(&self, s: &str) -> (h: u32)
        ensures
            h == Self::keyed(self.seed(), s@),
    {
        hash_string(self.seed, s)
    }

    fn draw_member(&self, id: &str) -> (draws: MemberDraws)
        ensures
            draws == self.member_draws(id@),
    {
        let h = self.hash_string(id);
        MemberDraws {
            heading: h,
            pitch: hash_string(h, "pitch"),
            spread: hash_string(h, "spread"),
            elevation: hash_string(h, "elev"),
        }
    }

    /// The decorative twigs of the leaf branch `parent_id`.
    fn generate_twigs(&self, parent_id: &str, generation: usize) -> (twigs: Vec<BranchNode>)
        requires
            generation + 2 <= usize::MAX,
        ensures
            owned_models(twigs@) == self.twigs(parent_id@, generation as nat),
    {
        let mut twigs: Vec<BranchNode> = Vec::new();
        let num_twigs = if self.params.twigs_per_branch <= MAX_TWIGS {
            self.params.twigs_per_branch
        } else {
            MAX_TWIGS
        };
        let stem = hash_string(self.hash_string(parent_id), "twig");
        let mut i: usize = 0;
        while i < num_twigs
            invariant
                i <= num_twigs,
                num_twigs <= MAX_TWIGS,
                generation + 2 <= usize::MAX,
                stem == Self::keyed(Self::keyed(self.seed(), parent_id@), "twig"@),
                twigs@.len() == i,
                forall|k: int|
                    0 <= k < i ==> (#[trigger] twigs@[k])@ == self.twig(
                        parent_id@,
                        generation as nat,
                        k as nat,
                    ),
            decreases num_twigs - i,
        {
            let mut number = String::new();
            push_decimal(&mut number, i as u64);
            assert(number@ =~= digits(i as nat));
            let position = hash_string(stem, number.as_str());
            let placing = TwigDraws {
                position,
                direction: hash_string(position, "dir"),
                pitch: hash_string(position, "pitch"),
            };
            let mut person_id = parent_id.to_owned();
            person_id.append("__twig");
            person_id.append(number.as_str());
            let twig = BranchNode {
                person_id,
                origin: Origin::Twig { index: i, placing },
                generation: generation + 2,
                children: Vec::new(),
            };
            proof {
                twig.lemma_view();
                assert(twig@.children =~= Seq::empty());
                assert(twig@.person_id =~= parent_id@ + "__twig"@ + digits(i as nat));
            }
            twigs.push(twig);
            i += 1;
        }
        assert(owned_models(twigs@) =~= self.twigs(parent_id@, generation as nat));
        twigs
    }

    #[verifier::rlimit(40)]
    fn grow_children(
        &self,
        family: &FamilyTree,
        children: &Vec<&Person>,
        parent_generation: usize,
        budget: usize,
    ) -> (grown: Option<Vec<BranchNode>>)
        requires
            family@.wf(),
            family@.people.dom().len() < usize::MAX,
            parent_generation + 1 + budget <= family@.people.dom().len(),
            forall|k: int|
                0 <= k < children@.len() ==> family@.contains((#[trigger] children@[k]).id@)
                    && family@.people[children@[k].id@] == children@[k]@,
        ensures
            match grown {
                Some(nodes) => {
                    &&& family@.kids_descent(
                        Seq::new(children@.len(), |k: int| children@[k].id@),
                        budget as nat,
                        children@.len(),
                    ) is Some
                    &&& nodes@.len() == children@.len()
                    &&& forall|k: int|
                        0 <= k < nodes@.len() ==> self.grown(
                            (#[trigger] nodes@[k])@,
                            family@,
                            children@[k].id@,
                            (parent_generation + 1) as nat,
                            k as nat,
                            children@.len(),
                        )
                },
                None => family@.kids_descent(
                    Seq::new(children@.len(), |k: int| children@[k].id@),
                    budget as nat,
                    children@.len(),
                ) is None,
            },
        decreases budget, 1nat,
    {
        let n = children.len();
        let ghost ids = Seq::new(children@.len(), |k: int| children@[k].id@);
        let mut nodes: Vec<BranchNode> = Vec::new();
        if n == 0 {
            return Some(nodes);
        }
        let next_gen = parent_generation + 1;
        let mut i: usize = 0;
        while i < n
            invariant
                i <= n,
                n == children@.len(),
                next_gen == parent_generation + 1,
                family@.wf(),
                family@.people.dom().len() < usize::MAX,
                next_gen + budget <= family@.people.dom().len(),
                ids == Seq::new(children@.len(), |k: int| children@[k].id@),
                forall|k: int|
                    0 <= k < children@.len() ==> family@.contains((#[trigger] children@[k]).id@)
                        && family@.people[children@[k].id@] == children@[k]@,
                family@.kids_descent(ids, budget as nat, i as nat) is Some,
                nodes@.len() == i,
                forall|k: int|
                    0 <= k < i ==> self.grown(
                        (#[trigger] nodes@[k])@,
                        family@,
                        children@[k].id@,
                        next_gen as nat,
                        k as nat,
                        n as nat,
                    ),
            decreases n - i,
        {
            let child = children[i];
            assert(ids[i as int] == child.id@);
            match self.grow_branch(family, child, next_gen, i, n, budget) {
                Some(node) => {
                    nodes.push(node);
                },
                None => {
                    proof {
                        family@.lemma_kids_descent_none(
                            ids,
                            budget as nat,
                            (i + 1) as nat,
                            n as nat,
                        );
                    }
                    return None;
                },
            }
            i += 1;
        }
        Some(nodes)
    }

    #[verifier::rlimit(40)]
    fn grow_branch(
        &self,
        family: &FamilyTree,
        person: &Person,
        generation: usize,
        index: usize,
        siblings: usize,
        budget: usize,
    ) -> (grown: Option<BranchNode>)
        requires
            family@.wf(),
            family@.people.dom().len() < usize::MAX,
            generation + budget <= family@.people.dom().len(),
            family@.contains(person.id@),
            family@.people[person.id@] == person@,
        ensures
            match grown {
                Some(node) => family@.descent(person.id@, budget as nat) is Some && self.grown(
                    node@,
                    family@,
                    person.id@,
                    generation as nat,
                    index as nat,
                    siblings as nat,
                ),
                None => family@.descent(person.id@, budget as nat) is None,
            },
        decreases budget, 0nat,
    {
        if budget == 0 {
            return None;
        }
        let visual = person.visual_seed();
        let draws = self.draw_member(person.id.as_str());

        let children_data = family.children_of(person.id.as_str());
        let ghost kids = person@.children;
        proof {
            let ids = Seq::new(children_data@.len(), |k: int| children_data@[k].id@);
            assert(crate::data::family_tree::ref_views(children_data@).len()
                == children_data@.len());
            assert forall|k: int| 0 <= k < children_data@.len() implies family@.contains(
                (#[trigger] children_data@[k]).id@,
            ) && family@.people[children_data@[k].id@] == children_data@[k]@ && ids[k]
                == kids[k] by {
                assert(crate::data::family_tree::ref_views(children_data@)[k]
                    == children_data@[k]@);
                assert(family@.kids(person.id@)[k] == family@.people[kids[k]]);
                assert(family@.contains(kids[k]));
            }
            assert(ids =~= kids);
        }
        let mut children = match self.grow_children(
            family,
            &children_data,
            generation,
            budget - 1,
        ) {
            Some(children) => children,
            None => {
                return None;
            },
        };

        if self.params.generate_twigs && generation >= self.params.twig_min_generation
            && children_data.len() == 0 {
            let mut twigs = self.generate_twigs(person.id.as_str(), generation);
            children.append(&mut twigs);
            assert(owned_models(children@) =~= self.twigs(person.id@, generation as nat));
        }
        let node = BranchNode {
            person_id: person.id.clone(),
            origin: Origin::Member { index, siblings, visual, draws },
            generation,
            children,
        };
        proof {
            node.lemma_view();
            if kids.len() == 0 {
                assert(node@.children =~= self.leaf_children(person.id@, generation as nat));
            } else {
                assert forall|k: int| 0 <= k < node@.children.len() implies self.grown(
                    #[trigger] node@.children[k],
                    family@,
                    kids[k],
                    (generation + 1) as nat,
                    k as nat,
                    kids.len(),
                ) by {
                    assert(node@.children[k] == node.children@[k]@);
                }
            }
        }
        Some(node)
    }

    /// Grows the branch skeleton of `family` from its root: one branch
    /// for each person on each line of descent, and twigs on the leaves.
    /// There is none if a line of descent has more people than the
    /// family, which happens only where some person is their own descendant.
    pub fn grow(&self, family: &FamilyTree) -> (tree: Option<BranchNode>)
        requires
            family@.people.dom().len() < usize::MAX,
        ensures
            match tree {
                Some(root) => family@.depth() is Some && self.grown(
                    root@,
                    family@,
                    family@.root_id,
                    0,
                    0,
                    1,
                ),
                None => family@.depth() is None,
            },
            family@.grounded() ==> tree is Some,
    {
        let root = family.root()?;
        proof {
            if family@.grounded() {
                family@.lemma_grounded_has_depth();
            }
        }
        self.grow_branch(family, root, 0, 0, 1, family.len())
    }
}

} // verus!
