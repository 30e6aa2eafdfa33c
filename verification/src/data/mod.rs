//! The family: its people, and the texts shown of them.

pub mod family_tree;
pub mod person;
pub mod text;

pub use family_tree::{
    FamilyError, FamilyInput, FamilyMeta, FamilyModel, FamilyTree, PreorderIter,
};
pub use person::{Person, PersonView, VisualSeed};
