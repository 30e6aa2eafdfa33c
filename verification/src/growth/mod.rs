//! The seeded hash and the branch skeleton grown with it.

pub mod algorithm;
pub mod hash;

pub use algorithm::{
    Arrangement, BranchModel, BranchNode, GrowthParams, MemberDraws, Origin, TreeGrowth, TwigDraws,
};
pub use hash::{hash_bytes, hash_string, mix};
