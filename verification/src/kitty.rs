//! The asset record and the errors of the registry's operations.

use vstd::prelude::*;

verus! {

/// One asset of the registry.
///
/// `kitty_id` is assigned at creation and never changes; `dna` is the
/// 16-byte genetic code, fixed at creation; `owner` changes only through
/// a transfer; `parents` is set exactly once, at creation, and is present
/// iff the asset was produced by breeding; `children` and
/// `breed_partners` grow by one entry for each breeding event in which
/// the asset takes part as a parent.
pub struct Kitty {
    pub kitty_id: u32,
    pub dna: Vec<u8>,
    pub owner: u64,
    pub parents: Option<(u32, u32)>,
    pub children: Option<Vec<u32>>,
    pub breed_partners: Option<Vec<u32>>,
}

impl Kitty {
    /// The ids of this asset's children, in the order they were bred.
    pub open spec fn children_seq(self) -> Seq<u32> {
        match self.children {
            Some(v) => v@,
            None => Seq::empty(),
        }
    }

    /// The ids of the partners this asset was bred with, one per
    /// breeding event, parallel to `children_seq`.
    pub open spec fn partners_seq(self) -> Seq<u32> {
        match self.breed_partners {
            Some(v) => v@,
            None => Seq::empty(),
        }
    }
}

/// Why an operation was refused.
#[derive(Clone, Copy, Debug, PartialEq, Eq, Structural)]
pub enum Error {
    /// The identifier space is exhausted.
    KittiesCountOverflow,
    /// A breeding parent's id does not resolve to an existing asset.
    InvalidKittyId,
    /// Breeding was asked for with the same asset as both parents.
    RequireDifferentParent,
    /// A transfer was asked for by an account that does not own the asset.
    NotOwner,
    /// The stake reservation failed on the ledger.
    InsufficientBalance,
}

} // verus!
