//! The asset registry: the asset records, the per-owner index of owned
//! asset ids, and the three public operations create, transfer and
//! breed.

use std::collections::HashMap;
use vstd::prelude::*;

use crate::dna::DNA_LEN;
use crate::kitty::Error;
use crate::idseq::append_without;
use crate::idseq::lemma_seq_without_add;
use crate::idseq::lemma_seq_without_elements;
use crate::idseq::lemma_seq_without_len;
use crate::idseq::lemma_seq_without_membership;
use crate::idseq::lemma_seq_without_no_duplicates;
use crate::idseq::remove_id;
use crate::idseq::seq_without;
use crate::kitty::Kitty;
use crate::ledger::unreserve_give;
use crate::ledger::Ledger;

verus! {

broadcast use vstd::std_specs::hash::group_hash_axioms;

/// The amount every mutating operation reserves from the stake ledger.
pub const STAKE: u64 = 500;

/// All assets ever created, and the index of asset ids by owner.
///
/// Asset ids are handed out in allocation order starting at zero and are
/// never reused, so the record of id `i` sits at position `i` and the
/// next id to allocate equals the number of records.
pub struct Module {
    kitties: Vec<Kitty>,
    kitty_list: HashMap<u64, Vec<u32>>,
}

impl Module {
    /// The next id to allocate: one more than every id allocated so far.
    pub closed spec fn kitty_count(self) -> int {
        self.kitties@.len() as int
    }

    /// Whether `kitty_id` has been allocated.
    pub closed spec fn has_kitty(self, kitty_id: u32) -> bool {
        (kitty_id as int) < self.kitties@.len()
    }

    /// The record of the asset with id `kitty_id`.
    pub closed spec fn kitty_at(self, kitty_id: u32) -> Kitty {
        self.kitties@[kitty_id as int]
    }

    /// The ids owned by `account`, in the order they were acquired.
    pub closed spec fn owned(self, account: u64) -> Seq<u32> {
        if self.kitty_list@.contains_key(account) {
            self.kitty_list@[account]@
        } else {
            Seq::empty()
        }
    }

    /// Well-formedness of the record at position `i`: the id matches the
    /// position, the genetic code has its fixed length, parents are two
    /// distinct earlier ids or absent, and the lineage lists are
    /// parallel and hold allocated ids only.
    pub closed spec fn kitty_wf(self, i: int) -> bool {
        let k = self.kitties@[i];
        &&& k.kitty_id == i as u32
        &&& k.dna@.len() == DNA_LEN
        &&& match k.parents {
            Some(p) => p.0 != p.1 && (p.0 as int) < i && (p.1 as int) < i,
            None => true,
        }
        &&& (k.children is Some <==> k.breed_partners is Some)
        &&& k.children_seq().len() == k.partners_seq().len()
        &&& forall|j: int| 0 <= j < k.children_seq().len()
            ==> ((#[trigger] k.children_seq()[j]) as int) < self.kitties@.len()
        &&& forall|j: int| 0 <= j < k.partners_seq().len()
            ==> ((#[trigger] k.partners_seq()[j]) as int) < self.kitties@.len()
    }

    /// Well-formedness of the owner index: every listed id is an
    /// allocated asset owned by that account, no list repeats an id, and
    /// every asset appears in its owner's list.
    pub closed spec fn owner_index_wf(self) -> bool {
        &&& forall|a: u64, j: int|
            self.kitty_list@.contains_key(a) && 0 <= j < self.kitty_list@[a]@.len()
                ==> ((#[trigger] self.kitty_list@[a]@[j]) as int) < self.kitties@.len()
                    && self.kitties@[self.kitty_list@[a]@[j] as int].owner == a
        &&& forall|a: u64|
            self.kitty_list@.contains_key(a) ==> (#[trigger] self.kitty_list@[a]@).no_duplicates()
        &&& forall|i: int| 0 <= i < self.kitties@.len()
            ==> self.owned((#[trigger] self.kitties@[i]).owner).contains(i as u32)
    }

    /// Well-formedness of the whole registry.
    pub closed spec fn wf(self) -> bool {
        &&& self.kitties@.len() <= u32::MAX as int
        &&& forall|i: int| 0 <= i < self.kitties@.len() ==> #[trigger] self.kitty_wf(i)
        &&& self.owner_index_wf()
    }

    /// An empty registry: no assets, every owner list empty.
    pub fn new() -> (r: Module)
        ensures
            r.wf(),
            r.kitty_count() == 0,
            forall|a: u64| #[trigger] r.owned(a) == Seq::<u32>::empty(),
    {
        Module { kitties: Vec::new(), kitty_list: HashMap::new() }
    }

    /// Combines one byte of each parent's genetic code under one
    /// selector byte: where a selector bit is 1 the bit comes from
    /// `dna1`, where it is 0 from `dna2`.
    pub fn combine_dna(dna1: u8, dna2: u8, selector: u8) -> (r: u8)
        ensures
            r == crate::dna::combine_byte(dna1, dna2, selector),
    {
        (selector & dna1) | (!selector & dna2)
    }

    /// How many assets exist, which is also the next id to allocate.
    pub fn kitties_count(&self) -> (r: u32)
        requires
            self.wf(),
        ensures
            r == self.kitty_count(),
    {
        self.kitties.len() as u32
    }

    /// The record of the asset with id `kitty_id`, if it exists.
    pub fn kitties(&self, kitty_id: u32) -> (r: Option<&Kitty>)
        ensures
            match r {
                Some(k) => self.has_kitty(kitty_id) && *k == self.kitty_at(kitty_id),
                None => !self.has_kitty(kitty_id),
            },
    {
        if (kitty_id as usize) < self.kitties.len() {
            Some(&self.kitties[kitty_id as usize])
        } else {
            None
        }
    }

    /// The id the next successful creation or breeding will use, or the
    /// exhaustion error once the id space is used up.
    fn next_kitty_id(&self) -> (r: Result<u32, Error>)
        requires
            self.wf(),
        ensures
            self.kitty_count() < u32::MAX as int ==> r == Ok::<u32, Error>(self.kitty_count() as u32),
            self.kitty_count() == u32::MAX as int ==> r == Err::<u32, Error>(Error::KittiesCountOverflow),
    {
        let n = self.kitties.len();
        if n == u32::MAX as usize {
            Err(Error::KittiesCountOverflow)
        } else {
            Ok(n as u32)
        }
    }

    /// Stores a freshly built asset record under the next id, which
    /// advances the counter, and appends the id to `owner`'s list,
    /// creating the list if the account owned nothing yet. The three
    /// changes happen in one call, so well-formedness is preserved.
    fn insert_kitty(&mut self, owner: u64, kitty: Kitty)
        requires
            old(self).wf(),
            old(self).kitty_count() < u32::MAX as int,
            kitty.kitty_id == old(self).kitty_count() as u32,
            kitty.owner == owner,
            kitty.dna@.len() == DNA_LEN,
            (match kitty.parents {
                Some(p) => p.0 != p.1 && (p.0 as int) < old(self).kitty_count() && (p.1 as int)
                    < old(self).kitty_count(),
                None => true,
            }),
            kitty.children is None,
            kitty.breed_partners is None,
        ensures
            final(self).wf(),
            final(self).kitties@ == old(self).kitties@.push(kitty),
            final(self).owned(owner) == old(self).owned(owner).push(kitty.kitty_id),
            forall|a: u64| a != owner ==> #[trigger] final(self).owned(a) == old(self).owned(a),
    {
        let kitty_id = kitty.kitty_id;
        self.kitties.push(kitty);
        let list = match self.kitty_list.remove(&owner) {
            Some(mut l) => {
                l.push(kitty_id);
                l
            },
            None => {
                let mut l: Vec<u32> = Vec::new();
                l.push(kitty_id);
                l
            },
        };
        self.kitty_list.insert(owner, list);
        proof {
            let pre = *old(self);
            let post = *self;
            let n = pre.kitties@.len() as int;
            assert(post.owned(owner) == pre.owned(owner).push(kitty_id));
            assert forall|i: int| 0 <= i < post.kitties@.len() implies #[trigger] post.kitty_wf(i) by {
                if i < n {
                    assert(pre.kitty_wf(i));
                    assert(post.kitties@[i] == pre.kitties@[i]);
                }
            }
            assert forall|a: u64, j: int|
                post.kitty_list@.contains_key(a) && 0 <= j < post.kitty_list@[a]@.len()
                    implies ((#[trigger] post.kitty_list@[a]@[j]) as int) < post.kitties@.len()
                        && post.kitties@[post.kitty_list@[a]@[j] as int].owner == a by {
                if a == owner {
                    if j < post.kitty_list@[a]@.len() - 1 {
                        assert(post.kitty_list@[a]@[j] == pre.owned(owner)[j]);
                        assert(pre.kitty_list@.contains_key(owner));
                    } else {
                        assert(post.kitty_list@[a]@[j] == kitty_id);
                    }
                } else {
                    assert(pre.kitty_list@.contains_key(a));
                    assert(pre.kitty_list@[a]@[j] == post.kitty_list@[a]@[j]);
                }
            }
            assert forall|a: u64|
                post.kitty_list@.contains_key(a) implies (#[trigger] post.kitty_list@[a]@).no_duplicates() by {
                if a == owner {
                    let s = post.kitty_list@[a]@;
                    assert(s == pre.owned(owner).push(kitty_id));
                    assert forall|j1: int, j2: int| 0 <= j1 < j2 < s.len() implies s[j1] != s[j2] by {
                        if j2 == s.len() - 1 {
                            assert(pre.kitty_list@.contains_key(owner) ==> (pre.owned(owner)[j1] as int) < n);
                        } else {
                            assert(pre.kitty_list@.contains_key(owner)
                                ==> pre.owned(owner).no_duplicates());
                        }
                    }
                } else {
                    assert(pre.kitty_list@.contains_key(a));
                }
            }
            assert forall|i: int| 0 <= i < post.kitties@.len()
                implies post.owned((#[trigger] post.kitties@[i]).owner) .contains(i as u32) by {
                let o = post.kitties@[i].owner;
                if i < n {
                    assert(pre.owned(pre.kitties@[i].owner).contains(i as u32));
                    let w = choose|w: int| 0 <= w < pre.owned(o).len() && pre.owned(o)[w] == i as u32;
                    if o == owner {
                        assert(post.owned(o)[w] == i as u32);
                    } else {
                        assert(post.owned(o) == pre.owned(o));
                    }
                } else {
                    assert(post.owned(owner)[post.owned(owner).len() - 1] == kitty_id);
                }
            }
        }
    }

    /// Creates a genesis asset for `caller` with the given 16-byte
    /// genetic code, after reserving the stake amount on the ledger.
    /// Fails with `InsufficientBalance` when the caller cannot stake and
    /// with `KittiesCountOverflow` when the id space is exhausted; a
    /// failed call leaves the registry and the ledger unchanged (an
    /// exhaustion failure releases the reservation it took).
    #[verifier::rlimit(50)]
    pub fn create(&mut self, ledger: &mut Ledger, caller: u64, seed: Vec<u8>) -> (r: Result<
        u32,
        Error,
    >)
        requires
            old(self).wf(),
            old(ledger).wf(),
            seed@.len() == DNA_LEN,
        ensures
            final(self).wf(),
            final(ledger).wf(),
            r is Ok <==> old(ledger).free_of(caller) >= STAKE && old(self).kitty_count()
                < u32::MAX as int,
            r == Err::<u32, Error>(Error::InsufficientBalance) <==> old(ledger).free_of(caller)
                < STAKE,
            r == Err::<u32, Error>(Error::KittiesCountOverflow) <==> old(ledger).free_of(caller)
                >= STAKE && old(self).kitty_count() == u32::MAX as int,
            r is Err ==> final(self).kitty_count() == old(self).kitty_count(),
            r is Err ==> forall|id: u32|
                old(self).has_kitty(id)
                    ==> #[trigger] final(self).kitty_at(id) == old(self).kitty_at(id),
            r is Err ==> forall|a: u64| #[trigger] final(self).owned(a) == old(self).owned(a),
            r is Err ==> forall|a: u64| (#[trigger] final(ledger).free_of(a))
                == old(ledger).free_of(a),
            r is Err ==> forall|a: u64| (#[trigger] final(ledger).reserved_of(a))
                == old(ledger).reserved_of(a),
            staked(*old(self), *old(ledger)) ==> staked(*final(self), *final(ledger)),
            r matches Ok(id) ==> {
                &&& id == old(self).kitty_count() as u32
                &&& !old(self).has_kitty(id)
                &&& final(self).has_kitty(id)
                &&& final(self).kitty_count() == old(self).kitty_count() + 1
                &&& (forall|id2: u32| old(self).has_kitty(id2)
                    ==> #[trigger] final(self).kitty_at(id2) == old(self).kitty_at(id2))
                &&& final(self).kitty_at(id).owner == caller
                &&& final(self).kitty_at(id).dna@ == seed@
                &&& final(self).kitty_at(id).parents is None
                &&& final(self).kitty_at(id).children is None
                &&& final(self).kitty_at(id).breed_partners is None
                &&& final(self).owned(caller) == old(self).owned(caller).push(id)
                &&& (forall|a: u64| a != caller
                    ==> #[trigger] final(self).owned(a) == old(self).owned(a))
                &&& final(ledger).free_of(caller) == old(ledger).free_of(caller) - STAKE
                &&& final(ledger).reserved_of(caller) == old(ledger).reserved_of(caller) + STAKE
                &&& (forall|a: u64| a != caller
                    ==> (#[trigger] final(ledger).free_of(a)) == old(ledger).free_of(a))
                &&& (forall|a: u64| a != caller
                    ==> (#[trigger] final(ledger).reserved_of(a)) == old(ledger).reserved_of(a))
            },
    {
        match ledger.reserve(caller, STAKE) {
            Ok(_) => {},
            Err(e) => {
                proof {
                    if staked(*old(self), *old(ledger)) {
                        assert forall|a: u64| #[trigger] self.owned(a) == old(self).owned(a) by {}
                        assert forall|a: u64|
                            (#[trigger] ledger.reserved_of(a)) == old(ledger).reserved_of(a) by {}
                        lemma_staked_frame(*old(self), *old(ledger), *self, *ledger);
                    }
                }
                return Err(e);
            },
        }
        let ghost mid = *ledger;
        let kitty_id = match self.next_kitty_id() {
            Ok(id) => id,
            Err(e) => {
                ledger.unreserve(caller, STAKE);
                proof {
                    assert forall|a: u64|
                        (#[trigger] ledger.free_of(a)) == old(ledger).free_of(a)
                            && (#[trigger] ledger.reserved_of(a)) == old(ledger).reserved_of(a) by {
                        if a == caller {
                            assert(mid.free_of(caller) == old(ledger).free_of(caller) - STAKE);
                            assert(mid.reserved_of(caller) == old(ledger).reserved_of(caller)
                                + STAKE);
                            assert(unreserve_give(STAKE, mid.reserved_of(caller)) == STAKE);
                            assert(ledger.free_of(caller) == old(ledger).free_of(caller));
                            assert(ledger.reserved_of(caller) == old(ledger).reserved_of(caller));
                        } else {
                            assert(mid.free_of(a) == old(ledger).free_of(a));
                            assert(mid.reserved_of(a) == old(ledger).reserved_of(a));
                            assert(ledger.free_of(a) == mid.free_of(a));
                            assert(ledger.reserved_of(a) == mid.reserved_of(a));
                        }
                    }
                    if staked(*old(self), *old(ledger)) {
                        assert forall|a: u64| #[trigger] self.owned(a) == old(self).owned(a) by {}
                        assert forall|a: u64|
                            (#[trigger] ledger.reserved_of(a)) == old(ledger).reserved_of(a) by {
                            assert(ledger.free_of(a) == old(ledger).free_of(a));
                        }
                        lemma_staked_frame(*old(self), *old(ledger), *self, *ledger);
                    }
                }
                return Err(e);
            },
        };
        let kitty = Kitty {
            kitty_id,
            dna: seed,
            owner: caller,
            parents: None,
            children: None,
            breed_partners: None,
        };
        self.insert_kitty(caller, kitty);
        proof {
            if staked(*old(self), *old(ledger)) {
                assert forall|a: u64|
                    (#[trigger] ledger.reserved_of(a)) as int >= STAKE * self.owned(a).len() by {
                    assert(old(ledger).reserved_of(a) as int >= STAKE * old(self).owned(a).len());
                    if a == caller {
                        assert(self.owned(caller) == old(self).owned(caller).push(kitty_id));
                        assert(ledger.reserved_of(caller) == old(ledger).reserved_of(caller)
                            + STAKE);
                    } else {
                        assert(self.owned(a) == old(self).owned(a));
                        assert(ledger.reserved_of(a) == old(ledger).reserved_of(a));
                    }
                }
            }
        }
        Ok(kitty_id)
    }

    /// Hands the asset `kitty_id` from `caller` to `to`: the record's
    /// owner changes, the id leaves `caller`'s list and joins `to`'s,
    /// and the stake reservation moves with it (`to` reserves, `caller`
    /// is released). Fails with `NotOwner` when `caller` does not own
    /// the asset and with `InsufficientBalance` when `to` cannot stake.
    /// A call on an id that was never allocated is accepted and changes
    /// nothing: a deliberate silent no-op rather than an error.
    #[verifier::rlimit(50)]
    pub fn transfer(&mut self, ledger: &mut Ledger, caller: u64, to: u64, kitty_id: u32) -> (r:
        Result<(), Error>)
        requires
            old(self).wf(),
            old(ledger).wf(),
        ensures
            final(self).wf(),
            final(ledger).wf(),
            final(self).kitty_count() == old(self).kitty_count(),
            r is Ok <==> !old(self).has_kitty(kitty_id) || (old(self).kitty_at(kitty_id).owner
                == caller && old(ledger).free_of(to) >= STAKE),
            r == Err::<(), Error>(Error::NotOwner) <==> old(self).has_kitty(kitty_id) && old(
                self,
            ).kitty_at(kitty_id).owner != caller,
            r == Err::<(), Error>(Error::InsufficientBalance) <==> old(self).has_kitty(kitty_id)
                && old(self).kitty_at(kitty_id).owner == caller && old(ledger).free_of(to) < STAKE,
            r is Err || !old(self).has_kitty(kitty_id) ==> forall|id2: u32|
                old(self).has_kitty(id2)
                    ==> #[trigger] final(self).kitty_at(id2) == old(self).kitty_at(id2),
            r is Err || !old(self).has_kitty(kitty_id) ==> forall|a: u64|
                #[trigger] final(self).owned(a) == old(self).owned(a),
            r is Err || !old(self).has_kitty(kitty_id) ==> forall|a: u64|
                (#[trigger] final(ledger).free_of(a)) == old(ledger).free_of(a),
            r is Err || !old(self).has_kitty(kitty_id) ==> forall|a: u64|
                (#[trigger] final(ledger).reserved_of(a)) == old(ledger).reserved_of(a),
            staked(*old(self), *old(ledger)) ==> staked(*final(self), *final(ledger)),
            r is Ok && old(self).has_kitty(kitty_id) ==> final(self).kitty_at(kitty_id).owner
                == to && final(self).kitty_at(kitty_id).kitty_id == kitty_id,
            r is Ok && old(self).has_kitty(kitty_id) ==> final(self).kitty_at(kitty_id).dna == old(
                self,
            ).kitty_at(kitty_id).dna,
            r is Ok && old(self).has_kitty(kitty_id) ==> final(self).kitty_at(kitty_id).parents
                == old(self).kitty_at(kitty_id).parents,
            r is Ok && old(self).has_kitty(kitty_id) ==> final(self).kitty_at(kitty_id).children
                == old(self).kitty_at(kitty_id).children && final(self).kitty_at(
                kitty_id,
            ).breed_partners == old(self).kitty_at(kitty_id).breed_partners,
            r is Ok && old(self).has_kitty(kitty_id) ==> forall|id2: u32|
                old(self).has_kitty(id2) && id2 != kitty_id
                    ==> #[trigger] final(self).kitty_at(id2) == old(self).kitty_at(id2),
            r is Ok && old(self).has_kitty(kitty_id) ==> forall|a: u64|
                a != caller && a != to ==> #[trigger] final(self).owned(a) == old(self).owned(a),
            r is Ok && old(self).has_kitty(kitty_id) && caller != to ==> final(self).owned(caller)
                == seq_without(old(self).owned(caller), kitty_id) && !final(self).owned(
                caller,
            ).contains(kitty_id),
            r is Ok && old(self).has_kitty(kitty_id) && caller != to ==> final(self).owned(to)
                == old(self).owned(to).push(kitty_id) && final(self).owned(to).contains(kitty_id),
            r is Ok && old(self).has_kitty(kitty_id) && caller == to ==> final(self).owned(caller)
                == seq_without(old(self).owned(caller), kitty_id).push(kitty_id),
            r is Ok && old(self).has_kitty(kitty_id) && caller != to ==> final(ledger).free_of(to)
                == old(ledger).free_of(to) - STAKE && final(ledger).reserved_of(to) == old(
                ledger,
            ).reserved_of(to) + STAKE,
            r is Ok && old(self).has_kitty(kitty_id) && caller != to ==> final(ledger).free_of(
                caller,
            ) == old(ledger).free_of(caller) + unreserve_give(STAKE, old(ledger).reserved_of(caller))
                && final(ledger).reserved_of(caller) == old(ledger).reserved_of(caller)
                - unreserve_give(STAKE, old(ledger).reserved_of(caller)),
            r is Ok && old(self).has_kitty(kitty_id) && caller == to ==> forall|a: u64|
                (#[trigger] final(ledger).free_of(a)) == old(ledger).free_of(a),
            r is Ok && old(self).has_kitty(kitty_id) && caller == to ==> forall|a: u64|
                (#[trigger] final(ledger).reserved_of(a)) == old(ledger).reserved_of(a),
            r is Ok && old(self).has_kitty(kitty_id) ==> forall|a: u64|
                a != caller && a != to ==> (#[trigger] final(ledger).free_of(a)) == old(
                    ledger,
                ).free_of(a),
            r is Ok && old(self).has_kitty(kitty_id) ==> forall|a: u64|
                a != caller && a != to ==> (#[trigger] final(ledger).reserved_of(a)) == old(
                    ledger,
                ).reserved_of(a),
    {
        if (kitty_id as usize) >= self.kitties.len() {
            return Ok(());
        }
        if self.kitties[kitty_id as usize].owner != caller {
            return Err(Error::NotOwner);
        }
        match ledger.reserve(to, STAKE) {
            Ok(_) => {},
            Err(e) => {
                proof {
                    if staked(*old(self), *old(ledger)) {
                        assert forall|a: u64| #[trigger] self.owned(a) == old(self).owned(a) by {}
                        assert forall|a: u64|
                            (#[trigger] ledger.reserved_of(a)) == old(ledger).reserved_of(a) by {}
                        lemma_staked_frame(*old(self), *old(ledger), *self, *ledger);
                    }
                }
                return Err(e);
            },
        }
        let ghost led_mid = *ledger;
        ledger.unreserve(caller, STAKE);
        proof {
            if caller == to {
                assert(led_mid.reserved_of(caller) == old(ledger).reserved_of(caller) + STAKE);
                assert(unreserve_give(STAKE, led_mid.reserved_of(caller)) == STAKE);
                assert forall|a: u64|
                    (#[trigger] ledger.free_of(a)) == old(ledger).free_of(a) by {
                    assert(led_mid.free_of(a) == if a == caller {
                        (old(ledger).free_of(a) - STAKE) as u64
                    } else {
                        old(ledger).free_of(a)
                    });
                }
                assert forall|a: u64|
                    (#[trigger] ledger.reserved_of(a)) == old(ledger).reserved_of(a) by {
                    assert(led_mid.reserved_of(a) == if a == caller {
                        (old(ledger).reserved_of(a) + STAKE) as u64
                    } else {
                        old(ledger).reserved_of(a)
                    });
                }
            } else {
                assert(led_mid.free_of(caller) == old(ledger).free_of(caller));
                assert(led_mid.reserved_of(caller) == old(ledger).reserved_of(caller));
                assert(led_mid.free_of(to) == old(ledger).free_of(to) - STAKE);
                assert(led_mid.reserved_of(to) == old(ledger).reserved_of(to) + STAKE);
            }
        }
        let ghost pre = *old(self);
        // the owner field and the two index lists change as one step
        let idx = kitty_id as usize;
        let mut rec = self.kitties.remove(idx);
        rec.owner = to;
        self.kitties.insert(idx, rec);
        proof {
            assert(self.kitties@ =~= pre.kitties@.update(
                kitty_id as int,
                Kitty { owner: to, ..pre.kitties@[kitty_id as int] },
            ));
        }
        let list = match self.kitty_list.remove(&caller) {
            Some(l) => l,
            None => Vec::new(),
        };
        proof {
            assert(list@ == pre.owned(caller));
        }
        let filtered = remove_id(&list, kitty_id);
        self.kitty_list.insert(caller, filtered);
        let mut tolist = match self.kitty_list.remove(&to) {
            Some(l) => l,
            None => Vec::new(),
        };
        tolist.push(kitty_id);
        self.kitty_list.insert(to, tolist);
        proof {
            assert forall|a: u64| a != caller && a != to implies (#[trigger] self.kitty_list@.contains_key(
                a,
            )) == pre.kitty_list@.contains_key(a) by {}
            assert forall|a: u64|
                a != caller && a != to && pre.kitty_list@.contains_key(a) implies (
            #[trigger] self.kitty_list@[a]) == pre.kitty_list@[a] by {}
            self.lemma_transfer_wf(pre, caller, to, kitty_id);
            if staked(pre, *old(ledger)) {
                lemma_seq_without_len(pre.owned(caller), kitty_id);
                assert(pre.owned(pre.kitties@[kitty_id as int].owner).contains(kitty_id));
                assert(pre.owned(caller).contains(kitty_id));
                assert forall|a: u64|
                    (#[trigger] ledger.reserved_of(a)) as int >= STAKE * self.owned(a).len() by {
                    assert(old(ledger).reserved_of(a) as int >= STAKE * pre.owned(a).len());
                    if caller == to {
                        if a != caller {
                            assert(self.owned(a) == pre.owned(a));
                        }
                        assert(ledger.reserved_of(a) == old(ledger).reserved_of(a));
                    } else {
                        if a == caller {
                            assert(self.owned(caller) == seq_without(pre.owned(caller), kitty_id));
                            assert(led_mid.reserved_of(caller) == old(ledger).reserved_of(caller));
                            assert(ledger.reserved_of(caller) >= old(ledger).reserved_of(caller)
                                - STAKE);
                        } else if a == to {
                            assert(self.owned(to) == pre.owned(to).push(kitty_id));
                            assert(led_mid.reserved_of(to) == old(ledger).reserved_of(to) + STAKE);
                            assert(ledger.reserved_of(to) == led_mid.reserved_of(to));
                        } else {
                            assert(self.owned(a) == pre.owned(a));
                            assert(led_mid.reserved_of(a) == old(ledger).reserved_of(a));
                            assert(ledger.reserved_of(a) == led_mid.reserved_of(a));
                        }
                    }
                }
            }
            assert(pre.kitty_wf(kitty_id as int));
            assert(self.kitty_at(kitty_id).owner == to);
            assert(self.kitty_at(kitty_id).kitty_id == kitty_id);
            assert(self.kitty_at(kitty_id).dna == pre.kitty_at(kitty_id).dna);
            assert(self.kitty_at(kitty_id).parents == pre.kitty_at(kitty_id).parents);
            assert(self.kitty_at(kitty_id).children == pre.kitty_at(kitty_id).children);
            assert(self.kitty_at(kitty_id).breed_partners == pre.kitty_at(kitty_id).breed_partners);
        }
        Ok(())
    }

    /// The owner move of a transfer preserves well-formedness: exactly
    /// the invariant bookkeeping for the success path of `transfer`.
    proof fn lemma_transfer_wf(self, pre: Module, caller: u64, to: u64, kitty_id: u32)
        requires
            pre.wf(),
            pre.has_kitty(kitty_id),
            pre.kitty_at(kitty_id).owner == caller,
            self.kitties@ == pre.kitties@.update(
                kitty_id as int,
                (Kitty { owner: to, ..pre.kitties@[kitty_id as int] }),
            ),
            self.kitty_list@.contains_key(caller),
            self.kitty_list@.contains_key(to),
            self.kitty_list@[caller]@ == if caller == to {
                seq_without(pre.owned(caller), kitty_id).push(kitty_id)
            } else {
                seq_without(pre.owned(caller), kitty_id)
            },
            self.kitty_list@[to]@ == if caller == to {
                seq_without(pre.owned(caller), kitty_id).push(kitty_id)
            } else {
                pre.owned(to).push(kitty_id)
            },
            forall|a: u64| a != caller && a != to ==> (#[trigger] self.kitty_list@.contains_key(a))
                == pre.kitty_list@.contains_key(a),
            forall|a: u64| a != caller && a != to && pre.kitty_list@.contains_key(a)
                ==> (#[trigger] self.kitty_list@[a]) == pre.kitty_list@[a],
        ensures
            self.wf(),
            !seq_without(pre.owned(caller), kitty_id).contains(kitty_id),
    {
        let n = pre.kitties@.len() as int;
        let removed = seq_without(pre.owned(caller), kitty_id);
        lemma_seq_without_elements(pre.owned(caller), kitty_id);
        lemma_seq_without_no_duplicates(pre.owned(caller), kitty_id);
        assert forall|i: int| 0 <= i < self.kitties@.len() implies #[trigger] self.kitty_wf(i) by {
            assert(pre.kitty_wf(i));
            if i != kitty_id as int {
                assert(self.kitties@[i] == pre.kitties@[i]);
            }
        }
        assert forall|a: u64, j: int|
            self.kitty_list@.contains_key(a) && 0 <= j < self.kitty_list@[a]@.len()
                implies ((#[trigger] self.kitty_list@[a]@[j]) as int) < self.kitties@.len()
                    && self.kitties@[self.kitty_list@[a]@[j] as int].owner == a by {
            let e = self.kitty_list@[a]@[j];
            if a == caller || a == to {
                if j == self.kitty_list@[a]@.len() - 1 && (a == to) {
                    assert(e == kitty_id);
                } else if a == caller && caller != to {
                    assert(e == removed[j]);
                    assert(pre.owned(caller).contains(e) && e != kitty_id);
                    let w = choose|w: int|
                        0 <= w < pre.owned(caller).len() && pre.owned(caller)[w] == e;
                    assert(pre.kitty_list@.contains_key(caller));
                } else {
                    // a == to; an entry of to's old list, or of the removal
                    if caller == to {
                        assert(e == removed[j]);
                        assert(pre.owned(caller).contains(e) && e != kitty_id);
                        assert(pre.kitty_list@.contains_key(caller));
                    } else {
                        assert(e == pre.owned(to)[j]);
                        assert(pre.kitty_list@.contains_key(to));
                        assert(pre.kitties@[e as int].owner == to);
                        assert(e != kitty_id);
                    }
                }
            } else {
                assert(pre.kitty_list@.contains_key(a));
                assert(e == pre.kitty_list@[a]@[j]);
                assert(pre.kitties@[e as int].owner == a);
                assert(e != kitty_id);
            }
        }
        assert forall|a: u64|
            self.kitty_list@.contains_key(a) implies (#[trigger] self.kitty_list@[a]@).no_duplicates() by {
            if a == caller && caller != to {
                assert(self.kitty_list@[a]@ == removed);
            } else if a == to {
                let s = self.kitty_list@[a]@;
                let base = if caller == to {
                    removed
                } else {
                    pre.owned(to)
                };
                assert(s == base.push(kitty_id));
                assert(base.no_duplicates()) by {
                    if caller != to {
                        assert(pre.kitty_list@.contains_key(to) ==> pre.owned(to).no_duplicates());
                    }
                }
                assert forall|j1: int, j2: int| 0 <= j1 < j2 < s.len() implies s[j1] != s[j2] by {
                    if j2 == s.len() - 1 {
                        if caller == to {
                            assert(base[j1] != kitty_id);
                        } else {
                            assert(pre.kitty_list@.contains_key(to));
                            assert(pre.kitties@[base[j1] as int].owner == to);
                        }
                    }
                }
            } else {
                assert(pre.kitty_list@.contains_key(a));
            }
        }
        assert forall|i: int| 0 <= i < self.kitties@.len()
            implies self.owned((#[trigger] self.kitties@[i]).owner).contains(i as u32) by {
            let o = self.kitties@[i].owner;
            if i == kitty_id as int {
                assert(o == to);
                let s = self.kitty_list@[to]@;
                assert(s[s.len() - 1] == kitty_id);
            } else {
                assert(pre.kitties@[i] == self.kitties@[i]);
                let po = pre.kitties@[i].owner;
                assert(pre.owned(po).contains(i as u32));
                if po == caller {
                    lemma_seq_without_membership(pre.owned(caller), kitty_id, i as u32);
                    assert(removed.contains(i as u32));
                    let w = choose|w: int| 0 <= w < removed.len() && removed[w] == i as u32;
                    assert(self.kitty_list@[caller]@[w] == i as u32);
                    assert(self.owned(caller).contains(i as u32));
                } else if po == to {
                    let w = choose|w: int|
                        0 <= w < pre.owned(to).len() && pre.owned(to)[w] == i as u32;
                    assert(self.kitty_list@[to]@[w] == i as u32);
                    assert(self.owned(to).contains(i as u32));
                } else {
                    assert(self.owned(po) == pre.owned(po));
                }
            }
        }
        if caller != to {
            lemma_seq_without_elements(pre.owned(caller), kitty_id);
        }
    }

    /// Records one breeding event on the parent `kitty_id`: the child's
    /// id joins its children list and the other parent's id its partner
    /// list, and the changed record is stored back. A call on an id that
    /// was never allocated changes nothing.
    fn update_kitty(&mut self, kitty_id: u32, child_id: u32, partner_id: u32)
        requires
            old(self).wf(),
            (child_id as int) < old(self).kitty_count(),
            (partner_id as int) < old(self).kitty_count(),
        ensures
            final(self).wf(),
            final(self).kitty_count() == old(self).kitty_count(),
            !old(self).has_kitty(kitty_id) ==> forall|id2: u32|
                old(self).has_kitty(id2)
                    ==> #[trigger] final(self).kitty_at(id2) == old(self).kitty_at(id2),
            old(self).has_kitty(kitty_id) ==> final(self).kitty_at(kitty_id).children_seq() == old(
                self,
            ).kitty_at(kitty_id).children_seq().push(child_id),
            old(self).has_kitty(kitty_id) ==> final(self).kitty_at(kitty_id).partners_seq() == old(
                self,
            ).kitty_at(kitty_id).partners_seq().push(partner_id),
            old(self).has_kitty(kitty_id) ==> final(self).kitty_at(kitty_id).kitty_id == old(
                self,
            ).kitty_at(kitty_id).kitty_id && final(self).kitty_at(kitty_id).owner == old(
                self,
            ).kitty_at(kitty_id).owner,
            old(self).has_kitty(kitty_id) ==> final(self).kitty_at(kitty_id).dna == old(
                self,
            ).kitty_at(kitty_id).dna && final(self).kitty_at(kitty_id).parents == old(
                self,
            ).kitty_at(kitty_id).parents,
            forall|id2: u32|
                old(self).has_kitty(id2) && id2 != kitty_id
                    ==> #[trigger] final(self).kitty_at(id2) == old(self).kitty_at(id2),
            forall|a: u64| #[trigger] final(self).owned(a) == old(self).owned(a),
    {
        let idx = kitty_id as usize;
        if idx >= self.kitties.len() {
            return;
        }
        let ghost pre = *old(self);
        let rec = self.kitties.remove(idx);
        let Kitty { kitty_id: kid, dna, owner, parents, children, breed_partners } = rec;
        let mut c = match children {
            Some(c0) => c0,
            None => Vec::new(),
        };
        c.push(child_id);
        let mut p = match breed_partners {
            Some(p0) => p0,
            None => Vec::new(),
        };
        p.push(partner_id);
        let updated = Kitty {
            kitty_id: kid,
            dna,
            owner,
            parents,
            children: Some(c),
            breed_partners: Some(p),
        };
        self.kitties.insert(idx, updated);
        proof {
            assert(self.kitties@ =~= pre.kitties@.update(kitty_id as int, updated));
            assert(pre.kitty_wf(kitty_id as int));
            assert(updated.children_seq() == pre.kitty_at(kitty_id).children_seq().push(child_id));
            assert(updated.partners_seq() == pre.kitty_at(kitty_id).partners_seq().push(
                partner_id,
            ));
            assert forall|i: int| 0 <= i < self.kitties@.len() implies #[trigger] self.kitty_wf(
                i,
            ) by {
                assert(pre.kitty_wf(i));
                if i != kitty_id as int {
                    assert(self.kitties@[i] == pre.kitties@[i]);
                } else {
                    assert forall|j: int| 0 <= j < updated.children_seq().len()
                        implies ((#[trigger] updated.children_seq()[j]) as int)
                            < self.kitties@.len() by {
                        if j < updated.children_seq().len() - 1 {
                            assert(updated.children_seq()[j] == pre.kitty_at(
                                kitty_id,
                            ).children_seq()[j]);
                        }
                    }
                    assert forall|j: int| 0 <= j < updated.partners_seq().len()
                        implies ((#[trigger] updated.partners_seq()[j]) as int)
                            < self.kitties@.len() by {
                        if j < updated.partners_seq().len() - 1 {
                            assert(updated.partners_seq()[j] == pre.kitty_at(
                                kitty_id,
                            ).partners_seq()[j]);
                        }
                    }
                }
            }
            assert forall|a: u64, j: int|
                self.kitty_list@.contains_key(a) && 0 <= j < self.kitty_list@[a]@.len()
                    implies ((#[trigger] self.kitty_list@[a]@[j]) as int) < self.kitties@.len()
                        && self.kitties@[self.kitty_list@[a]@[j] as int].owner == a by {
                assert(pre.kitty_list@[a]@[j] == self.kitty_list@[a]@[j]);
                let e = self.kitty_list@[a]@[j];
                assert(pre.kitties@[e as int].owner == a);
                if e as int != kitty_id as int {
                    assert(self.kitties@[e as int] == pre.kitties@[e as int]);
                }
            }
            assert forall|i: int| 0 <= i < self.kitties@.len()
                implies self.owned((#[trigger] self.kitties@[i]).owner).contains(i as u32) by {
                let o = self.kitties@[i].owner;
                if i != kitty_id as int {
                    assert(self.kitties@[i] == pre.kitties@[i]);
                }
                assert(o == pre.kitties@[i].owner);
                assert(pre.owned(o).contains(i as u32));
                assert(self.owned(o) == pre.owned(o));
            }
        }
    }

    /// Breeds a child for `sender` from the two parents under the given
    /// 16-byte selector: the child's code combines the parents' codes
    /// byte by byte, its record carries the parent pair, and both
    /// parents' lineage lists record the event. Asking for the same
    /// parent twice fails with `RequireDifferentParent` before any
    /// lookup; an unallocated parent fails with `InvalidKittyId`; an
    /// exhausted id space fails with `KittiesCountOverflow`; a failed
    /// call changes nothing. The stake gate is `breed`'s business, not
    /// this function's.
    #[verifier::rlimit(50)]
    pub fn do_bread(&mut self, sender: u64, kitty_id1: u32, kitty_id2: u32, selector: Vec<u8>) -> (r:
        Result<u32, Error>)
        requires
            old(self).wf(),
            selector@.len() == DNA_LEN,
        ensures
            final(self).wf(),
            r == Err::<u32, Error>(Error::RequireDifferentParent) <==> kitty_id1 == kitty_id2,
            r == Err::<u32, Error>(Error::InvalidKittyId) <==> kitty_id1 != kitty_id2 && (!old(
                self,
            ).has_kitty(kitty_id1) || !old(self).has_kitty(kitty_id2)),
            r == Err::<u32, Error>(Error::KittiesCountOverflow) <==> kitty_id1 != kitty_id2 && old(
                self,
            ).has_kitty(kitty_id1) && old(self).has_kitty(kitty_id2) && old(self).kitty_count()
                == u32::MAX as int,
            r is Ok <==> kitty_id1 != kitty_id2 && old(self).has_kitty(kitty_id1) && old(
                self,
            ).has_kitty(kitty_id2) && old(self).kitty_count() < u32::MAX as int,
            r is Err ==> final(self).kitty_count() == old(self).kitty_count(),
            r is Err ==> forall|id2: u32|
                old(self).has_kitty(id2)
                    ==> #[trigger] final(self).kitty_at(id2) == old(self).kitty_at(id2),
            r is Err ==> forall|a: u64| #[trigger] final(self).owned(a) == old(self).owned(a),
            r matches Ok(child) ==> {
                &&& child == old(self).kitty_count() as u32
                &&& !old(self).has_kitty(child)
                &&& final(self).has_kitty(child)
                &&& final(self).kitty_count() == old(self).kitty_count() + 1
                &&& final(self).kitty_at(child).kitty_id == child
                &&& final(self).kitty_at(child).owner == sender
                &&& final(self).kitty_at(child).parents == Some((kitty_id1, kitty_id2))
                &&& final(self).kitty_at(child).children is None
                &&& final(self).kitty_at(child).breed_partners is None
                &&& final(self).kitty_at(child).dna@ == crate::dna::combined(
                    old(self).kitty_at(kitty_id1).dna@,
                    old(self).kitty_at(kitty_id2).dna@,
                    selector@,
                )
            },
            r matches Ok(child) ==> {
                &&& final(self).kitty_at(kitty_id1).children_seq() == old(self).kitty_at(
                    kitty_id1,
                ).children_seq().push(child)
                &&& final(self).kitty_at(kitty_id1).partners_seq() == old(self).kitty_at(
                    kitty_id1,
                ).partners_seq().push(kitty_id2)
                &&& final(self).kitty_at(kitty_id2).children_seq() == old(self).kitty_at(
                    kitty_id2,
                ).children_seq().push(child)
                &&& final(self).kitty_at(kitty_id2).partners_seq() == old(self).kitty_at(
                    kitty_id2,
                ).partners_seq().push(kitty_id1)
                &&& final(self).kitty_at(kitty_id1).children_seq().contains(child)
                &&& final(self).kitty_at(kitty_id1).partners_seq().contains(kitty_id2)
                &&& final(self).kitty_at(kitty_id2).children_seq().contains(child)
                &&& final(self).kitty_at(kitty_id2).partners_seq().contains(kitty_id1)
            },
            r matches Ok(child) ==> {
                &&& final(self).kitty_at(kitty_id1).owner == old(self).kitty_at(kitty_id1).owner
                &&& final(self).kitty_at(kitty_id1).dna == old(self).kitty_at(kitty_id1).dna
                &&& final(self).kitty_at(kitty_id1).parents == old(self).kitty_at(
                    kitty_id1,
                ).parents
                &&& final(self).kitty_at(kitty_id2).owner == old(self).kitty_at(kitty_id2).owner
                &&& final(self).kitty_at(kitty_id2).dna == old(self).kitty_at(kitty_id2).dna
                &&& final(self).kitty_at(kitty_id2).parents == old(self).kitty_at(
                    kitty_id2,
                ).parents
            },
            r is Ok ==> forall|id3: u32|
                old(self).has_kitty(id3) && id3 != kitty_id1 && id3 != kitty_id2
                    ==> #[trigger] final(self).kitty_at(id3) == old(self).kitty_at(id3),
            r matches Ok(child) ==> final(self).owned(sender) == old(self).owned(sender).push(
                child,
            ),
            r is Ok ==> forall|a: u64|
                a != sender ==> #[trigger] final(self).owned(a) == old(self).owned(a),
    {
        if kitty_id1 == kitty_id2 {
            return Err(Error::RequireDifferentParent);
        }
        if (kitty_id1 as usize) >= self.kitties.len() || (kitty_id2 as usize)
            >= self.kitties.len() {
            return Err(Error::InvalidKittyId);
        }
        let new_id = match self.next_kitty_id() {
            Ok(id) => id,
            Err(e) => {
                return Err(e);
            },
        };
        proof {
            assert(self.kitty_wf(kitty_id1 as int));
            assert(self.kitty_wf(kitty_id2 as int));
        }
        let ghost pre = *old(self);
        let ghost d1 = pre.kitty_at(kitty_id1).dna@;
        let ghost d2 = pre.kitty_at(kitty_id2).dna@;
        let mut new_dna: Vec<u8> = Vec::new();
        let mut i: usize = 0;
        while i < DNA_LEN
            invariant
                i <= DNA_LEN,
                *self == pre,
                pre.wf(),
                pre.has_kitty(kitty_id1),
                pre.has_kitty(kitty_id2),
                pre.kitty_wf(kitty_id1 as int),
                pre.kitty_wf(kitty_id2 as int),
                d1 == pre.kitty_at(kitty_id1).dna@,
                d2 == pre.kitty_at(kitty_id2).dna@,
                selector@.len() == DNA_LEN,
                new_dna@.len() == i,
                forall|j: int| 0 <= j < i
                    ==> (#[trigger] new_dna@[j]) == crate::dna::combine_byte(
                        d1[j],
                        d2[j],
                        selector@[j],
                    ),
            decreases DNA_LEN - i,
        {
            let b1 = self.kitties[kitty_id1 as usize].dna[i];
            let b2 = self.kitties[kitty_id2 as usize].dna[i];
            let s = selector[i];
            new_dna.push(Module::combine_dna(b1, b2, s));
            i += 1;
        }
        proof {
            assert(new_dna@ =~= crate::dna::combined(d1, d2, selector@));
        }
        let kitty = Kitty {
            kitty_id: new_id,
            dna: new_dna,
            owner: sender,
            parents: Some((kitty_id1, kitty_id2)),
            children: None,
            breed_partners: None,
        };
        self.insert_kitty(sender, kitty);
        let ghost s1 = *self;
        self.update_kitty(kitty_id1, new_id, kitty_id2);
        let ghost s2 = *self;
        self.update_kitty(kitty_id2, new_id, kitty_id1);
        proof {
            assert(s1.kitties@ == pre.kitties@.push(kitty));
            assert(s1.kitty_at(kitty_id1) == pre.kitty_at(kitty_id1));
            assert(s1.kitty_at(kitty_id2) == pre.kitty_at(kitty_id2));
            assert(s2.kitty_at(kitty_id2) == s1.kitty_at(kitty_id2));
            assert(self.kitty_at(kitty_id1) == s2.kitty_at(kitty_id1));
            assert(self.kitty_at(new_id) == s2.kitty_at(new_id));
            assert(s2.kitty_at(new_id) == s1.kitty_at(new_id));
            assert(s1.kitty_at(new_id) == kitty);
            assert forall|id3: u32|
                pre.has_kitty(id3) && id3 != kitty_id1 && id3 != kitty_id2
                    implies #[trigger] self.kitty_at(id3) == pre.kitty_at(id3) by {
                assert(s1.kitty_at(id3) == pre.kitty_at(id3));
                assert(s2.kitty_at(id3) == s1.kitty_at(id3));
                assert(self.kitty_at(id3) == s2.kitty_at(id3));
            }
            assert forall|a: u64| a != sender implies #[trigger] self.owned(a) == pre.owned(a) by {
                assert(s1.owned(a) == pre.owned(a));
                assert(s2.owned(a) == s1.owned(a));
                assert(self.owned(a) == s2.owned(a));
            }
            assert(self.owned(sender) == pre.owned(sender).push(new_id));
            let c1 = self.kitty_at(kitty_id1).children_seq();
            let p1 = self.kitty_at(kitty_id1).partners_seq();
            let c2 = self.kitty_at(kitty_id2).children_seq();
            let p2 = self.kitty_at(kitty_id2).partners_seq();
            assert(c1 == pre.kitty_at(kitty_id1).children_seq().push(new_id));
            assert(p1 == pre.kitty_at(kitty_id1).partners_seq().push(kitty_id2));
            assert(c2 == pre.kitty_at(kitty_id2).children_seq().push(new_id));
            assert(p2 == pre.kitty_at(kitty_id2).partners_seq().push(kitty_id1));
            assert(c1.contains(new_id)) by { assert(c1[c1.len() - 1] == new_id); }
            assert(p1.contains(kitty_id2)) by { assert(p1[p1.len() - 1] == kitty_id2); }
            assert(c2.contains(new_id)) by { assert(c2[c2.len() - 1] == new_id); }
            assert(p2.contains(kitty_id1)) by { assert(p2[p2.len() - 1] == kitty_id1); }
        }
        Ok(new_id)
    }

    /// Breeds a child from the two parents for `caller`, after reserving
    /// the stake amount on the ledger; the reservation is released again
    /// when the breeding itself fails, so a failed call leaves both the
    /// registry and the ledger unchanged. The child's code, lineage and
    /// ownership are as `do_bread` states; the errors are `do_bread`'s,
    /// behind the stake gate's `InsufficientBalance`.
    #[verifier::rlimit(50)]
    pub fn breed(
        &mut self,
        ledger: &mut Ledger,
        caller: u64,
        kitty_id1: u32,
        kitty_id2: u32,
        selector: Vec<u8>,
    ) -> (r: Result<u32, Error>)
        requires
            old(self).wf(),
            old(ledger).wf(),
            selector@.len() == DNA_LEN,
        ensures
            final(self).wf(),
            final(ledger).wf(),
            r == Err::<u32, Error>(Error::InsufficientBalance) <==> old(ledger).free_of(caller)
                < STAKE,
            r == Err::<u32, Error>(Error::RequireDifferentParent) <==> old(ledger).free_of(caller)
                >= STAKE && kitty_id1 == kitty_id2,
            r == Err::<u32, Error>(Error::InvalidKittyId) <==> old(ledger).free_of(caller) >= STAKE
                && kitty_id1 != kitty_id2 && (!old(self).has_kitty(kitty_id1) || !old(
            self,
            ).has_kitty(kitty_id2)),
            r == Err::<u32, Error>(Error::KittiesCountOverflow) <==> old(ledger).free_of(caller)
                >= STAKE && kitty_id1 != kitty_id2 && old(self).has_kitty(kitty_id1) && old(
                self,
            ).has_kitty(kitty_id2) && old(self).kitty_count() == u32::MAX as int,
            r is Ok <==> old(ledger).free_of(caller) >= STAKE && kitty_id1 != kitty_id2 && old(
                self,
            ).has_kitty(kitty_id1) && old(self).has_kitty(kitty_id2) && old(self).kitty_count()
                < u32::MAX as int,
            r is Err ==> final(self).kitty_count() == old(self).kitty_count(),
            r is Err ==> forall|id2: u32|
                old(self).has_kitty(id2)
                    ==> #[trigger] final(self).kitty_at(id2) == old(self).kitty_at(id2),
            r is Err ==> forall|a: u64| #[trigger] final(self).owned(a) == old(self).owned(a),
            r is Err ==> forall|a: u64|
                (#[trigger] final(ledger).free_of(a)) == old(ledger).free_of(a),
            r is Err ==> forall|a: u64|
                (#[trigger] final(ledger).reserved_of(a)) == old(ledger).reserved_of(a),
            staked(*old(self), *old(ledger)) ==> staked(*final(self), *final(ledger)),
            r matches Ok(child) ==> {
                &&& child == old(self).kitty_count() as u32
                &&& !old(self).has_kitty(child)
                &&& final(self).has_kitty(child)
                &&& final(self).kitty_count() == old(self).kitty_count() + 1
                &&& final(self).kitty_at(child).kitty_id == child
                &&& final(self).kitty_at(child).owner == caller
                &&& final(self).kitty_at(child).parents == Some((kitty_id1, kitty_id2))
                &&& final(self).kitty_at(child).children is None
                &&& final(self).kitty_at(child).breed_partners is None
                &&& final(self).kitty_at(child).dna@ == crate::dna::combined(
                    old(self).kitty_at(kitty_id1).dna@,
                    old(self).kitty_at(kitty_id2).dna@,
                    selector@,
                )
            },
            r matches Ok(child) ==> {
                &&& final(self).kitty_at(kitty_id1).children_seq() == old(self).kitty_at(
                    kitty_id1,
                ).children_seq().push(child)
                &&& final(self).kitty_at(kitty_id1).partners_seq() == old(self).kitty_at(
                    kitty_id1,
                ).partners_seq().push(kitty_id2)
                &&& final(self).kitty_at(kitty_id2).children_seq() == old(self).kitty_at(
                    kitty_id2,
                ).children_seq().push(child)
                &&& final(self).kitty_at(kitty_id2).partners_seq() == old(self).kitty_at(
                    kitty_id2,
                ).partners_seq().push(kitty_id1)
                &&& final(self).kitty_at(kitty_id1).children_seq().contains(child)
                &&& final(self).kitty_at(kitty_id1).partners_seq().contains(kitty_id2)
                &&& final(self).kitty_at(kitty_id2).children_seq().contains(child)
                &&& final(self).kitty_at(kitty_id2).partners_seq().contains(kitty_id1)
            },
            r is Ok ==> forall|id3: u32|
                old(self).has_kitty(id3) && id3 != kitty_id1 && id3 != kitty_id2
                    ==> #[trigger] final(self).kitty_at(id3) == old(self).kitty_at(id3),
            r matches Ok(child) ==> final(self).owned(caller) == old(self).owned(caller).push(
                child,
            ),
            r is Ok ==> forall|a: u64|
                a != caller ==> #[trigger] final(self).owned(a) == old(self).owned(a),
            r is Ok ==> final(ledger).free_of(caller) == old(ledger).free_of(caller) - STAKE
                && final(ledger).reserved_of(caller) == old(ledger).reserved_of(caller) + STAKE,
            r is Ok ==> forall|a: u64|
                a != caller ==> (#[trigger] final(ledger).free_of(a)) == old(ledger).free_of(a),
            r is Ok ==> forall|a: u64|
                a != caller ==> (#[trigger] final(ledger).reserved_of(a)) == old(
                    ledger,
                ).reserved_of(a),
    {
        match ledger.reserve(caller, STAKE) {
            Ok(_) => {},
            Err(e) => {
                proof {
                    if staked(*old(self), *old(ledger)) {
                        assert forall|a: u64| #[trigger] self.owned(a) == old(self).owned(a) by {}
                        assert forall|a: u64|
                            (#[trigger] ledger.reserved_of(a)) == old(ledger).reserved_of(a) by {}
                        lemma_staked_frame(*old(self), *old(ledger), *self, *ledger);
                    }
                }
                return Err(e);
            },
        }
        let ghost mid = *ledger;
        match self.do_bread(caller, kitty_id1, kitty_id2, selector) {
            Ok(child) => {
                proof {
                    if staked(*old(self), *old(ledger)) {
                        assert forall|a: u64|
                            (#[trigger] ledger.reserved_of(a)) as int >= STAKE * self.owned(
                                a,
                            ).len() by {
                            assert(old(ledger).reserved_of(a) as int >= STAKE * old(self).owned(
                                a,
                            ).len());
                            if a == caller {
                                assert(self.owned(caller) == old(self).owned(caller).push(child));
                                assert(ledger.reserved_of(caller) == old(ledger).reserved_of(
                                    caller,
                                ) + STAKE);
                            } else {
                                assert(self.owned(a) == old(self).owned(a));
                                assert(ledger.reserved_of(a) == old(ledger).reserved_of(a));
                            }
                        }
                    }
                }
                Ok(child)
            },
            Err(e) => {
                ledger.unreserve(caller, STAKE);
                proof {
                    assert forall|a: u64|
                        (#[trigger] ledger.free_of(a)) == old(ledger).free_of(a) by {
                        if a == caller {
                            assert(mid.reserved_of(caller) == old(ledger).reserved_of(caller)
                                + STAKE);
                            assert(unreserve_give(STAKE, mid.reserved_of(caller)) == STAKE);
                            assert(mid.free_of(caller) == old(ledger).free_of(caller) - STAKE);
                        } else {
                            assert(mid.free_of(a) == old(ledger).free_of(a));
                            assert(ledger.free_of(a) == mid.free_of(a));
                        }
                    }
                    assert forall|a: u64|
                        (#[trigger] ledger.reserved_of(a)) == old(ledger).reserved_of(a) by {
                        if a == caller {
                            assert(mid.reserved_of(caller) == old(ledger).reserved_of(caller)
                                + STAKE);
                            assert(unreserve_give(STAKE, mid.reserved_of(caller)) == STAKE);
                        } else {
                            assert(mid.reserved_of(a) == old(ledger).reserved_of(a));
                            assert(ledger.reserved_of(a) == mid.reserved_of(a));
                        }
                    }
                    if staked(*old(self), *old(ledger)) {
                        assert forall|a: u64| #[trigger] self.owned(a) == old(self).owned(a) by {}
                        lemma_staked_frame(*old(self), *old(ledger), *self, *ledger);
                    }
                }
                Err(e)
            },
        }
    }

    /// The parent pair of the asset `kitty_id`: present exactly for a
    /// bred asset; absent for a genesis asset or an unallocated id.
    pub fn get_parent(&self, kitty_id: u32) -> (r: Option<(u32, u32)>)
        ensures
            match r {
                Some(p) => self.has_kitty(kitty_id) && self.kitty_at(kitty_id).parents == Some(p),
                None => !self.has_kitty(kitty_id) || self.kitty_at(kitty_id).parents is None,
            },
    {
        if (kitty_id as usize) < self.kitties.len() {
            self.kitties[kitty_id as usize].parents
        } else {
            None
        }
    }

    /// The children list of the asset `kitty_id`: absent for an
    /// unallocated id or an asset that never bred.
    pub fn get_children(&self, kitty_id: u32) -> (r: Option<&Vec<u32>>)
        ensures
            match r {
                Some(c) => self.has_kitty(kitty_id) && self.kitty_at(kitty_id).children == Some(
                    *c,
                ),
                None => !self.has_kitty(kitty_id) || self.kitty_at(kitty_id).children is None,
            },
    {
        if (kitty_id as usize) < self.kitties.len() {
            self.kitties[kitty_id as usize].children.as_ref()
        } else {
            None
        }
    }

    /// The list of asset ids `account` owns, in acquisition order;
    /// absent when the account was never indexed, which means it owns
    /// nothing.
    pub fn kitty_list(&self, account: u64) -> (r: Option<&Vec<u32>>)
        ensures
            match r {
                Some(l) => l@ == self.owned(account),
                None => self.owned(account) == Seq::<u32>::empty(),
            },
    {
        self.kitty_list.get(&account)
    }

    /// The siblings of the asset `kitty_id`: every child of either of
    /// its parents, in lineage order, without the asset itself. Absent
    /// for an unallocated id or a genesis asset.
    pub fn get_brothers(&self, kitty_id: u32) -> (r: Option<Vec<u32>>)
        requires
            self.wf(),
        ensures
            match r {
                Some(v) => self.has_kitty(kitty_id) && (match self.kitty_at(kitty_id).parents {
                    Some(p) => v@ == seq_without(
                        self.kitty_at(p.0).children_seq() + self.kitty_at(p.1).children_seq(),
                        kitty_id,
                    ),
                    None => false,
                }),
                None => !self.has_kitty(kitty_id) || self.kitty_at(kitty_id).parents is None,
            },
    {
        if (kitty_id as usize) >= self.kitties.len() {
            return None;
        }
        proof {
            assert(self.kitty_wf(kitty_id as int));
        }
        match self.kitties[kitty_id as usize].parents {
            None => None,
            Some((p1, p2)) => {
                let mut brothers: Vec<u32> = Vec::new();
                match self.kitties[p1 as usize].children.as_ref() {
                    Some(c) => append_without(&mut brothers, c, kitty_id),
                    None => {},
                }
                let ghost part1 = brothers@;
                match self.kitties[p2 as usize].children.as_ref() {
                    Some(c) => append_without(&mut brothers, c, kitty_id),
                    None => {},
                }
                proof {
                    let c1 = self.kitty_at(p1).children_seq();
                    let c2 = self.kitty_at(p2).children_seq();
                    lemma_seq_without_add(c1, c2, kitty_id);
                    assert(part1 =~= Seq::empty() + seq_without(c1, kitty_id));
                    assert(part1 =~= seq_without(c1, kitty_id));
                    if self.kitty_at(p2).children is None {
                        assert(brothers@ =~= seq_without(c1, kitty_id) + seq_without(
                            c2,
                            kitty_id,
                        ));
                    }
                }
                Some(brothers)
            },
        }
    }
}

/// The economic tie between a registry and a ledger: every account has
/// at least one stake amount reserved for each asset it owns, so each
/// live asset is backed by one active reservation held by its current
/// owner. `create`, `transfer` and `breed` each ensure they preserve
/// this relation.
pub open spec fn staked(m: Module, l: Ledger) -> bool {
    forall|a: u64| (#[trigger] l.reserved_of(a)) as int >= STAKE * m.owned(a).len()
}

/// Where neither the owner lists nor the reserved balances change, the
/// staked relation carries over.
proof fn lemma_staked_frame(m1: Module, l1: Ledger, m2: Module, l2: Ledger)
    requires
        staked(m1, l1),
        forall|a: u64| #[trigger] m2.owned(a) == m1.owned(a),
        forall|a: u64| (#[trigger] l2.reserved_of(a)) == l1.reserved_of(a),
    ensures
        staked(m2, l2),
{
    assert forall|a: u64| (#[trigger] l2.reserved_of(a)) as int >= STAKE * m2.owned(a).len() by {
        assert(l1.reserved_of(a) as int >= STAKE * m1.owned(a).len());
        assert(m2.owned(a) == m1.owned(a));
        assert(l2.reserved_of(a) == l1.reserved_of(a));
    }
}

/// An id names an asset exactly when it lies below the counter: ids
/// are handed out from zero upward with no gaps and no removals.
pub broadcast proof fn lemma_has_kitty_iff_below_count(m: Module, id: u32)
    ensures
        #[trigger] m.has_kitty(id) <==> (id as int) < m.kitty_count(),
{
}

/// One successful creation or breeding step of a registry: the id it
/// allocated is the counter before the step, and the step advanced the
/// counter just past it. This is exactly what `create`, `breed` and
/// `do_bread` ensure of a successful call.
pub open spec fn creation_step(pre: Module, post: Module, id: u32) -> bool {
    &&& id as int == pre.kitty_count()
    &&& post.kitty_count() == pre.kitty_count() + 1
}

/// Law: ids are allocated in strictly increasing order and never
/// reused. When one successful creation or breeding is followed by
/// another — with any run of operations between them, none of which
/// shrinks the counter, as every operation here ensures — the later id
/// is strictly greater than the earlier one, and no step allocates an
/// id that already named an asset.
pub proof fn lemma_id_monotonicity(
    pre1: Module,
    post1: Module,
    id1: u32,
    pre2: Module,
    post2: Module,
    id2: u32,
)
    requires
        creation_step(pre1, post1, id1),
        creation_step(pre2, post2, id2),
        post1.kitty_count() <= pre2.kitty_count(),
    ensures
        id1 < id2,
        !pre1.has_kitty(id1),
        post1.has_kitty(id1),
        !pre2.has_kitty(id2),
{
}

} // verus!
