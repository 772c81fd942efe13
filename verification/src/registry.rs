use crate::kitty::combine_dna;
use crate::kitty::spec_combine;
use crate::kitty::Kitty;
use crate::owned_kitties::lemma_seq_without_contains;
use crate::owned_kitties::seq_without;
use crate::owned_kitties::KittyLinkedItem;
use crate::owned_kitties::OwnedKitties;
use vstd::map::*;
use vstd::prelude::*;

verus! {

/// The ways a registry operation can fail.
#[derive(Clone, Copy, PartialEq, Eq, Debug)]
pub enum Error {
    /// The identifier space is exhausted: the counter reached the maximum.
    KittiesCountOverflow,
    /// A referenced identifier has no stored creature.
    InvalidKittyId,
    /// Breeding needs two distinct parents.
    RequireDifferentParent,
    /// The sender does not own the creature it tried to transfer.
    RequireOwner,
}

/// One stored creature record, keyed by its identifier.
struct KittyEntry {
    id: u32,
    kitty: Kitty,
}

spec fn kitty_entries_wf(s: Seq<KittyEntry>) -> bool {
    forall|a: int, b: int| 0 <= a < b < s.len() ==> s[a].id != s[b].id
}

spec fn kitty_entries_view(s: Seq<KittyEntry>) -> Map<u32, Kitty> {
    Map::new(
        |id: u32| exists|i: int| 0 <= i < s.len() && (#[trigger] s[i]).id == id,
        |id: u32| s[choose|i: int| 0 <= i < s.len() && (#[trigger] s[i]).id == id].kitty,
    )
}

proof fn lemma_kitty_view_at(s: Seq<KittyEntry>, i: int)
    requires
        kitty_entries_wf(s),
        0 <= i < s.len(),
    ensures
        kitty_entries_view(s).contains_key(s[i].id),
        kitty_entries_view(s)[s[i].id] == s[i].kitty,
{
    let id = s[i].id;
    assert(kitty_entries_view(s).contains_key(id));
    let j = choose|j: int| 0 <= j < s.len() && (#[trigger] s[j]).id == id;
    assert(j == i);
}

proof fn lemma_kitty_view_absent(s: Seq<KittyEntry>, id: u32)
    requires
        forall|j: int| 0 <= j < s.len() ==> (#[trigger] s[j]).id != id,
    ensures
        !kitty_entries_view(s).contains_key(id),
{
}

proof fn lemma_kitty_view_push(s: Seq<KittyEntry>, e: KittyEntry)
    requires
        kitty_entries_wf(s),
        forall|j: int| 0 <= j < s.len() ==> (#[trigger] s[j]).id != e.id,
    ensures
        kitty_entries_wf(s.push(e)),
        kitty_entries_view(s.push(e)) == kitty_entries_view(s).insert(e.id, e.kitty),
{
    let s1 = s.push(e);
    assert forall|a: int, b: int| 0 <= a < b < s1.len() implies s1[a].id != s1[b].id by {
        assert(s1[a] == s[a]);
        if b < s.len() {
            assert(s1[b] == s[b]);
        } else {
            assert(s1[b] == e);
        }
    }
    assert_maps_equal!(kitty_entries_view(s1), kitty_entries_view(s).insert(e.id, e.kitty), id => {
        if id == e.id {
            assert(s1[s.len() as int] == e);
            lemma_kitty_view_at(s1, s.len() as int);
        } else {
            if kitty_entries_view(s1).contains_key(id) {
                let j = choose|j: int| 0 <= j < s1.len() && (#[trigger] s1[j]).id == id;
                assert(j < s.len());
                assert(s[j].id == id);
                lemma_kitty_view_at(s, j);
                lemma_kitty_view_at(s1, j);
            }
            if kitty_entries_view(s).contains_key(id) {
                let j = choose|j: int| 0 <= j < s.len() && (#[trigger] s[j]).id == id;
                assert(s1[j].id == id);
                lemma_kitty_view_at(s, j);
                lemma_kitty_view_at(s1, j);
            }
        }
    });
}

/// The registry: the stored creatures, the allocation counter, and the
/// per-owner membership index. Each instance is an independent world, so
/// callers can set up as many registries as they need.
pub struct Module {
    kitties: Vec<KittyEntry>,
    kitties_count: u32,
    owned: OwnedKitties,
}

impl Module {
    /// The stored creatures, as a map from identifier to record.
    pub closed spec fn kitties_map(self) -> Map<u32, Kitty> {
        kitty_entries_view(self.kitties@)
    }

    /// The allocation counter: the next identifier to hand out, and the
    /// total number of creatures ever created.
    pub closed spec fn count(self) -> u32 {
        self.kitties_count
    }

    /// The per-owner membership index.
    pub closed spec fn owned_index(self) -> OwnedKitties {
        self.owned
    }

    /// The identifiers owner `o` currently owns, oldest first.
    pub open spec fn owned_list(self, o: u64) -> Seq<u32> {
        self.owned_index().owned(o)
    }

    /// The creature store holds each identifier at most once.
    pub closed spec fn kitties_wf(self) -> bool {
        kitty_entries_wf(self.kitties@)
    }

    /// The registry invariant: the index is consistent, every stored
    /// identifier is below the counter, every owned identifier is stored,
    /// and no identifier is owned by two owners at once.
    pub open spec fn inv(self) -> bool {
        &&& self.kitties_wf()
        &&& self.owned_index().inv()
        &&& (forall|id: u32| #[trigger] self.kitties_map().contains_key(id) ==> id < self.count())
        &&& (forall|o: u64, i: int|
            0 <= i < self.owned_list(o).len() ==> self.kitties_map().contains_key(
                #[trigger] self.owned_list(o)[i],
            ))
        &&& (forall|o1: u64, o2: u64, id: u32|
            self.owned_list(o1).contains(id) && self.owned_list(o2).contains(id) ==> o1 == o2)
    }

    /// A registry with no creatures and no owners.
    pub fn new() -> (s: Self)
        ensures
            s.inv(),
            s.count() == 0,
            s.kitties_map() == Map::<u32, Kitty>::empty(),
            s.owned_index().store() == Map::<(u64, Option<u32>), KittyLinkedItem>::empty(),
            forall|o: u64| s.owned_list(o) == Seq::<u32>::empty(),
    {
        let s = Module { kitties: Vec::new(), kitties_count: 0, owned: OwnedKitties::new() };
        proof {
            assert(s.kitties_map() =~= Map::<u32, Kitty>::empty());
        }
        s
    }

    /// A registry whose counter already stands at `count` although nothing
    /// is stored, standing in for a host whose state was handed over with
    /// the counter pre-set.
    pub fn with_count(count: u32) -> (s: Self)
        ensures
            s.inv(),
            s.count() == count,
            s.kitties_map() == Map::<u32, Kitty>::empty(),
            forall|o: u64| s.owned_list(o) == Seq::<u32>::empty(),
    {
        let s = Module { kitties: Vec::new(), kitties_count: count, owned: OwnedKitties::new() };
        proof {
            assert(s.kitties_map() =~= Map::<u32, Kitty>::empty());
        }
        s
    }

    /// The stored creature under `kitty_id`, if any.
    pub fn kitties(&self, kitty_id: u32) -> (r: Option<Kitty>)
        requires
            self.kitties_wf(),
        ensures
            (match r {
                Some(k) => self.kitties_map().contains_key(kitty_id) && self.kitties_map()[kitty_id]
                    == k,
                None => !self.kitties_map().contains_key(kitty_id),
            }),
    {
        let n = self.kitties.len();
        let mut i: usize = 0;
        while i < n
            invariant
                kitty_entries_wf(self.kitties@),
                n == self.kitties@.len(),
                i <= n,
                forall|j: int| 0 <= j < i ==> (#[trigger] self.kitties@[j]).id != kitty_id,
            decreases n - i,
        {
            if self.kitties[i].id == kitty_id {
                proof {
                    assert(kitty_entries_wf(self.kitties@));
                    lemma_kitty_view_at(self.kitties@, i as int);
                }
                return Some(self.kitties[i].kitty);
            }
            i = i + 1;
        }
        proof {
            lemma_kitty_view_absent(self.kitties@, kitty_id);
        }
        None
    }

    /// The total number of creatures ever created, which is also the next
    /// identifier to allocate.
    pub fn kitties_count(&self) -> (r: u32)
        ensures
            r == self.count(),
    {
        self.kitties_count
    }

    /// The link node stored for `(account, key)` in the membership index.
    pub fn owned_kitties(&self, account: u64, key: Option<u32>) -> (r: Option<KittyLinkedItem>)
        requires
            self.inv(),
        ensures
            (match r {
                Some(item) => self.owned_index().store().contains_key((account, key)) && self
                    .owned_index().store()[(account, key)] == item,
                None => !self.owned_index().store().contains_key((account, key)),
            }),
    {
        self.owned.get(account, key)
    }

    /// The next identifier to allocate: the current counter value, or
    /// `KittiesCountOverflow` when the counter already holds the maximum
    /// representable identifier. Does not change any state.
    pub fn next_kitty_id(&self) -> (r: Result<u32, Error>)
        ensures
            (r == if self.count() == u32::MAX {
                Err::<u32, Error>(Error::KittiesCountOverflow)
            } else {
                Ok::<u32, Error>(self.count())
            }),
    {
        let kitty_id = self.kitties_count;
        if kitty_id == u32::MAX {
            return Err(Error::KittiesCountOverflow);
        }
        Ok(kitty_id)
    }

    /// Record `kitty_id` as owned by `owner`: append it at the tail of the
    /// owner's membership list.
    pub fn insert_owned_kitty(&mut self, owner: u64, kitty_id: u32)
        requires
            old(self).owned_index().inv(),
            !old(self).owned_list(owner).contains(kitty_id),
        ensures
            final(self).owned_index().inv(),
            final(self).kitties_map() == old(self).kitties_map(),
            final(self).kitties_wf() == old(self).kitties_wf(),
            final(self).count() == old(self).count(),
            final(self).owned_list(owner) == old(self).owned_list(owner).push(kitty_id),
            forall|o: u64| o != owner ==> final(self).owned_list(o) == old(self).owned_list(o),
    {
        self.owned.append(owner, kitty_id);
    }

    /// Store a freshly allocated creature and hand it to `owner`: write the
    /// record under `kitty_id`, advance the counter past it, and append it
    /// to the owner's list.
    pub fn insert_kitty(&mut self, owner: u64, kitty_id: u32, kitty: Kitty)
        requires
            old(self).inv(),
            kitty_id == old(self).count(),
            old(self).count() < u32::MAX,
        ensures
            final(self).inv(),
            final(self).count() == old(self).count() + 1,
            final(self).kitties_map() == old(self).kitties_map().insert(kitty_id, kitty),
            final(self).owned_list(owner) == old(self).owned_list(owner).push(kitty_id),
            forall|o: u64| o != owner ==> final(self).owned_list(o) == old(self).owned_list(o),
    {
        proof {
            assert(kitty_entries_wf(self.kitties@));
            assert forall|j: int| 0 <= j < self.kitties@.len() implies (
            #[trigger] self.kitties@[j]).id != kitty_id by {
                lemma_kitty_view_at(self.kitties@, j);
                assert(self.kitties_map().contains_key(self.kitties@[j].id));
            }
            lemma_kitty_view_push(self.kitties@, KittyEntry { id: kitty_id, kitty });
            if old(self).owned_list(owner).contains(kitty_id) {
                let w = choose|w: int|
                    0 <= w < old(self).owned_list(owner).len() && old(self).owned_list(owner)[w]
                        == kitty_id;
                assert(old(self).kitties_map().contains_key(old(self).owned_list(owner)[w]));
                assert(false);
            }
        }
        self.kitties.push(KittyEntry { id: kitty_id, kitty });
        self.kitties_count = kitty_id + 1;
        self.owned.append(owner, kitty_id);
        proof {
            let m1 = self.kitties_map();
            let m0 = old(self).kitties_map();
            assert forall|id: u32| #[trigger] m1.contains_key(id) implies id < self.count() by {
                if id != kitty_id {
                    assert(m0.contains_key(id));
                }
            }
            assert forall|o: u64, i: int|
                0 <= i < self.owned_list(o).len() implies m1.contains_key(
                #[trigger] self.owned_list(o)[i],
            ) by {
                if o == owner && i == old(self).owned_list(owner).len() {
                    assert(self.owned_list(o)[i] == kitty_id);
                } else {
                    assert(self.owned_list(o)[i] == old(self).owned_list(o)[i]);
                    assert(m0.contains_key(old(self).owned_list(o)[i]));
                }
            }
            assert forall|o1: u64, o2: u64, id: u32|
                self.owned_list(o1).contains(id) && self.owned_list(o2).contains(id) implies o1
                == o2 by {
                if o1 != o2 {
                    let w1 = choose|w: int|
                        0 <= w < self.owned_list(o1).len() && self.owned_list(o1)[w] == id;
                    let w2 = choose|w: int|
                        0 <= w < self.owned_list(o2).len() && self.owned_list(o2)[w] == id;
                    if id == kitty_id {
                        // a fresh identifier was owned by nobody before
                        if o1 != owner {
                            assert(old(self).owned_list(o1)[w1] == id);
                            assert(m0.contains_key(id));
                            assert(false);
                        }
                        if o2 != owner {
                            assert(old(self).owned_list(o2)[w2] == id);
                            assert(m0.contains_key(id));
                            assert(false);
                        }
                    } else {
                        assert(old(self).owned_list(o1).contains(id)) by {
                            if o1 == owner {
                                assert(w1 < old(self).owned_list(o1).len());
                            }
                            assert(old(self).owned_list(o1)[w1] == id);
                        }
                        assert(old(self).owned_list(o2).contains(id)) by {
                            if o2 == owner {
                                assert(w2 < old(self).owned_list(o2).len());
                            }
                            assert(old(self).owned_list(o2)[w2] == id);
                        }
                        assert(false);
                    }
                }
            }
        }
    }

    /// Create a creature for `sender` out of host-supplied DNA: allocate
    /// the next identifier, store the record and append it to the sender's
    /// list. Fails with `KittiesCountOverflow`, changing nothing, exactly
    /// when the identifier space is exhausted.
    ///
    /// The 16 DNA bytes are drawn by the host from its entropy source;
    /// which bytes arrive does not affect any guarantee here.
    pub fn create(&mut self, sender: u64, dna: [u8; 16]) -> (r: Result<u32, Error>)
        requires
            old(self).inv(),
        ensures
            final(self).inv(),
            old(self).count() == u32::MAX ==> r == Err::<u32, Error>(Error::KittiesCountOverflow)
                && *final(self) == *old(self),
            old(self).count() < u32::MAX ==> r == Ok::<u32, Error>(old(self).count())
                && final(self).count() == old(self).count() + 1
                && final(self).kitties_map() == old(self).kitties_map().insert(
                old(self).count(),
                Kitty(dna),
            ) && final(self).owned_list(sender) == old(self).owned_list(sender).push(
                old(self).count(),
            ),
            forall|o: u64| o != sender ==> final(self).owned_list(o) == old(self).owned_list(o),
    {
        let new_kitty_id = match self.next_kitty_id() {
            Ok(id) => id,
            Err(e) => {
                return Err(e);
            },
        };
        let new_kitty = Kitty(dna);
        self.insert_kitty(sender, new_kitty_id, new_kitty);
        Ok(new_kitty_id)
    }

    /// Breed a creature for `sender` out of two distinct existing parents,
    /// mixing their DNA byte by byte under the host-supplied selector mask.
    ///
    /// Fails with `InvalidKittyId` when either parent is not stored, with
    /// `RequireDifferentParent` when the parents coincide, and with
    /// `KittiesCountOverflow` when the identifier space is exhausted — each
    /// failure leaving the registry unchanged. The new creature belongs to
    /// `sender`, whoever owns the parents.
    pub fn do_breed(
        &mut self,
        sender: u64,
        kitty_id_1: u32,
        kitty_id_2: u32,
        selector: [u8; 16],
    ) -> (r: Result<u32, Error>)
        requires
            old(self).inv(),
        ensures
            final(self).inv(),
            (!old(self).kitties_map().contains_key(kitty_id_1) || !old(self).kitties_map().contains_key(kitty_id_2)) ==> r == Err::<u32, Error>(
                Error::InvalidKittyId,
            ) && *final(self) == *old(self),
            old(self).kitties_map().contains_key(kitty_id_1) && old(self).kitties_map().contains_key(kitty_id_2) && kitty_id_1 == kitty_id_2 ==> r == Err::<
                u32,
                Error,
            >(Error::RequireDifferentParent) && *final(self) == *old(self),
            old(self).kitties_map().contains_key(kitty_id_1) && old(self).kitties_map().contains_key(kitty_id_2) && kitty_id_1 != kitty_id_2 && old(self).count() == u32::MAX ==> r == Err::<u32, Error>(Error::KittiesCountOverflow) && *final(self) == *old(self),
            old(self).kitties_map().contains_key(kitty_id_1) && old(self).kitties_map().contains_key(kitty_id_2) && kitty_id_1 != kitty_id_2 && old(self).count() < u32::MAX ==> r == Ok::<u32, Error>(old(self).count())
                && final(self).count() == old(self).count() + 1
                && final(self).kitties_map().contains_key(old(self).count()) && (forall|i: int|
                0 <= i < 16 ==> final(self).kitties_map()[old(self).count()].0@[i] == spec_combine(
                    old(self).kitties_map()[kitty_id_1].0@[i],
                    old(self).kitties_map()[kitty_id_2].0@[i],
                    selector@[i],
                )) && (forall|id: u32|
                id != old(self).count() ==> final(self).kitties_map().contains_key(id) == old(self).kitties_map().contains_key(id)) && (forall|id: u32|
                id != old(self).count() && old(self).kitties_map().contains_key(id) ==> final(self).kitties_map()[id] == old(self).kitties_map()[id])
                && final(self).owned_list(sender) == old(self).owned_list(sender).push(
                old(self).count(),
            ),
            forall|o: u64| o != sender ==> final(self).owned_list(o) == old(self).owned_list(o),
    {
        let kitty1 = match self.kitties(kitty_id_1) {
            Some(k) => k,
            None => {
                return Err(Error::InvalidKittyId);
            },
        };
        let kitty2 = match self.kitties(kitty_id_2) {
            Some(k) => k,
            None => {
                return Err(Error::InvalidKittyId);
            },
        };
        if kitty_id_1 == kitty_id_2 {
            return Err(Error::RequireDifferentParent);
        }
        let kitty_id = match self.next_kitty_id() {
            Ok(id) => id,
            Err(e) => {
                return Err(e);
            },
        };

        let kitty1_dna = kitty1.0;
        let kitty2_dna = kitty2.0;
        let mut new_dna: [u8; 16] = [0u8; 16];
        for i in 0..16usize
            invariant
                forall|j: int|
                    0 <= j < i ==> new_dna@[j] == spec_combine(
                        kitty1_dna@[j],
                        kitty2_dna@[j],
                        selector@[j],
                    ),
        {
            new_dna[i] = combine_dna(kitty1_dna[i], kitty2_dna[i], selector[i]);
        }

        self.insert_kitty(sender, kitty_id, Kitty(new_dna));
        Ok(kitty_id)
    }

    /// Transfer `kitty_id` from `sender` to `to`: take it out of the
    /// sender's list and append it as the new tail of the receiver's, in
    /// one atomic step from the caller's point of view. Fails with
    /// `RequireOwner`, changing nothing, exactly when `sender` does not
    /// currently own `kitty_id`.
    ///
    /// Ownership is decided by whether a node for `(sender, kitty_id)` is
    /// stored — not by looking at the node's pointers, which are both
    /// `None` for a sole owned creature — so an owner's only creature
    /// transfers like any other.
    pub fn transfer(&mut self, sender: u64, to: u64, kitty_id: u32) -> (r: Result<(), Error>)
        requires
            old(self).inv(),
        ensures
            final(self).inv(),
            final(self).kitties_map() == old(self).kitties_map(),
            final(self).count() == old(self).count(),
            !old(self).owned_list(sender).contains(kitty_id) ==> r == Err::<(), Error>(
                Error::RequireOwner,
            ) && *final(self) == *old(self),
            old(self).owned_list(sender).contains(kitty_id) && to != sender ==> r == Ok::<
                (),
                Error,
            >(()) && final(self).owned_list(sender) == seq_without(
                old(self).owned_list(sender),
                kitty_id,
            ) && final(self).owned_list(to) == old(self).owned_list(to).push(kitty_id),
            old(self).owned_list(sender).contains(kitty_id) && to == sender ==> r == Ok::<
                (),
                Error,
            >(()) && final(self).owned_list(sender) == seq_without(
                old(self).owned_list(sender),
                kitty_id,
            ).push(kitty_id),
            forall|o: u64|
                o != sender && o != to ==> final(self).owned_list(o) == old(self).owned_list(o),
            forall|k: (u64, Option<u32>)|
                k.0 != sender && k.0 != to ==> final(self).owned_index().store().contains_key(k)
                    == old(self).owned_index().store().contains_key(k),
            forall|k: (u64, Option<u32>)|
                k.0 != sender && k.0 != to && old(self).owned_index().store().contains_key(k)
                    ==> final(self).owned_index().store()[k] == old(self).owned_index().store()[k],
    {
        proof {
            old(self).owned_index().lemma_node_iff_owned(sender, kitty_id);
            old(self).owned_index().lemma_owned_no_dup(sender);
        }
        let node = self.owned.get(sender, Some(kitty_id));
        if node.is_none() {
            return Err(Error::RequireOwner);
        }
        let ghost l_from = old(self).owned_list(sender);
        let ghost l_from2 = seq_without(l_from, kitty_id);
        let _ = self.owned.remove(sender, kitty_id);
        proof {
            lemma_seq_without_contains(l_from, kitty_id, kitty_id);
            if to != sender && old(self).owned_list(to).contains(kitty_id) {
                assert(false);
            }
        }
        let ghost l_to1 = self.owned_index().owned(to);
        self.owned.append(to, kitty_id);
        proof {
            let m0 = old(self).kitties_map();
            // Membership after the move: `kitty_id` moved from `sender` to
            // `to`, everything else stayed where it was.
            assert forall|o: u64, id2: u32| #[trigger]
                self.owned_list(o).contains(id2) implies (old(self).owned_list(o).contains(id2)
                || (o == to && id2 == kitty_id)) && !(o == sender && o != to
                && id2 == kitty_id) by {
                let w = choose|w: int|
                    0 <= w < self.owned_list(o).len() && self.owned_list(o)[w] == id2;
                if o == to {
                    if w < l_to1.len() {
                        assert(l_to1[w] == id2);
                        assert(l_to1.contains(id2));
                        if to == sender {
                            assert(l_to1 == l_from2);
                            lemma_seq_without_contains(l_from, kitty_id, id2);
                        }
                    } else {
                        assert(id2 == kitty_id);
                    }
                } else if o == sender {
                    assert(self.owned_list(o) == l_from2);
                    lemma_seq_without_contains(l_from, kitty_id, id2);
                }
            }
            // Every owned identifier is still a stored one.
            assert forall|o: u64, i: int|
                0 <= i < self.owned_list(o).len() implies m0.contains_key(
                #[trigger] self.owned_list(o)[i],
            ) by {
                let id2 = self.owned_list(o)[i];
                assert(self.owned_list(o).contains(id2));
                if old(self).owned_list(o).contains(id2) {
                    let w = choose|w: int|
                        0 <= w < old(self).owned_list(o).len() && old(self).owned_list(o)[w]
                            == id2;
                    assert(m0.contains_key(old(self).owned_list(o)[w]));
                } else {
                    assert(id2 == kitty_id);
                    let w = choose|w: int| 0 <= w < l_from.len() && l_from[w] == kitty_id;
                    assert(m0.contains_key(old(self).owned_list(sender)[w]));
                }
            }
            // No identifier ended up in two lists.
            assert forall|o1: u64, o2: u64, id2: u32|
                self.owned_list(o1).contains(id2) && self.owned_list(o2).contains(id2) implies o1
                == o2 by {
                if o1 != o2 {
                    if id2 == kitty_id {
                        if o1 != to {
                            assert(old(self).owned_list(o1).contains(kitty_id));
                            assert(o1 == sender);
                            assert(false);
                        }
                        if o2 != to {
                            assert(old(self).owned_list(o2).contains(kitty_id));
                            assert(o2 == sender);
                            assert(false);
                        }
                    } else {
                        assert(old(self).owned_list(o1).contains(id2));
                        assert(old(self).owned_list(o2).contains(id2));
                    }
                }
            }
        }
        Ok(())
    }
}

} // verus!
