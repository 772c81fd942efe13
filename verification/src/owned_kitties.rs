use vstd::prelude::*;
use vstd::map::*;

verus! {

/// One link node of an owner's doubly-linked membership list.
///
/// The node stored under key `(owner, None)` is the sentinel: its `next` is
/// the head (oldest owned identifier) and its `prev` the tail (most recently
/// appended identifier). The node under `(owner, Some(id))` exists exactly
/// when the owner currently owns `id`, and points at the neighbouring owned
/// identifiers in append order, `None` standing for "no neighbour".
#[derive(Clone, Copy, PartialEq, Eq, Debug)]
pub struct KittyLinkedItem {
    pub prev: Option<u32>,
    pub next: Option<u32>,
}

/// One stored key-value pair of the flat store backing the index.
struct LinkEntry {
    owner: u64,
    key: Option<u32>,
    item: KittyLinkedItem,
}

spec fn entry_key(e: LinkEntry) -> (u64, Option<u32>) {
    (e.owner, e.key)
}

spec fn entries_wf(s: Seq<LinkEntry>) -> bool {
    forall|a: int, b: int|
        0 <= a < b < s.len() ==> entry_key(s[a]) != entry_key(s[b])
}

spec fn entries_view(s: Seq<LinkEntry>) -> Map<(u64, Option<u32>), KittyLinkedItem> {
    Map::new(
        |k: (u64, Option<u32>)|
            exists|i: int| 0 <= i < s.len() && entry_key(#[trigger] s[i]) == k,
        |k: (u64, Option<u32>)|
            s[choose|i: int| 0 <= i < s.len() && entry_key(#[trigger] s[i]) == k].item,
    )
}

proof fn lemma_view_at(s: Seq<LinkEntry>, i: int)
    requires
        entries_wf(s),
        0 <= i < s.len(),
    ensures
        entries_view(s).contains_key(entry_key(s[i])),
        entries_view(s)[entry_key(s[i])] == s[i].item,
{
    let k = entry_key(s[i]);
    assert(entries_view(s).contains_key(k));
    let j = choose|j: int| 0 <= j < s.len() && entry_key(#[trigger] s[j]) == k;
    assert(entry_key(s[j]) == entry_key(s[i]));
    assert(j == i);
}

proof fn lemma_view_absent(s: Seq<LinkEntry>, k: (u64, Option<u32>))
    requires
        forall|j: int| 0 <= j < s.len() ==> entry_key(#[trigger] s[j]) != k,
    ensures
        !entries_view(s).contains_key(k),
{
}

proof fn lemma_view_update(s: Seq<LinkEntry>, i: int, e: LinkEntry)
    requires
        entries_wf(s),
        0 <= i < s.len(),
        entry_key(e) == entry_key(s[i]),
    ensures
        entries_wf(s.update(i, e)),
        entries_view(s.update(i, e)) == entries_view(s).insert(entry_key(e), e.item),
{
    let s1 = s.update(i, e);
    let k = entry_key(e);
    assert forall|a: int, b: int| 0 <= a < b < s1.len() implies entry_key(s1[a]) != entry_key(
        s1[b],
    ) by {
        assert(entry_key(s1[a]) == entry_key(s[a]));
        assert(entry_key(s1[b]) == entry_key(s[b]));
    }
    assert_maps_equal!(entries_view(s1), entries_view(s).insert(k, e.item), k2 => {
        if k2 == k {
            lemma_view_at(s1, i);
        } else {
            if entries_view(s1).contains_key(k2) {
                let j = choose|j: int| 0 <= j < s1.len() && entry_key(#[trigger] s1[j]) == k2;
                assert(entry_key(s[j]) == k2);
                lemma_view_at(s, j);
                lemma_view_at(s1, j);
            }
            if entries_view(s).contains_key(k2) {
                let j = choose|j: int| 0 <= j < s.len() && entry_key(#[trigger] s[j]) == k2;
                assert(entry_key(s1[j]) == k2);
                lemma_view_at(s, j);
                lemma_view_at(s1, j);
            }
        }
    });
}

proof fn lemma_view_push(s: Seq<LinkEntry>, e: LinkEntry)
    requires
        entries_wf(s),
        forall|j: int| 0 <= j < s.len() ==> entry_key(#[trigger] s[j]) != entry_key(e),
    ensures
        entries_wf(s.push(e)),
        entries_view(s.push(e)) == entries_view(s).insert(entry_key(e), e.item),
{
    let s1 = s.push(e);
    let k = entry_key(e);
    assert forall|a: int, b: int| 0 <= a < b < s1.len() implies entry_key(s1[a]) != entry_key(
        s1[b],
    ) by {
        assert(entry_key(s1[a]) == entry_key(s[a]));
        if b < s.len() {
            assert(entry_key(s1[b]) == entry_key(s[b]));
        } else {
            assert(s1[b] == e);
        }
    }
    assert_maps_equal!(entries_view(s1), entries_view(s).insert(k, e.item), k2 => {
        if k2 == k {
            assert(s1[s.len() as int] == e);
            lemma_view_at(s1, s.len() as int);
        } else {
            if entries_view(s1).contains_key(k2) {
                let j = choose|j: int| 0 <= j < s1.len() && entry_key(#[trigger] s1[j]) == k2;
                assert(j < s.len());
                assert(entry_key(s[j]) == k2);
                lemma_view_at(s, j);
                lemma_view_at(s1, j);
            }
            if entries_view(s).contains_key(k2) {
                let j = choose|j: int| 0 <= j < s.len() && entry_key(#[trigger] s[j]) == k2;
                assert(entry_key(s1[j]) == k2);
                lemma_view_at(s, j);
                lemma_view_at(s1, j);
            }
        }
    });
}

proof fn lemma_view_remove(s: Seq<LinkEntry>, i: int)
    requires
        entries_wf(s),
        0 <= i < s.len(),
    ensures
        entries_wf(s.remove(i)),
        entries_view(s.remove(i)) == entries_view(s).remove(entry_key(s[i])),
{
    let s1 = s.remove(i);
    let k = entry_key(s[i]);
    assert(s1.len() == s.len() - 1);
    assert forall|j: int| 0 <= j < s1.len() implies s1[j] == s[if j < i {
        j
    } else {
        j + 1
    }] by {}
    assert forall|a: int, b: int| 0 <= a < b < s1.len() implies entry_key(s1[a]) != entry_key(
        s1[b],
    ) by {
        let a0 = if a < i { a } else { a + 1 };
        let b0 = if b < i { b } else { b + 1 };
        assert(s1[a] == s[a0]);
        assert(s1[b] == s[b0]);
        assert(a0 < b0);
    }
    assert_maps_equal!(entries_view(s1), entries_view(s).remove(k), k2 => {
        if entries_view(s1).contains_key(k2) {
            let j = choose|j: int| 0 <= j < s1.len() && entry_key(#[trigger] s1[j]) == k2;
            let j0 = if j < i { j } else { j + 1 };
            assert(s1[j] == s[j0]);
            lemma_view_at(s, j0);
            lemma_view_at(s1, j);
            assert(j0 != i || k2 == k);
            if k2 == k {
                assert(entry_key(s[j0]) == entry_key(s[i]));
                assert(j0 == i);
                assert(false);
            }
        }
        if k2 != k && entries_view(s).contains_key(k2) {
            let j0 = choose|j: int| 0 <= j < s.len() && entry_key(#[trigger] s[j]) == k2;
            assert(j0 != i);
            let j = if j0 < i { j0 } else { j0 - 1 };
            assert(s1[j] == s[j0]);
            lemma_view_at(s, j0);
            lemma_view_at(s1, j);
        }
    });
}

/// The head of a list `l`: its first element, or `None` when `l` is empty.
pub open spec fn first_opt(l: Seq<u32>) -> Option<u32> {
    if l.len() == 0 {
        None
    } else {
        Some(l[0])
    }
}

/// The tail of a list `l`: its last element, or `None` when `l` is empty.
pub open spec fn last_opt(l: Seq<u32>) -> Option<u32> {
    if l.len() == 0 {
        None
    } else {
        Some(l[l.len() - 1])
    }
}

/// The sentinel node describing a list `l`: `next` points at the head and
/// `prev` at the tail.
pub open spec fn sentinel_of(l: Seq<u32>) -> KittyLinkedItem {
    KittyLinkedItem { prev: last_opt(l), next: first_opt(l) }
}

/// The link node that position `i` of list `l` must carry: `prev` is the
/// preceding identifier (or `None` at the head) and `next` the following one
/// (or `None` at the tail).
pub open spec fn link_at(l: Seq<u32>, i: int) -> KittyLinkedItem {
    KittyLinkedItem {
        prev: if i == 0 {
            None
        } else {
            Some(l[i - 1])
        },
        next: if i == l.len() - 1 {
            None
        } else {
            Some(l[i + 1])
        },
    }
}

/// The stored nodes under owner `o` spell out exactly the list `l`:
/// the sentinel points at head and tail, position `i` of `l` is stored with
/// its two neighbours, and no node outside `l` is stored for `o`. Walking
/// `next` pointers from the sentinel therefore visits `l` in append order,
/// and walking `prev` pointers visits it in reverse.
pub open spec fn list_ok(
    store: Map<(u64, Option<u32>), KittyLinkedItem>,
    o: u64,
    l: Seq<u32>,
) -> bool {
    &&& l.no_duplicates()
    &&& store.contains_key((o, None::<u32>))
    &&& store[(o, None::<u32>)] == sentinel_of(l)
    &&& (forall|i: int| 0 <= i < l.len() ==> store.contains_key((o, Some(#[trigger] l[i]))))
    &&& (forall|i: int| 0 <= i < l.len() ==> store[(o, Some(#[trigger] l[i]))] == link_at(l, i))
    &&& (forall|id: u32| #[trigger] store.contains_key((o, Some(id))) ==> l.contains(id))
}

/// The per-owner membership index: a doubly-linked list per owner, kept as
/// flat key-value entries under keys `(owner, Option<identifier>)`, with
/// O(1) append and O(1) removal through point reads and writes alone.
pub struct OwnedKitties {
    entries: Vec<LinkEntry>,
    lists: Ghost<Map<u64, Seq<u32>>>,
}

impl OwnedKitties {
    /// The flat store, as a map from `(owner, Option<identifier>)` keys to
    /// link nodes.
    pub closed spec fn store(self) -> Map<(u64, Option<u32>), KittyLinkedItem> {
        entries_view(self.entries@)
    }

    /// The abstract content: each owner that has ever appended maps to the
    /// sequence of identifiers it currently owns, in append order.
    pub closed spec fn lists(self) -> Map<u64, Seq<u32>> {
        self.lists@
    }

    /// The identifiers owner `o` currently owns, oldest first.
    pub open spec fn owned(self, o: u64) -> Seq<u32> {
        if self.lists().contains_key(o) {
            self.lists()[o]
        } else {
            Seq::empty()
        }
    }

    /// The store holds each key at most once.
    pub closed spec fn wf(self) -> bool {
        entries_wf(self.entries@)
    }

    /// The index invariant: every owner with a sentinel has a list whose
    /// nodes are spelled out consistently in the store, and nothing else is
    /// stored.
    pub open spec fn inv(self) -> bool {
        &&& self.wf()
        &&& (forall|o: u64| #[trigger]
            self.lists().contains_key(o) ==> list_ok(self.store(), o, self.lists()[o]))
        &&& (forall|o: u64|
            self.store().contains_key((o, None::<u32>)) == self.lists().contains_key(o))
        &&& (forall|o: u64, id: u32| #[trigger]
            self.store().contains_key((o, Some(id))) ==> self.lists().contains_key(o))
    }

    /// An index with no entries: no owner owns anything and no sentinel has
    /// been written yet.
    pub fn new() -> (s: Self)
        ensures
            s.inv(),
            s.store() == Map::<(u64, Option<u32>), KittyLinkedItem>::empty(),
            s.lists() == Map::<u64, Seq<u32>>::empty(),
    {
        let s = OwnedKitties { entries: Vec::new(), lists: Ghost(Map::empty()) };
        proof {
            assert(s.store() =~= Map::<(u64, Option<u32>), KittyLinkedItem>::empty());
        }
        s
    }

    fn find_index(&self, account: u64, key: Option<u32>) -> (r: Option<usize>)
        ensures
            (match r {
                Some(i) => i < self.entries@.len() && entry_key(self.entries@[i as int]) == (
                account,
                key,
                ),
                None => forall|j: int|
                    0 <= j < self.entries@.len() ==> entry_key(#[trigger] self.entries@[j]) != (
                    account,
                    key,
                    ),
            }),
    {
        let n = self.entries.len();
        let mut i: usize = 0;
        while i < n
            invariant
                n == self.entries@.len(),
                i <= n,
                forall|j: int|
                    0 <= j < i ==> entry_key(#[trigger] self.entries@[j]) != (account, key),
            decreases n - i,
        {
            let e = &self.entries[i];
            if e.owner == account && opt_id_eq(e.key, key) {
                return Some(i);
            }
            i = i + 1;
        }
        None
    }

    /// The stored node under `(account, key)`, or `None` when nothing is
    /// stored there.
    pub fn get(&self, account: u64, key: Option<u32>) -> (r: Option<KittyLinkedItem>)
        requires
            self.wf(),
        ensures
            (match r {
                Some(item) => self.store().contains_key((account, key)) && self.store()[(
                    account,
                    key,
                )] == item,
                None => !self.store().contains_key((account, key)),
            }),
    {
        match self.find_index(account, key) {
            Some(i) => {
                proof {
                    lemma_view_at(self.entries@, i as int);
                }
                Some(self.entries[i].item)
            },
            None => {
                proof {
                    lemma_view_absent(self.entries@, (account, key));
                }
                None
            },
        }
    }

    /// A point read with the substrate's default: an absent node reads as
    /// `{ prev: None, next: None }`.
    fn read(&self, account: u64, key: Option<u32>) -> (r: KittyLinkedItem)
        requires
            self.wf(),
        ensures
            (r == if self.store().contains_key((account, key)) {
                self.store()[(account, key)]
            } else {
                KittyLinkedItem { prev: None, next: None }
            }),
    {
        match self.get(account, key) {
            Some(item) => item,
            None => KittyLinkedItem { prev: None, next: None },
        }
    }

    /// The sentinel node of `account`'s list, reading as an empty list's
    /// sentinel while none has been written yet.
    fn read_head(&self, account: u64) -> (r: KittyLinkedItem)
        requires
            self.wf(),
        ensures
            (r == if self.store().contains_key((account, None::<u32>)) {
                self.store()[(account, None::<u32>)]
            } else {
                KittyLinkedItem { prev: None, next: None }
            }),
    {
        self.read(account, None)
    }

    /// Store `item` as the sentinel node of `account`'s list.
    fn write_head(&mut self, account: u64, item: KittyLinkedItem)
        requires
            old(self).wf(),
        ensures
            final(self).wf(),
            final(self).store() == old(self).store().insert((account, None::<u32>), item),
            final(self).lists() == old(self).lists(),
    {
        self.write(account, None, item);
    }

    /// A point write: stores `item` under `(account, key)`, replacing any
    /// node already there.
    fn write(&mut self, account: u64, key: Option<u32>, item: KittyLinkedItem)
        requires
            old(self).wf(),
        ensures
            final(self).wf(),
            final(self).store() == old(self).store().insert((account, key), item),
            final(self).lists() == old(self).lists(),
    {
        let e = LinkEntry { owner: account, key, item };
        match self.find_index(account, key) {
            Some(i) => {
                proof {
                    lemma_view_update(self.entries@, i as int, e);
                }
                self.entries[i] = e;
            },
            None => {
                proof {
                    lemma_view_push(self.entries@, e);
                }
                self.entries.push(e);
            },
        }
    }

    /// A point take: reads and deletes the node under `(account, key)` in
    /// one step, returning `None` (and changing nothing) when it is absent.
    fn take(&mut self, account: u64, key: Option<u32>) -> (r: Option<KittyLinkedItem>)
        requires
            old(self).wf(),
        ensures
            final(self).wf(),
            final(self).lists() == old(self).lists(),
            (match r {
                Some(item) => old(self).store().contains_key((account, key)) && item == old(
                    self,
                ).store()[(account, key)] && final(self).store() == old(self).store().remove(
                    (account, key),
                ),
                None => !old(self).store().contains_key((account, key)) && *final(self) == *old(
                    self,
                ),
            }),
    {
        match self.find_index(account, key) {
            Some(i) => {
                proof {
                    lemma_view_at(self.entries@, i as int);
                    lemma_view_remove(self.entries@, i as int);
                }
                let e = self.entries.remove(i);
                Some(e.item)
            },
            None => {
                proof {
                    lemma_view_absent(self.entries@, (account, key));
                }
                None
            },
        }
    }
}

proof fn lemma_list_ok_agree(
    sa: Map<(u64, Option<u32>), KittyLinkedItem>,
    sb: Map<(u64, Option<u32>), KittyLinkedItem>,
    o: u64,
    l: Seq<u32>,
)
    requires
        list_ok(sa, o, l),
        forall|key: Option<u32>| #![trigger sb.contains_key((o, key))]
            sb.contains_key((o, key)) == sa.contains_key((o, key)),
        forall|key: Option<u32>| #![trigger sa.contains_key((o, key))]
            sa.contains_key((o, key)) ==> sb[(o, key)] == sa[(o, key)],
    ensures
        list_ok(sb, o, l),
{
    assert(sb.contains_key((o, None::<u32>)));
    assert(sb[(o, None::<u32>)] == sentinel_of(l));
    assert forall|i: int| 0 <= i < l.len() implies sb.contains_key((o, Some(#[trigger] l[i])))
        && sb[(o, Some(l[i]))] == link_at(l, i) by {
        assert(sa.contains_key((o, Some(l[i]))));
    }
    assert forall|id: u32| #[trigger] sb.contains_key((o, Some(id))) implies l.contains(id) by {
        assert(sa.contains_key((o, Some(id))));
    }
}

impl OwnedKitties {
    /// Append `kitty_id` as the new tail of `account`'s list.
    ///
    /// The algorithm is a fixed sequence of point reads and writes with no
    /// branch on whether the list is empty: after the sentinel is rewritten,
    /// the old tail is re-read at key `(account, old tail)` — which for an
    /// empty list is the sentinel key itself, so the read observes the value
    /// just written and the bootstrap falls out of the same code path.
    pub fn append(&mut self, account: u64, kitty_id: u32)
        requires
            old(self).inv(),
            !old(self).owned(account).contains(kitty_id),
        ensures
            final(self).inv(),
            final(self).lists() == old(self).lists().insert(
                account,
                old(self).owned(account).push(kitty_id),
            ),
            final(self).owned(account) == old(self).owned(account).push(kitty_id),
            forall|o: u64| o != account ==> final(self).owned(o) == old(self).owned(o),
            forall|k: (u64, Option<u32>)|
                k.0 != account ==> final(self).store().contains_key(k) == old(
                    self,
                ).store().contains_key(k),
            forall|k: (u64, Option<u32>)|
                k.0 != account && old(self).store().contains_key(k) ==> final(self).store()[k]
                    == old(self).store()[k],
    {
        let ghost l = old(self).owned(account);
        let ghost n = l.len() as int;
        let ghost s0 = self.store();

        let head = self.read_head(account);
        proof {
            if self.lists().contains_key(account) {
                assert(list_ok(s0, account, l));
            }
            assert(head == sentinel_of(l));
            if n > 0 {
                assert(self.lists().contains_key(account));
                assert(s0.contains_key((account, Some(l[n - 1]))));
                assert(s0[(account, Some(l[n - 1]))] == link_at(l, n - 1));
            }
            if s0.contains_key((account, Some(kitty_id))) {
                assert(self.lists().contains_key(account));
                assert(l.contains(kitty_id));
                assert(false);
            }
        }
        let new_head = KittyLinkedItem { prev: Some(kitty_id), next: head.next };
        self.write_head(account, new_head);
        let ghost s1 = self.store();

        let prev = self.read(account, head.prev);
        proof {
            if n == 0 {
                assert(prev == new_head);
            } else {
                assert((account, Some(l[n - 1])) != (account, None::<u32>));
                assert(prev == link_at(l, n - 1));
            }
        }
        let new_prev = KittyLinkedItem { prev: prev.prev, next: Some(kitty_id) };
        self.write(account, head.prev, new_prev);
        let ghost s2 = self.store();

        let item = KittyLinkedItem { prev: head.prev, next: None };
        self.write(account, Some(kitty_id), item);
        let ghost s3 = self.store();

        let ghost l2 = l.push(kitty_id);
        proof {
            self.lists@ = self.lists@.insert(account, l2);

            let a = account;
            let id = kitty_id;
            assert(l2.no_duplicates()) by {
                assert forall|x: int, y: int|
                    0 <= x < l2.len() && 0 <= y < l2.len() && x != y implies l2[x] != l2[y] by {
                    if x < n && y < n {
                        assert(l2[x] == l[x] && l2[y] == l[y]);
                    } else if x == n && y < n {
                        assert(l2[y] == l[y]);
                        if l[y] == id {
                            assert(l.contains(id));
                        }
                    } else {
                        assert(l2[x] == l[x]);
                        if l[x] == id {
                            assert(l.contains(id));
                        }
                    }
                }
            }
            // The sentinel now points at the new tail and the unchanged head.
            assert(s3.contains_key((a, None::<u32>)));
            if n == 0 {
                assert(s3[(a, None::<u32>)] == new_prev);
                assert(new_prev == sentinel_of(l2));
            } else {
                assert((account, Some(l[n - 1])) != (account, None::<u32>));
                assert(s3[(a, None::<u32>)] == new_head);
                assert(l2[0] == l[0] && l2[n] == id);
                assert(new_head == sentinel_of(l2));
            }
            // Every position of the new list is stored with its neighbours.
            assert forall|i: int| 0 <= i < l2.len() implies s3.contains_key(
                (a, Some(#[trigger] l2[i])),
            ) && s3[(a, Some(l2[i]))] == link_at(l2, i) by {
                if i == n {
                    assert(l2[i] == id);
                    assert(s3[(a, Some(id))] == item);
                    if n > 0 {
                        assert(l2[n - 1] == l[n - 1]);
                    }
                    assert(item == link_at(l2, n));
                } else {
                    assert(l2[i] == l[i]);
                    assert(l.contains(l[i]));
                    assert(l[i] != id);
                    assert((a, Some(l[i])) != (a, Some(id)));
                    assert((a, Some(l[i])) != (a, None::<u32>));
                    if i == n - 1 {
                        assert(s3[(a, Some(l[i]))] == new_prev);
                        assert(l2[n] == id);
                        if i > 0 {
                            assert(l2[i - 1] == l[i - 1]);
                        }
                        assert(new_prev == link_at(l2, i));
                    } else {
                        assert(l[i] != l[n - 1]);
                        assert((a, Some(l[i])) != (a, Some(l[n - 1])));
                        assert(s3[(a, Some(l[i]))] == s0[(a, Some(l[i]))]);
                        assert(old(self).lists().contains_key(a));
                        assert(s0[(a, Some(l[i]))] == link_at(l, i));
                        assert(l2[i + 1] == l[i + 1]);
                        if i > 0 {
                            assert(l2[i - 1] == l[i - 1]);
                        }
                        assert(link_at(l2, i) == link_at(l, i));
                    }
                }
            }
            // Nothing is stored for this owner outside the new list.
            assert forall|id2: u32| #[trigger] s3.contains_key((a, Some(id2))) implies l2.contains(
                id2,
            ) by {
                if id2 == id {
                    assert(l2[n] == id);
                } else if n > 0 && id2 == l[n - 1] {
                    assert(l2[n - 1] == l[n - 1]);
                } else {
                    assert((a, Some(id2)) != (a, Some(id)));
                    assert(s2.contains_key((a, Some(id2))));
                    assert(s1.contains_key((a, Some(id2))));
                    assert(s0.contains_key((a, Some(id2))));
                    assert(old(self).lists().contains_key(a));
                    assert(l.contains(id2));
                    let w = choose|w: int| 0 <= w < l.len() && l[w] == id2;
                    assert(l2[w] == id2);
                }
            }
            assert(list_ok(s3, a, l2));
            // Other owners' nodes are untouched, so their lists still hold.
            assert forall|o: u64| #[trigger] self.lists().contains_key(o) implies list_ok(
                s3,
                o,
                self.lists()[o],
            ) by {
                if o == a {
                    assert(self.lists()[a] == l2);
                } else {
                    assert(old(self).lists().contains_key(o));
                    let lo = old(self).lists()[o];
                    assert(list_ok(s0, o, lo));
                    assert forall|key: Option<u32>| #![trigger s3.contains_key((o, key))]
                        s3.contains_key((o, key)) == s0.contains_key((o, key)) by {
                        assert((o, key) != (a, None::<u32>));
                        assert((o, key) != (a, head.prev));
                        assert((o, key) != (a, Some(id)));
                    }
                    assert forall|key: Option<u32>| #![trigger s0.contains_key((o, key))]
                        s0.contains_key((o, key)) implies s3[(o, key)] == s0[(o, key)] by {
                        assert((o, key) != (a, None::<u32>));
                        assert((o, key) != (a, head.prev));
                        assert((o, key) != (a, Some(id)));
                    }
                    lemma_list_ok_agree(s0, s3, o, lo);
                    assert(self.lists()[o] == lo);
                }
            }
            assert forall|o: u64| s3.contains_key((o, None::<u32>)) == self.lists().contains_key(
                o,
            ) by {
                if o != a {
                    assert((o, None::<u32>) != (a, None::<u32>));
                    assert((o, None::<u32>) != (a, head.prev));
                    assert((o, None::<u32>) != (a, Some(id)));
                    assert(s3.contains_key((o, None::<u32>)) == s0.contains_key((o, None::<u32>)));
                }
            }
            assert forall|o: u64, id2: u32| #[trigger] s3.contains_key((o, Some(id2))) implies self
                .lists().contains_key(o) by {
                if o != a {
                    assert((o, Some(id2)) != (a, None::<u32>));
                    assert((o, Some(id2)) != (a, head.prev));
                    assert((o, Some(id2)) != (a, Some(id)));
                    assert(s0.contains_key((o, Some(id2))));
                }
            }
            // Isolation: no key of another owner was created, dropped or
            // rewritten.
            assert forall|k: (u64, Option<u32>)| k.0 != account implies s3.contains_key(k) == s0
                .contains_key(k) by {
                assert(k != (a, None::<u32>));
                assert(k != (a, head.prev));
                assert(k != (a, Some(id)));
            }
            assert forall|k: (u64, Option<u32>)| k.0 != account && s0.contains_key(k) implies s3[k]
                == s0[k] by {
                assert(k != (a, None::<u32>));
                assert(k != (a, head.prev));
                assert(k != (a, Some(id)));
            }
        }
    }
}

/// The splice at the heart of removal: after deleting position `i`'s node
/// and rewriting its two neighbours (each rewrite landing on the sentinel
/// where the removed element was head or tail), the store spells out the
/// shortened list.
#[verifier::rlimit(100)]
proof fn lemma_remove_relink(
    s0: Map<(u64, Option<u32>), KittyLinkedItem>,
    s1: Map<(u64, Option<u32>), KittyLinkedItem>,
    s2: Map<(u64, Option<u32>), KittyLinkedItem>,
    s3: Map<(u64, Option<u32>), KittyLinkedItem>,
    a: u64,
    l: Seq<u32>,
    i: int,
    new_prev: KittyLinkedItem,
    new_next: KittyLinkedItem,
)
    requires
        list_ok(s0, a, l),
        0 <= i < l.len(),
        s1 == s0.remove((a, Some(l[i]))),
        new_prev == (KittyLinkedItem {
            prev: (if i == 0 {
                sentinel_of(l)
            } else {
                link_at(l, i - 1)
            }).prev,
            next: link_at(l, i).next,
        }),
        s2 == s1.insert((a, link_at(l, i).prev), new_prev),
        new_next == (KittyLinkedItem {
            prev: link_at(l, i).prev,
            next: (if i == l.len() - 1 {
                if i == 0 {
                    new_prev
                } else {
                    sentinel_of(l)
                }
            } else {
                link_at(l, i + 1)
            }).next,
        }),
        s3 == s2.insert((a, link_at(l, i).next), new_next),
    ensures
        list_ok(s3, a, l.remove(i)),
        !s3.contains_key((a, Some(l[i]))),
{
    let id = l[i];
    let item = link_at(l, i);
    let n = l.len() as int;
    let l2 = l.remove(i);
    assert(l2.len() == n - 1);
    assert forall|j: int| 0 <= j < l2.len() implies l2[j] == l[if j < i {
        j
    } else {
        j + 1
    }] by {}
    assert(l2.no_duplicates()) by {
        assert forall|x: int, y: int|
            0 <= x < l2.len() && 0 <= y < l2.len() && x != y implies l2[x] != l2[y] by {
            let x0 = if x < i { x } else { x + 1 };
            let y0 = if y < i { y } else { y + 1 };
            assert(l2[x] == l[x0] && l2[y] == l[y0]);
        }
    }
    let k_id = (a, Some(id));
    let k_p = (a, item.prev);
    let k_n = (a, item.next);
    assert(k_p != k_id);
    assert(k_n != k_id);
    if i > 0 {
        assert(l[i - 1] != id);
    }
    if i < n - 1 {
        assert(l[i + 1] != id);
    }
    // Sentinel.
    assert(s3.contains_key((a, None::<u32>)));
    if i == 0 && n == 1 {
        assert(s3[(a, None::<u32>)] == new_next);
        assert(new_next == sentinel_of(l2));
    } else if i == 0 {
        assert(k_n == (a, Some(l[1])));
        assert(k_n != (a, None::<u32>));
        assert(s3[(a, None::<u32>)] == new_prev);
        assert(l2[0] == l[1] && l2[n - 2] == l[n - 1]);
        assert(new_prev == sentinel_of(l2));
    } else if i == n - 1 {
        assert(k_p == (a, Some(l[i - 1])));
        assert(s3[(a, None::<u32>)] == new_next);
        assert(l2[0] == l[0] && l2[n - 2] == l[i - 1]);
        assert(new_next == sentinel_of(l2));
    } else {
        assert(k_p != (a, None::<u32>) && k_n != (a, None::<u32>));
        assert(s3[(a, None::<u32>)] == s0[(a, None::<u32>)]);
        assert(l2[0] == l[0] && l2[n - 2] == l[n - 1]);
        assert(sentinel_of(l) == sentinel_of(l2));
    }
    // Each remaining position keeps consistent neighbours.
    assert forall|j: int| 0 <= j < l2.len() implies s3.contains_key((a, Some(#[trigger] l2[j])))
        && s3[(a, Some(l2[j]))] == link_at(l2, j) by {
        let j0 = if j < i { j } else { j + 1 };
        assert(l2[j] == l[j0]);
        assert(l[j0] != id);
        let kj = (a, Some(l[j0]));
        assert(kj != k_id);
        if i > 0 && j == i - 1 {
            assert(kj == k_p);
            assert(kj != k_n);
            assert(s3[kj] == new_prev);
            if j > 0 {
                assert(l2[j - 1] == l[j - 1]);
            }
            if j < l2.len() - 1 {
                assert(l2[j + 1] == l[i + 1]);
            }
            assert(new_prev == link_at(l2, j));
        } else if j == i {
            assert(j0 == i + 1 && i < n - 1);
            assert(kj == k_n);
            assert(s3[kj] == new_next);
            if j > 0 {
                assert(l2[j - 1] == l[i - 1]);
            }
            if j < l2.len() - 1 {
                assert(l2[j + 1] == l[i + 2]);
            }
            assert(new_next == link_at(l2, j));
        } else {
            // untouched node
            assert(j0 < i - 1 || j0 > i + 1);
            if i > 0 {
                assert(l[j0] != l[i - 1]);
            }
            if i < n - 1 {
                assert(l[j0] != l[i + 1]);
            }
            assert(kj != k_p && kj != k_n);
            assert(s3[kj] == s0[kj]);
            assert(s0[kj] == link_at(l, j0));
            if j > 0 {
                assert(l2[j - 1] == l[j0 - 1]);
            }
            if j < l2.len() - 1 {
                assert(l2[j + 1] == l[j0 + 1]);
            }
            assert(link_at(l2, j) == link_at(l, j0));
        }
    }
    // Nothing outside the shortened list is stored for this owner.
    assert forall|id2: u32| #[trigger] s3.contains_key((a, Some(id2))) implies l2.contains(
        id2,
    ) by {
        if i > 0 && id2 == l[i - 1] {
            assert(l2[i - 1] == l[i - 1]);
        } else if i < n - 1 && id2 == l[i + 1] {
            assert(l2[i] == l[i + 1]);
        } else {
            assert((a, Some(id2)) != k_n);
            assert((a, Some(id2)) != k_p);
            assert(s1.contains_key((a, Some(id2))));
            assert(s0.contains_key((a, Some(id2))) && id2 != id);
            assert(l.contains(id2));
            let w = choose|w: int| 0 <= w < l.len() && l[w] == id2;
            assert(w != i);
            assert(l2[if w < i {
                w
            } else {
                w - 1
            }] == id2);
        }
    }
    assert(list_ok(s3, a, l2));
    assert(!s3.contains_key(k_id));
}

/// The list `l` with `id` taken out, other identifiers kept in order; `l`
/// itself when `id` does not occur.
pub open spec fn seq_without(l: Seq<u32>, id: u32) -> Seq<u32> {
    if l.contains(id) {
        l.remove(l.index_of(id))
    } else {
        l
    }
}

impl OwnedKitties {
    /// Remove `kitty_id` from `account`'s list, splicing its neighbours
    /// together; a silent no-op (returning `None`) when `account` does not
    /// own `kitty_id`. Returns the removed node. The sentinel stays stored
    /// even when the last element is removed, then describing an empty list.
    #[verifier::rlimit(100)]
    #[verifier::spinoff_prover]
    pub fn remove(&mut self, account: u64, kitty_id: u32) -> (removed: Option<KittyLinkedItem>)
        requires
            old(self).inv(),
        ensures
            final(self).inv(),
            final(self).owned(account) == seq_without(old(self).owned(account), kitty_id),
            (if old(self).owned(account).contains(kitty_id) {
                removed == Some(old(self).store()[(account, Some(kitty_id))]) && final(self).lists()
                    == old(self).lists().insert(
                    account,
                    seq_without(old(self).owned(account), kitty_id),
                )
            } else {
                removed == None::<KittyLinkedItem> && *final(self) == *old(self)
            }),
            !final(self).store().contains_key((account, Some(kitty_id))),
            final(self).lists().contains_key(account) == old(self).lists().contains_key(account),
            forall|o: u64| o != account ==> final(self).owned(o) == old(self).owned(o),
            forall|k: (u64, Option<u32>)|
                k.0 != account ==> final(self).store().contains_key(k) == old(
                    self,
                ).store().contains_key(k),
            forall|k: (u64, Option<u32>)|
                k.0 != account && old(self).store().contains_key(k) ==> final(self).store()[k]
                    == old(self).store()[k],
    {
        let ghost l = old(self).owned(account);
        let ghost n = l.len() as int;
        let ghost s0 = self.store();
        let taken = self.take(account, Some(kitty_id));
        if let Some(item) = taken {
            proof {
                assert(s0.contains_key((account, Some(kitty_id))));
                assert(old(self).lists().contains_key(account));
                assert(list_ok(s0, account, l));
                assert(l.contains(kitty_id));
            }
            let ghost i = choose|i: int| 0 <= i < l.len() && l[i] == kitty_id;
            proof {
                assert(item == s0[(account, Some(kitty_id))]);
                assert(item == link_at(l, i));
            }
            let ghost s1 = self.store();
            let prev = self.read(account, item.prev);
            proof {
                if i == 0 {
                    assert((account, None::<u32>) != (account, Some(kitty_id)));
                    assert(prev == sentinel_of(l));
                } else {
                    assert(l[i - 1] != kitty_id);
                    assert((account, Some(l[i - 1])) != (account, Some(kitty_id)));
                    assert(prev == link_at(l, i - 1));
                }
            }
            let new_prev = KittyLinkedItem { prev: prev.prev, next: item.next };
            self.write(account, item.prev, new_prev);
            let ghost s2 = self.store();
            let next = self.read(account, item.next);
            proof {
                if i == n - 1 {
                    if i == 0 {
                        assert(next == new_prev);
                    } else {
                        assert((account, None::<u32>) != (account, Some(l[i - 1])));
                        assert((account, None::<u32>) != (account, Some(kitty_id)));
                        assert(next == sentinel_of(l));
                    }
                } else {
                    assert(l[i + 1] != kitty_id);
                    if i > 0 {
                        assert(l[i + 1] != l[i - 1]);
                        assert((account, Some(l[i + 1])) != (account, Some(l[i - 1])));
                    }
                    assert((account, Some(l[i + 1])) != (account, Some(kitty_id)));
                    assert(next == link_at(l, i + 1));
                }
            }
            let new_next = KittyLinkedItem { prev: item.prev, next: next.next };
            self.write(account, item.next, new_next);
            let ghost s3 = self.store();
            let ghost l2 = l.remove(i);
            proof {
                self.lists@ = self.lists@.insert(account, l2);

                let a = account;
                let id = kitty_id;
                assert(l2.len() == n - 1);
                assert forall|j: int| 0 <= j < l2.len() implies l2[j] == l[if j < i {
                    j
                } else {
                    j + 1
                }] by {}
                assert(l2.no_duplicates()) by {
                    assert forall|x: int, y: int|
                        0 <= x < l2.len() && 0 <= y < l2.len() && x != y implies l2[x] != l2[y] by {
                        let x0 = if x < i { x } else { x + 1 };
                        let y0 = if y < i { y } else { y + 1 };
                        assert(l2[x] == l[x0] && l2[y] == l[y0]);
                    }
                }
                // seq_without picks the same index.
                assert(seq_without(l, id) == l2) by {
                    let iof = l.index_of(id);
                    assert(0 <= iof < l.len() && l[iof] == id);
                    assert(iof == i);
                }
                // The spliced store spells out the shortened list.
                let k_id = (a, Some(id));
                let k_p = (a, item.prev);
                let k_n = (a, item.next);
                assert(k_p != k_id);
                assert(k_n != k_id);
                assert(prev == (if i == 0 {
                    sentinel_of(l)
                } else {
                    link_at(l, i - 1)
                }));
                assert(next == (if i == n - 1 {
                    if i == 0 {
                        new_prev
                    } else {
                        sentinel_of(l)
                    }
                } else {
                    link_at(l, i + 1)
                }));
                lemma_remove_relink(s0, s1, s2, s3, a, l, i, new_prev, new_next);
                assert(list_ok(s3, a, l2));
                // The removed node's key is gone.
                assert(!s3.contains_key(k_id));
                // Other owners are untouched.
                assert forall|o: u64| #[trigger] self.lists().contains_key(o) implies list_ok(
                    s3,
                    o,
                    self.lists()[o],
                ) by {
                    if o == a {
                        assert(self.lists()[a] == l2);
                    } else {
                        assert(old(self).lists().contains_key(o));
                        let lo = old(self).lists()[o];
                        assert(list_ok(s0, o, lo));
                        assert forall|key: Option<u32>| #![trigger s3.contains_key((o, key))]
                            s3.contains_key((o, key)) == s0.contains_key((o, key)) by {
                            assert((o, key) != k_id);
                            assert((o, key) != k_p);
                            assert((o, key) != k_n);
                        }
                        assert forall|key: Option<u32>| #![trigger s0.contains_key((o, key))]
                            s0.contains_key((o, key)) implies s3[(o, key)] == s0[(o, key)] by {
                            assert((o, key) != k_id);
                            assert((o, key) != k_p);
                            assert((o, key) != k_n);
                        }
                        lemma_list_ok_agree(s0, s3, o, lo);
                        assert(self.lists()[o] == lo);
                    }
                }
                assert forall|o: u64|
                    s3.contains_key((o, None::<u32>)) == self.lists().contains_key(o) by {
                    if o != a {
                        assert((o, None::<u32>) != k_id);
                        assert((o, None::<u32>) != k_p);
                        assert((o, None::<u32>) != k_n);
                        assert(s3.contains_key((o, None::<u32>)) == s0.contains_key(
                            (o, None::<u32>),
                        ));
                    }
                }
                assert forall|o: u64, id2: u32| #[trigger]
                    s3.contains_key((o, Some(id2))) implies self.lists().contains_key(o) by {
                    if o != a {
                        assert((o, Some(id2)) != k_id);
                        assert((o, Some(id2)) != k_p);
                        assert((o, Some(id2)) != k_n);
                        assert(s0.contains_key((o, Some(id2))));
                    }
                }
                // Isolation.
                assert forall|k: (u64, Option<u32>)| k.0 != account implies s3.contains_key(k)
                    == s0.contains_key(k) by {
                    assert(k != k_id && k != k_p && k != k_n);
                }
                assert forall|k: (u64, Option<u32>)|
                    k.0 != account && s0.contains_key(k) implies s3[k] == s0[k] by {
                    assert(k != k_id && k != k_p && k != k_n);
                }
            }
            Some(item)
        } else {
            proof {
                assert(!s0.contains_key((account, Some(kitty_id))));
                if l.contains(kitty_id) {
                    assert(old(self).lists().contains_key(account));
                    assert(list_ok(s0, account, l));
                    let w = choose|w: int| 0 <= w < l.len() && l[w] == kitty_id;
                    assert(s0.contains_key((account, Some(l[w]))));
                    assert(false);
                }
                assert(seq_without(l, kitty_id) == l);
            }
            None
        }
    }
}

impl OwnedKitties {
    /// The order law: walking `next` pointers from owner `o`'s sentinel
    /// visits exactly the identifiers `o` owns, in append order, ending at
    /// `None` after the tail; walking `prev` pointers visits them in
    /// reverse; and an owner without a sentinel owns nothing.
    pub proof fn lemma_walk_order(self, o: u64)
        requires
            self.inv(),
        ensures
            self.store().contains_key((o, None::<u32>)) ==> self.store()[(o, None::<u32>)]
                == sentinel_of(self.owned(o)),
            forall|i: int|
                0 <= i < self.owned(o).len() ==> self.store().contains_key(
                    (o, Some(#[trigger] self.owned(o)[i])),
                ) && self.store()[(o, Some(self.owned(o)[i]))] == link_at(self.owned(o), i),
            forall|id: u32| #[trigger]
                self.store().contains_key((o, Some(id))) ==> self.owned(o).contains(id),
            !self.store().contains_key((o, None::<u32>)) ==> self.owned(o)
                == Seq::<u32>::empty(),
    {
        if self.lists().contains_key(o) {
            assert(list_ok(self.store(), o, self.lists()[o]));
        }
    }

    /// An owner's list never repeats an identifier.
    pub proof fn lemma_owned_no_dup(self, o: u64)
        requires
            self.inv(),
        ensures
            self.owned(o).no_duplicates(),
    {
        if self.lists().contains_key(o) {
            assert(list_ok(self.store(), o, self.lists()[o]));
        }
    }

    /// A node for `(o, id)` is stored exactly when `o` currently owns `id`.
    pub proof fn lemma_node_iff_owned(self, o: u64, id: u32)
        requires
            self.inv(),
        ensures
            self.store().contains_key((o, Some(id))) == self.owned(o).contains(id),
    {
        if self.lists().contains_key(o) {
            assert(list_ok(self.store(), o, self.lists()[o]));
            if self.owned(o).contains(id) {
                let w = choose|w: int|
                    0 <= w < self.owned(o).len() && self.owned(o)[w] == id;
                assert(self.store().contains_key((o, Some(self.owned(o)[w]))));
            }
        }
    }
}

/// What one removal keeps: exactly the identifiers different from the
/// removed one, each occurring as before.
pub proof fn lemma_seq_without_contains(l: Seq<u32>, id: u32, id2: u32)
    requires
        l.no_duplicates(),
    ensures
        seq_without(l, id).contains(id2) == (l.contains(id2) && id2 != id),
{
    if l.contains(id) {
        let i = l.index_of(id);
        assert(0 <= i < l.len() && l[i] == id);
        let l2 = l.remove(i);
        assert(l2.len() == l.len() - 1);
        assert forall|j: int| 0 <= j < l2.len() implies l2[j] == l[if j < i {
            j
        } else {
            j + 1
        }] by {}
        if l2.contains(id2) {
            let w = choose|w: int| 0 <= w < l2.len() && l2[w] == id2;
            let w0 = if w < i { w } else { w + 1 };
            assert(l[w0] == id2);
            assert(w0 != i);
        }
        if l.contains(id2) && id2 != id {
            let w0 = choose|w: int| 0 <= w < l.len() && l[w] == id2;
            assert(w0 != i);
            assert(l2[if w0 < i {
                w0
            } else {
                w0 - 1
            }] == id2);
        }
    }
}

/// The removal law: taking `id` out of a duplicate-free list keeps all the
/// other identifiers in their original relative order — the shortened list
/// is the original filtered to the identifiers different from `id`.
pub proof fn lemma_seq_without_is_filter(l: Seq<u32>, id: u32)
    requires
        l.no_duplicates(),
    ensures
        seq_without(l, id) == l.filter(|x: u32| x != id),
    decreases l.len(),
{
    reveal(Seq::filter);
    let p = |x: u32| x != id;
    if l.len() == 0 {
        assert(!l.contains(id));
        assert(l.filter(p) == l);
    } else {
        let l0 = l.drop_last();
        let x = l.last();
        assert(l0.len() == l.len() - 1);
        assert forall|j: int| 0 <= j < l0.len() implies l0[j] == l[j] by {}
        assert(l0.no_duplicates());
        lemma_seq_without_is_filter(l0, id);
        if x == id {
            assert(l[l.len() - 1] == id);
            assert(l.contains(id));
            let i = l.index_of(id);
            assert(0 <= i < l.len() && l[i] == id);
            assert(i == l.len() - 1);
            assert(seq_without(l, id) =~= l0);
            assert(!p(x));
            assert(l.filter(p) == l0.filter(p));
            assert(!l0.contains(id)) by {
                if l0.contains(id) {
                    let w = choose|w: int| 0 <= w < l0.len() && l0[w] == id;
                    assert(l[w] == id && w < l.len() - 1);
                }
            }
            assert(seq_without(l0, id) == l0);
        } else {
            assert(p(x));
            assert(l.filter(p) == l0.filter(p).push(x));
            if l.contains(id) {
                let i = l.index_of(id);
                assert(0 <= i < l.len() && l[i] == id);
                assert(i < l.len() - 1);
                assert(l0[i] == id);
                assert(l0.contains(id));
                let i0 = l0.index_of(id);
                assert(0 <= i0 < l0.len() && l0[i0] == id);
                assert(i0 == i);
                assert(seq_without(l, id) =~= l0.remove(i).push(x)) by {
                    assert forall|j: int| 0 <= j < l.remove(i).len() implies l.remove(i)[j]
                        == l0.remove(i).push(x)[j] by {
                        if j < i {
                            assert(l.remove(i)[j] == l[j]);
                        } else if j < l.remove(i).len() - 1 {
                            assert(l.remove(i)[j] == l[j + 1]);
                            assert(l0.remove(i)[j] == l0[j + 1]);
                        } else {
                            assert(l.remove(i)[j] == l[j + 1]);
                            assert(l[j + 1] == x);
                        }
                    }
                }
                assert(seq_without(l0, id) == l0.remove(i));
            } else {
                assert(!l0.contains(id)) by {
                    if l0.contains(id) {
                        let w = choose|w: int| 0 <= w < l0.len() && l0[w] == id;
                        assert(l[w] == id);
                    }
                }
                assert(seq_without(l0, id) == l0);
                assert(seq_without(l, id) == l);
                assert(l =~= l0.push(x));
            }
        }
    }
}

fn opt_id_eq(a: Option<u32>, b: Option<u32>) -> (r: bool)
    ensures
        r == (a == b),
{
    match (a, b) {
        (None, None) => true,
        (Some(x), Some(y)) => x == y,
        _ => false,
    }
}

} // verus!
