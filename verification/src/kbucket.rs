//! Buckets: bounded, recency-ordered lists of contacts.

use vstd::prelude::*;
use crate::key::Key;
use crate::node::NodeInfo;
use crate::selection::{contacts_at, contacts_of, distances_to, is_closest, offer};

verus! {

/// Whether some contact in `s` has the identifier `id`.
pub open spec fn has_id(s: Seq<NodeInfo>, id: Seq<u8>) -> bool {
    exists|i: int| 0 <= i < s.len() && (#[trigger] s[i]).id@ == id
}

/// The position in `s` of a contact with the identifier `id`, where there is one.
pub open spec fn index_of_id(s: Seq<NodeInfo>, id: Seq<u8>) -> int {
    choose|i: int| 0 <= i < s.len() && (#[trigger] s[i]).id@ == id
}

/// Whether no two contacts in `s` share an identifier.
pub open spec fn distinct_ids(s: Seq<NodeInfo>) -> bool {
    forall|i: int, j: int| 0 <= i < j < s.len() ==> (#[trigger] s[i]).id@ != (#[trigger] s[j]).id@
}

/// A bucket's contents after it has seen `contact`.
///
/// A contact whose identifier is already held moves to the tail, with the
/// entry that was held kept as it is. A new one is appended while there is
/// room, and is dropped when the bucket is full.
pub open spec fn observed(s: Seq<NodeInfo>, capacity: nat, contact: NodeInfo) -> Seq<NodeInfo> {
    if has_id(s, contact.id@) {
        let i = index_of_id(s, contact.id@);
        s.remove(i).push(s[i])
    } else if s.len() < capacity {
        s.push(contact)
    } else {
        s
    }
}

/// A bucket's contents after the contact with the identifier `id` has left.
pub open spec fn removed(s: Seq<NodeInfo>, id: Seq<u8>) -> Seq<NodeInfo> {
    if has_id(s, id) {
        s.remove(index_of_id(s, id))
    } else {
        s
    }
}

/// Whether a contact with the identifier `fresh` can take the place of the
/// one with the identifier `stale`: `stale` is held, and no other contact
/// held has the identifier `fresh`.
pub open spec fn replaceable(s: Seq<NodeInfo>, stale: Seq<u8>, fresh: Seq<u8>) -> bool {
    has_id(s, stale) && !has_id(s.remove(index_of_id(s, stale)), fresh)
}

/// A bucket's contents after `fresh` has taken the place of the contact with
/// the identifier `stale`: that contact is gone and `fresh` is at the tail.
pub open spec fn replaced(s: Seq<NodeInfo>, stale: Seq<u8>, fresh: NodeInfo) -> Seq<NodeInfo> {
    if replaceable(s, stale, fresh.id@) {
        s.remove(index_of_id(s, stale)).push(fresh)
    } else {
        s
    }
}

/// In a list without repeated identifiers, a contact is found where it is.
proof fn lemma_index_of_id(s: Seq<NodeInfo>, i: int)
    requires
        distinct_ids(s),
        0 <= i < s.len(),
    ensures
        has_id(s, s[i].id@),
        index_of_id(s, s[i].id@) == i,
{
    let j = index_of_id(s, s[i].id@);
    assert(0 <= j < s.len() && s[j].id@ == s[i].id@);
    if j < i {
        assert(s[j].id@ != s[i].id@);
    } else if i < j {
        assert(s[i].id@ != s[j].id@);
    }
}

/// Taking a contact out of a list without repeated identifiers leaves such a
/// list, in which the identifier taken out no longer occurs.
proof fn lemma_remove_keeps_distinct(s: Seq<NodeInfo>, i: int)
    requires
        distinct_ids(s),
        0 <= i < s.len(),
    ensures
        distinct_ids(s.remove(i)),
        !has_id(s.remove(i), s[i].id@),
        forall|id: Seq<u8>| has_id(s.remove(i), id) ==> has_id(s, id),
        forall|id: Seq<u8>| has_id(s, id) && id != s[i].id@ ==> has_id(s.remove(i), id),
{
    let t = s.remove(i);
    assert forall|a: int, b: int| 0 <= a < b < t.len() implies (#[trigger] t[a]).id@
        != (#[trigger] t[b]).id@ by {
        let a0 = if a < i { a } else { a + 1 };
        let b0 = if b < i { b } else { b + 1 };
        assert(t[a] == s[a0] && t[b] == s[b0]);
    }
    assert forall|a: int| 0 <= a < t.len() implies (#[trigger] t[a]).id@ != s[i].id@ by {
        let a0 = if a < i { a } else { a + 1 };
        assert(t[a] == s[a0]);
        if a0 < i {
            assert(s[a0].id@ != s[i].id@);
        } else {
            assert(s[i].id@ != s[a0].id@);
        }
    }
    assert forall|id: Seq<u8>| has_id(t, id) implies has_id(s, id) by {
        let a = index_of_id(t, id);
        let a0 = if a < i { a } else { a + 1 };
        assert(t[a] == s[a0]);
    }
    assert forall|id: Seq<u8>| has_id(s, id) && id != s[i].id@ implies has_id(t, id) by {
        let a0 = index_of_id(s, id);
        let a = if a0 < i { a0 } else { a0 - 1 };
        assert(t[a] == s[a0]);
    }
}

/// Appending a contact whose identifier is new to a list without repeated
/// identifiers leaves such a list.
proof fn lemma_push_keeps_distinct(s: Seq<NodeInfo>, c: NodeInfo)
    requires
        distinct_ids(s),
        !has_id(s, c.id@),
    ensures
        distinct_ids(s.push(c)),
{
    let t = s.push(c);
    assert forall|a: int, b: int| 0 <= a < b < t.len() implies (#[trigger] t[a]).id@
        != (#[trigger] t[b]).id@ by {
        assert(t[a] == s[a]);
        if b < s.len() {
            assert(t[b] == s[b]);
        }
    }
}

/// Whatever a bucket holds after it has seen a contact, it held before or is
/// that contact.
pub proof fn lemma_observed_members(s: Seq<NodeInfo>, capacity: nat, contact: NodeInfo)
    ensures
        forall|k: int|
            0 <= k < observed(s, capacity, contact).len() ==> {
                let c = #[trigger] observed(s, capacity, contact)[k];
                c == contact || s.contains(c)
            },
{
    let t = observed(s, capacity, contact);
    assert forall|k: int| 0 <= k < t.len() implies (#[trigger] t[k]) == contact || s.contains(
        t[k],
    ) by {
        if has_id(s, contact.id@) {
            let i = index_of_id(s, contact.id@);
            if k < t.len() - 1 {
                let k0 = if k < i { k } else { k + 1 };
                assert(t[k] == s[k0]);
            } else {
                assert(t[k] == s[i]);
            }
        } else if s.len() < capacity {
            if k < s.len() {
                assert(t[k] == s[k]);
            }
        } else {
            assert(t[k] == s[k]);
        }
    }
}

/// Whatever a bucket holds after a contact has left, it held before.
pub proof fn lemma_removed_members(s: Seq<NodeInfo>, id: Seq<u8>)
    ensures
        forall|k: int|
            0 <= k < removed(s, id).len() ==> s.contains(#[trigger] removed(s, id)[k]),
{
    let t = removed(s, id);
    assert forall|k: int| 0 <= k < t.len() implies s.contains(#[trigger] t[k]) by {
        if has_id(s, id) {
            let i = index_of_id(s, id);
            let k0 = if k < i { k } else { k + 1 };
            assert(t[k] == s[k0]);
        } else {
            assert(t[k] == s[k]);
        }
    }
}

/// Whatever a bucket holds after a replacement, it held before or is the
/// contact that came in.
pub proof fn lemma_replaced_members(s: Seq<NodeInfo>, stale: Seq<u8>, fresh: NodeInfo)
    ensures
        forall|k: int|
            0 <= k < replaced(s, stale, fresh).len() ==> {
                let c = #[trigger] replaced(s, stale, fresh)[k];
                c == fresh || s.contains(c)
            },
{
    let t = replaced(s, stale, fresh);
    assert forall|k: int| 0 <= k < t.len() implies (#[trigger] t[k]) == fresh || s.contains(
        t[k],
    ) by {
        if replaceable(s, stale, fresh.id@) {
            let i = index_of_id(s, stale);
            if k < t.len() - 1 {
                let k0 = if k < i { k } else { k + 1 };
                assert(t[k] == s[k0]);
            }
        } else {
            assert(t[k] == s[k]);
        }
    }
}

/// A bucket's contents after it has seen each contact of `seen` in turn.
pub open spec fn observed_all(s: Seq<NodeInfo>, capacity: nat, seen: Seq<NodeInfo>) -> Seq<NodeInfo>
    decreases seen.len(),
{
    if seen.len() == 0 {
        s
    } else {
        observed(observed_all(s, capacity, seen.drop_last()), capacity, seen.last())
    }
}

/// Seeing a contact leaves a bucket within its capacity and without
/// repeated identifiers.
pub proof fn lemma_observed_keeps_bounds(s: Seq<NodeInfo>, capacity: nat, contact: NodeInfo)
    requires
        s.len() <= capacity,
        distinct_ids(s),
    ensures
        observed(s, capacity, contact).len() <= capacity,
        distinct_ids(observed(s, capacity, contact)),
{
    if has_id(s, contact.id@) {
        let i = index_of_id(s, contact.id@);
        lemma_remove_keeps_distinct(s, i);
        lemma_push_keeps_distinct(s.remove(i), s[i]);
    } else if s.len() < capacity {
        lemma_push_keeps_distinct(s, contact);
    }
}

/// However many contacts a bucket sees, and whichever, it never holds more
/// than its capacity, nor an identifier twice.
pub proof fn lemma_observed_all_keeps_bounds(s: Seq<NodeInfo>, capacity: nat, seen: Seq<NodeInfo>)
    requires
        s.len() <= capacity,
        distinct_ids(s),
    ensures
        observed_all(s, capacity, seen).len() <= capacity,
        distinct_ids(observed_all(s, capacity, seen)),
    decreases seen.len(),
{
    if seen.len() > 0 {
        lemma_observed_all_keeps_bounds(s, capacity, seen.drop_last());
        lemma_observed_keeps_bounds(
            observed_all(s, capacity, seen.drop_last()),
            capacity,
            seen.last(),
        );
    }
}

/// Seeing a contact that is already held changes neither the size of the
/// bucket nor what it holds: the entry held moves to the tail, and the others
/// keep their order. The least recently seen contact is then the one that
/// was, unless that is the contact seen, in which case it is the next.
pub proof fn lemma_observed_again_moves_to_tail(s: Seq<NodeInfo>, capacity: nat, contact: NodeInfo)
    requires
        distinct_ids(s),
        has_id(s, contact.id@),
    ensures
        ({
            let i = index_of_id(s, contact.id@);
            let t = observed(s, capacity, contact);
            &&& t.len() == s.len()
            &&& t.last() == s[i]
            &&& t.last().id@ == contact.id@
            &&& t.drop_last() == s.remove(i)
            &&& s.len() > 1 ==> t[0] == if i == 0 { s[1] } else { s[0] }
        }),
{
    let i = index_of_id(s, contact.id@);
    let t = observed(s, capacity, contact);
    assert(t.drop_last() =~= s.remove(i));
}

/// Removing the same identifier a second time finds nothing and changes nothing.
pub proof fn lemma_removed_twice(s: Seq<NodeInfo>, id: Seq<u8>)
    requires
        distinct_ids(s),
    ensures
        !has_id(removed(s, id), id),
        removed(removed(s, id), id) == removed(s, id),
{
    if has_id(s, id) {
        lemma_remove_keeps_distinct(s, index_of_id(s, id));
    }
}

/// A bounded list of contacts without repeated identifiers, ordered by when
/// each was last seen: the least recently seen first, the most recently seen
/// at the tail.
#[derive(Debug)]
pub struct KBucket {
    contacts: Vec<NodeInfo>,
    capacity: usize,
}

impl View for KBucket {
    type V = Seq<NodeInfo>;

    closed spec fn view(&self) -> Seq<NodeInfo> {
        self.contacts@
    }
}

impl KBucket {
    /// The most contacts that this bucket holds.
    pub closed spec fn spec_capacity(&self) -> nat {
        self.capacity as nat
    }

    /// The bucket holds no more than its capacity and no identifier twice.
    pub open spec fn wf(&self) -> bool {
        &&& self@.len() <= self.spec_capacity()
        &&& distinct_ids(self@)
    }

    /// An empty bucket for up to `capacity` contacts.
    pub fn new(capacity: usize) -> (bucket: KBucket)
        ensures
            bucket.wf(),
            bucket@ == Seq::<NodeInfo>::empty(),
            bucket.spec_capacity() == capacity,
    {
        KBucket { contacts: Vec::new(), capacity }
    }

    /// The most contacts that this bucket holds.
    pub fn capacity(&self) -> (n: usize)
        ensures
            n == self.spec_capacity(),
    {
        self.capacity
    }

    /// Number of contacts held.
    pub fn len(&self) -> (n: usize)
        ensures
            n == self@.len(),
    {
        self.contacts.len()
    }

    /// Whether no contact is held.
    pub fn is_empty(&self) -> (b: bool)
        ensures
            b == (self@.len() == 0),
    {
        self.contacts.len() == 0
    }

    /// Whether the bucket has no room for another contact.
    pub fn is_full(&self) -> (b: bool)
        ensures
            b == (self@.len() >= self.spec_capacity()),
    {
        self.contacts.len() >= self.capacity
    }

    /// Position of the contact with the identifier `id`, if one is held.
    fn position(&self, id: &Key) -> (found: Option<usize>)
        ensures
            match found {
                Some(i) => i < self@.len() && self@[i as int].id@ == id@,
                None => !has_id(self@, id@),
            },
    {
        let mut i: usize = 0;
        while i < self.contacts.len()
            invariant
                i <= self.contacts@.len(),
                forall|k: int| 0 <= k < i ==> (#[trigger] self.contacts@[k]).id@ != id@,
            decreases self.contacts@.len() - i,
        {
            if self.contacts[i].id == *id {
                return Some(i);
            }
            i += 1;
        }
        None
    }

    /// Whether a contact with the identifier `id` is held.
    pub fn contains(&self, id: &Key) -> (b: bool)
        ensures
            b == has_id(self@, id@),
    {
        self.position(id).is_some()
    }

    /// Records that `contact` was just heard from.
    ///
    /// A contact already held becomes the most recently seen. A new contact is
    /// appended if there is room. When the bucket is full the new contact is
    /// dropped and nothing is evicted: whether the least recently seen contact
    /// gives way is the caller's decision, taken with `least_recently_seen`
    /// and `replace`.
    pub fn observe(&mut self, contact: NodeInfo)
        requires
            old(self).wf(),
        ensures
            final(self).wf(),
            final(self).spec_capacity() == old(self).spec_capacity(),
            final(self)@ == observed(old(self)@, old(self).spec_capacity(), contact),
    {
        match self.position(&contact.id) {
            Some(i) => {
                proof {
                    lemma_index_of_id(self@, i as int);
                    lemma_remove_keeps_distinct(self@, i as int);
                }
                let seen = self.contacts.remove(i);
                proof {
                    lemma_push_keeps_distinct(self@, seen);
                }
                self.contacts.push(seen);
            },
            None => {
                if self.contacts.len() < self.capacity {
                    proof {
                        lemma_push_keeps_distinct(self@, contact);
                    }
                    self.contacts.push(contact);
                }
            },
        }
    }

    /// Removes the contact with the identifier `id`, and tells whether there
    /// was one.
    pub fn remove(&mut self, id: &Key) -> (was_present: bool)
        requires
            old(self).wf(),
        ensures
            final(self).wf(),
            final(self).spec_capacity() == old(self).spec_capacity(),
            was_present == has_id(old(self)@, id@),
            final(self)@ == removed(old(self)@, id@),
            !has_id(final(self)@, id@),
    {
        match self.position(id) {
            Some(i) => {
                proof {
                    lemma_index_of_id(self@, i as int);
                    lemma_remove_keeps_distinct(self@, i as int);
                }
                self.contacts.remove(i);
                true
            },
            None => false,
        }
    }

    /// The contact that was heard from longest ago: the one to probe when the
    /// bucket is full and a new contact asks for room.
    pub fn least_recently_seen(&self) -> (oldest: Option<&NodeInfo>)
        ensures
            match oldest {
                Some(c) => self@.len() > 0 && *c == self@[0],
                None => self@.len() == 0,
            },
    {
        if self.contacts.len() > 0 {
            Some(&self.contacts[0])
        } else {
            None
        }
    }

    /// Up to `limit` of the contacts held, those closest to `target`, closest first.
    pub fn closest<'a>(&'a self, target: &Key, limit: usize) -> (picked: Vec<&'a NodeInfo>)
        requires
            self.wf(),
        ensures
            is_closest(self@, target@, limit as nat, contacts_at(picked@)),
    {
        let mut pairs: Vec<(&'a NodeInfo, Key)> = Vec::new();
        if limit > 0 {
            let mut i: usize = 0;
            assert(self@.take(0) =~= Seq::<NodeInfo>::empty());
            while i < self.contacts.len()
                invariant
                    limit > 0,
                    self.wf(),
                    i <= self@.len(),
                    distances_to(pairs@, target@),
                    is_closest(self@.take(i as int), target@, limit as nat, contacts_of(pairs@)),
                decreases self@.len() - i,
            {
                let ghost seen = self@.take(i as int);
                assert forall|k: int| 0 <= k < seen.len() implies (#[trigger] seen[k]).id@
                    != self@[i as int].id@ by {
                    assert(seen[k] == self@[k]);
                }
                offer(&mut pairs, &self.contacts[i], target, limit, Ghost(seen));
                assert(seen.push(self@[i as int]) =~= self@.take(i + 1));
                i += 1;
            }
            assert(self@.take(self@.len() as int) =~= self@);
        }
        let mut picked: Vec<&'a NodeInfo> = Vec::new();
        let mut j: usize = 0;
        while j < pairs.len()
            invariant
                j <= pairs@.len(),
                picked@.len() == j,
                forall|m: int| 0 <= m < j ==> *(#[trigger] picked@[m]) == *pairs@[m].0,
            decreases pairs@.len() - j,
        {
            picked.push(pairs[j].0);
            j += 1;
        }
        assert(contacts_at(picked@) =~= contacts_of(pairs@));
        picked
    }

    /// Puts `fresh` in the place of the contact `stale`, which was found
    /// unresponsive, and tells whether it did.
    ///
    /// The contact with the identifier of `stale` leaves and `fresh` becomes
    /// the most recently seen. Nothing changes when `stale` is not held, or
    /// when another contact held already has the identifier of `fresh`.
    pub fn replace(&mut self, stale: &NodeInfo, fresh: NodeInfo) -> (done: bool)
        requires
            old(self).wf(),
        ensures
            final(self).wf(),
            final(self).spec_capacity() == old(self).spec_capacity(),
            done == replaceable(old(self)@, stale.id@, fresh.id@),
            final(self)@ == replaced(old(self)@, stale.id@, fresh),
    {
        match self.position(&stale.id) {
            Some(i) => {
                proof {
                    lemma_index_of_id(self@, i as int);
                    lemma_remove_keeps_distinct(self@, i as int);
                }
                let ghost rest = self@.remove(i as int);
                let free = fresh.id == stale.id || self.position(&fresh.id).is_none();
                assert(free == !has_id(rest, fresh.id@)) by {
                    if fresh.id@ != stale.id@ {
                        assert(has_id(rest, fresh.id@) == has_id(self@, fresh.id@));
                    }
                }
                if free {
                    self.contacts.remove(i);
                    proof {
                        lemma_push_keeps_distinct(self@, fresh);
                    }
                    self.contacts.push(fresh);
                    true
                } else {
                    false
                }
            },
            None => false,
        }
    }
}

} // verus!
