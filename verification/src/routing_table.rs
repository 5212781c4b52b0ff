//! The routing table: every bucket of one node.

use std::collections::HashMap;
use vstd::prelude::*;
use crate::error::RoutingError;
use crate::kbucket::{
    distinct_ids, has_id, lemma_observed_members, lemma_removed_members, lemma_removed_twice,
    lemma_replaced_members, observed, removed, replaceable, replaced, KBucket,
};
use crate::key::Key;
use crate::metric::{
    be_value, highest_bit, leading_zero_bits, lemma_leading_zero_bits_full,
    lemma_leading_zero_bits_order, lemma_xor_chain, lemma_xor_leading_zero_bits_differ,
    lemma_xor_leading_zero_bits_same, lemma_xor_symmetric, lemma_xor_zero_iff_equal, xor_bytes,
};
use crate::node::NodeInfo;
use crate::selection::{
    accounted_for, ascending, contacts_at, contacts_of, distances_to, is_closest,
    lemma_closest_of_closest, lemma_closest_unique, offer, rank,
};
use crate::{K, KEY_BITS, KEY_LEN};

verus! {

broadcast use vstd::std_specs::hash::group_hash_axioms;

/// The index of the bucket in which a node with the identifier `local` keeps
/// a peer with the identifier `id`: the position of the highest bit in which
/// the two differ, counted from the least significant; `-1` when they are equal.
pub open spec fn bucket_index(local: Seq<u8>, id: Seq<u8>) -> int {
    highest_bit(xor_bytes(local, id))
}

/// Every identifier but the local one has a bucket index, between 0 and the
/// number of bits in an identifier; the local one has none.
pub proof fn lemma_bucket_index_range(local: Seq<u8>, id: Seq<u8>)
    requires
        local.len() == id.len(),
    ensures
        -1 <= bucket_index(local, id) < 8 * local.len(),
        bucket_index(local, id) == -1 <==> id == local,
{
    lemma_leading_zero_bits_full(xor_bytes(local, id));
    lemma_xor_zero_iff_equal(local, id);
}

/// Seen from one node, two peers in different buckets are as far apart as the
/// higher of their buckets says, and two peers in the same bucket are closer
/// to each other than either is to the node.
pub proof fn lemma_bucket_index_of_pair(local: Seq<u8>, a: Seq<u8>, b: Seq<u8>)
    requires
        local.len() == a.len(),
        local.len() == b.len(),
    ensures
        bucket_index(local, a) < bucket_index(local, b) ==> bucket_index(a, b) == bucket_index(
            local,
            b,
        ),
        bucket_index(local, b) < bucket_index(local, a) ==> bucket_index(a, b) == bucket_index(
            local,
            a,
        ),
        bucket_index(local, a) == bucket_index(local, b) && a != local ==> bucket_index(a, b)
            < bucket_index(local, a),
{
    let e = xor_bytes(local, a);
    let d = xor_bytes(local, b);
    lemma_xor_symmetric(local, a);
    lemma_xor_chain(a, local, b);
    lemma_bucket_index_range(local, a);
    if leading_zero_bits(e) < leading_zero_bits(d) {
        lemma_xor_leading_zero_bits_differ(e, d);
    } else if leading_zero_bits(d) < leading_zero_bits(e) {
        lemma_xor_leading_zero_bits_differ(d, e);
    } else if a != local {
        lemma_xor_leading_zero_bits_same(e, d);
    }
}

/// The index of the bucket at which a search for `key` starts: the bucket
/// where `key` would belong, or the lowest one when `key` is the local
/// identifier itself.
spec fn start_index(local: Seq<u8>, key: Seq<u8>) -> int {
    if bucket_index(local, key) < 0 {
        0
    } else {
        bucket_index(local, key)
    }
}

/// No contact of `pool` has the identifier of a contact of `others`.
spec fn apart(pool: Seq<NodeInfo>, others: Seq<NodeInfo>) -> bool {
    forall|k: int, m: int|
        0 <= k < pool.len() && 0 <= m < others.len() ==> (#[trigger] pool[k]).id@ != (
        #[trigger] others[m]).id@
}

/// The known peers of one node, in buckets by distance from it.
///
/// A bucket comes into being when the first contact that belongs in it is
/// observed; an index without a bucket stands for an empty one.
///
/// The table does no I/O and never waits. Queries borrow it shared and may
/// run side by side; updates borrow it exclusively. Sharing one table between
/// the parts of a node is for its owner to arrange.
#[derive(Debug)]
pub struct RoutingTable {
    local: Key,
    bucket_size: usize,
    buckets: HashMap<usize, KBucket>,
}

impl RoutingTable {
    /// The identifier of the node that owns this table.
    pub closed spec fn spec_local_id(&self) -> Seq<u8> {
        self.local@
    }

    /// The capacity of each bucket.
    pub closed spec fn spec_bucket_size(&self) -> nat {
        self.bucket_size as nat
    }

    /// The contacts in the bucket at `index`, least recently seen first.
    pub closed spec fn spec_bucket(&self, index: int) -> Seq<NodeInfo> {
        if 0 <= index <= usize::MAX && self.buckets@.contains_key(index as usize) {
            self.buckets@[index as usize]@
        } else {
            Seq::empty()
        }
    }

    /// Every bucket that exists has the table's bucket capacity.
    pub closed spec fn sized(&self) -> bool {
        forall|i: usize|
            self.buckets@.contains_key(i) ==> (#[trigger] self.buckets@[i]).spec_capacity()
                == self.bucket_size
    }

    /// Every contact in the bucket at `index` belongs there.
    pub open spec fn placed(&self, index: int) -> bool {
        forall|k: int|
            0 <= k < self.spec_bucket(index).len() ==> bucket_index(
                self.spec_local_id(),
                (#[trigger] self.spec_bucket(index)[k]).id@,
            ) == index
    }

    /// No bucket is over capacity or holds an identifier twice, and every
    /// contact is in the bucket that its distance from the local node assigns.
    pub open spec fn wf(&self) -> bool {
        &&& self.sized()
        &&& self.spec_local_id().len() == KEY_LEN
        &&& forall|i: int|
            #![trigger self.spec_bucket(i)]
            {
                &&& self.spec_bucket(i).len() <= self.spec_bucket_size()
                &&& distinct_ids(self.spec_bucket(i))
                &&& self.placed(i)
            }
    }

    /// The contacts in the buckets below index `n`, bucket by bucket.
    pub open spec fn contacts_below(&self, n: int) -> Seq<NodeInfo>
        decreases n,
    {
        if n <= 0 {
            Seq::empty()
        } else {
            self.contacts_below(n - 1) + self.spec_bucket(n - 1)
        }
    }

    /// All the contacts that the table holds.
    pub open spec fn contacts(&self) -> Seq<NodeInfo> {
        self.contacts_below(KEY_BITS as int)
    }

    /// This table is `before` with the contact that has the identifier `id`
    /// taken out of the bucket where that identifier belongs, and nothing
    /// else changed.
    pub open spec fn is_removal(&self, before: RoutingTable, id: Seq<u8>) -> bool {
        forall|i: int|
            #![trigger self.spec_bucket(i)]
            self.spec_bucket(i) == if i == bucket_index(before.spec_local_id(), id) {
                removed(before.spec_bucket(i), id)
            } else {
                before.spec_bucket(i)
            }
    }

    /// An empty table for the node `local_id`, with buckets of the default capacity.
    pub fn new(local_id: Key) -> (table: RoutingTable)
        ensures
            table.wf(),
            table.spec_local_id() == local_id@,
            table.spec_bucket_size() == K,
            forall|i: int| (#[trigger] table.spec_bucket(i)).len() == 0,
    {
        RoutingTable::with_bucket_size(local_id, K)
    }

    /// An empty table for the node `local_id`, with buckets of up to
    /// `bucket_size` contacts.
    pub fn with_bucket_size(local_id: Key, bucket_size: usize) -> (table: RoutingTable)
        ensures
            table.wf(),
            table.spec_local_id() == local_id@,
            table.spec_bucket_size() == bucket_size,
            forall|i: int| (#[trigger] table.spec_bucket(i)).len() == 0,
    {
        broadcast use vstd::array::group_array_axioms;

        RoutingTable { local: local_id, bucket_size, buckets: HashMap::new() }
    }

    /// The identifier of the node that owns this table.
    pub fn local_id(&self) -> (id: &Key)
        ensures
            id@ == self.spec_local_id(),
    {
        &self.local
    }

    /// The capacity of each bucket.
    pub fn bucket_size(&self) -> (n: usize)
        ensures
            n == self.spec_bucket_size(),
    {
        self.bucket_size
    }

    /// The index of the bucket for the identifier `key`: the position of the
    /// highest bit in which it differs from the local identifier.
    ///
    /// The local identifier itself has no bucket and is refused.
    pub fn lookup_bucket_index(&self, key: &Key) -> (found: Result<usize, RoutingError>)
        ensures
            match found {
                Ok(index) => {
                    &&& key@ != self.spec_local_id()
                    &&& index == bucket_index(self.spec_local_id(), key@)
                    &&& index < KEY_BITS
                },
                Err(e) => e == RoutingError::InvalidIdentifier && key@ == self.spec_local_id(),
            },
    {
        broadcast use vstd::array::group_array_axioms;

        let d = self.local.distance(key);
        let zeros = d.leading_zeros();
        proof {
            lemma_xor_zero_iff_equal(self.local@, key@);
        }
        if zeros == KEY_BITS {
            Err(RoutingError::InvalidIdentifier)
        } else {
            Ok(KEY_BITS - 1 - zeros)
        }
    }

    /// The bucket at `index`, if one exists yet.
    pub fn bucket(&self, index: usize) -> (found: Option<&KBucket>)
        requires
            self.wf(),
        ensures
            match found {
                Some(b) => {
                    &&& b.wf()
                    &&& b@ == self.spec_bucket(index as int)
                    &&& b.spec_capacity() == self.spec_bucket_size()
                },
                None => self.spec_bucket(index as int).len() == 0,
            },
    {
        let found = self.buckets.get(&index);
        proof {
            let _ = self.spec_bucket(index as int);
        }
        found
    }

    /// Records that `contact` was just heard from, in the bucket where it
    /// belongs; the bucket comes into being if it did not exist.
    ///
    /// The local node's own identifier is refused.
    pub fn observe(&mut self, contact: NodeInfo) -> (done: Result<(), RoutingError>)
        requires
            old(self).wf(),
        ensures
            final(self).wf(),
            final(self).spec_local_id() == old(self).spec_local_id(),
            final(self).spec_bucket_size() == old(self).spec_bucket_size(),
            match done {
                Ok(_) => {
                    let index = bucket_index(old(self).spec_local_id(), contact.id@);
                    &&& contact.id@ != old(self).spec_local_id()
                    &&& final(self).spec_bucket(index) == observed(
                        old(self).spec_bucket(index),
                        old(self).spec_bucket_size(),
                        contact,
                    )
                    &&& forall|i: int|
                        i != index ==> final(self).spec_bucket(i) == old(self).spec_bucket(i)
                },
                Err(e) => {
                    &&& e == RoutingError::InvalidIdentifier
                    &&& contact.id@ == old(self).spec_local_id()
                    &&& forall|i: int| final(self).spec_bucket(i) == old(self).spec_bucket(i)
                },
            },
    {
        let index = match self.lookup_bucket_index(&contact.id) {
            Ok(index) => index,
            Err(e) => {
                return Err(e);
            },
        };
        let ghost seen = contact;
        let ghost before = self.spec_bucket(index as int);
        let mut bucket = match self.buckets.remove(&index) {
            Some(bucket) => bucket,
            None => KBucket::new(self.bucket_size),
        };
        assert(bucket@ == before);
        bucket.observe(contact);
        self.buckets.insert(index, bucket);
        proof {
            lemma_observed_members(before, self.spec_bucket_size(), seen);
            assert(self.spec_bucket(index as int) == observed(
                before,
                self.spec_bucket_size(),
                seen,
            ));
            assert forall|i: int| i != index implies self.spec_bucket(i) == old(self).spec_bucket(
                i,
            ) by {}
            self.lemma_changed_bucket_keeps_wf(*old(self), index as int, seen);
        }
        Ok(())
    }

    /// Forgets the contact with the identifier of `node`.
    ///
    /// Nothing changes when no such contact is held, or when its bucket does
    /// not exist.
    pub fn remove(&mut self, node: &NodeInfo)
        requires
            old(self).wf(),
        ensures
            final(self).wf(),
            final(self).spec_local_id() == old(self).spec_local_id(),
            final(self).spec_bucket_size() == old(self).spec_bucket_size(),
            final(self).is_removal(*old(self), node.id@),
    {
        let ghost before = *self;
        let index = match self.lookup_bucket_index(&node.id) {
            Ok(index) => index,
            Err(_) => {
                proof {
                    lemma_bucket_index_range(self.spec_local_id(), node.id@);
                    assert(self.spec_bucket(-1) =~= Seq::<NodeInfo>::empty());
                    assert(!has_id(self.spec_bucket(-1), node.id@));
                }
                return ;
            },
        };
        match self.buckets.remove(&index) {
            Some(mut bucket) => {
                assert(bucket@ == before.spec_bucket(index as int));
                bucket.remove(&node.id);
                self.buckets.insert(index, bucket);
                proof {
                    lemma_removed_members(before.spec_bucket(index as int), node.id@);
                    assert forall|i: int| i != index implies self.spec_bucket(i)
                        == before.spec_bucket(i) by {}
                    self.lemma_changed_bucket_keeps_wf(before, index as int, *node);
                }
            },
            None => {
                assert forall|i: int| self.spec_bucket(i) == before.spec_bucket(i) by {}
                assert(before.spec_bucket(index as int) =~= Seq::<NodeInfo>::empty());
                assert(!has_id(before.spec_bucket(index as int), node.id@));
                proof {
                    self.lemma_changed_bucket_keeps_wf(before, index as int, *node);
                }
            },
        }
    }

    /// Puts `fresh` in the place of the contact `stale`, which was found
    /// unresponsive, and tells whether it did.
    ///
    /// This is the second half of making room in a full bucket: the caller
    /// has probed the bucket's least recently seen contact and had no answer.
    /// Nothing changes when the two do not belong in the same bucket, or when
    /// the bucket declines the exchange. The local node's own identifier is
    /// refused as the one to come in.
    pub fn replace(&mut self, stale: &NodeInfo, fresh: NodeInfo) -> (done: Result<
        bool,
        RoutingError,
    >)
        requires
            old(self).wf(),
        ensures
            final(self).wf(),
            final(self).spec_local_id() == old(self).spec_local_id(),
            final(self).spec_bucket_size() == old(self).spec_bucket_size(),
            match done {
                Ok(exchanged) => {
                    let index = bucket_index(old(self).spec_local_id(), fresh.id@);
                    let same = index == bucket_index(old(self).spec_local_id(), stale.id@);
                    &&& fresh.id@ != old(self).spec_local_id()
                    &&& exchanged == (same && replaceable(
                        old(self).spec_bucket(index),
                        stale.id@,
                        fresh.id@,
                    ))
                    &&& forall|i: int|
                        final(self).spec_bucket(i) == if i == index && same {
                            replaced(old(self).spec_bucket(i), stale.id@, fresh)
                        } else {
                            old(self).spec_bucket(i)
                        }
                },
                Err(e) => {
                    &&& e == RoutingError::InvalidIdentifier
                    &&& fresh.id@ == old(self).spec_local_id()
                    &&& forall|i: int| final(self).spec_bucket(i) == old(self).spec_bucket(i)
                },
            },
    {
        let ghost before = *self;
        let ghost incoming = fresh;
        let index = match self.lookup_bucket_index(&fresh.id) {
            Ok(index) => index,
            Err(e) => {
                return Err(e);
            },
        };
        match self.lookup_bucket_index(&stale.id) {
            Ok(other) => {
                if other != index {
                    return Ok(false);
                }
            },
            Err(_) => {
                proof {
                    lemma_bucket_index_range(self.spec_local_id(), stale.id@);
                }
                return Ok(false);
            },
        }
        match self.buckets.remove(&index) {
            Some(mut bucket) => {
                assert(bucket@ == before.spec_bucket(index as int));
                let exchanged = bucket.replace(stale, fresh);
                self.buckets.insert(index, bucket);
                proof {
                    lemma_replaced_members(before.spec_bucket(index as int), stale.id@, incoming);
                    assert forall|i: int| i != index implies self.spec_bucket(i)
                        == before.spec_bucket(i) by {}
                    self.lemma_changed_bucket_keeps_wf(before, index as int, incoming);
                }
                Ok(exchanged)
            },
            None => {
                assert forall|i: int| self.spec_bucket(i) == before.spec_bucket(i) by {}
                assert(before.spec_bucket(index as int) =~= Seq::<NodeInfo>::empty());
                assert(!has_id(before.spec_bucket(index as int), stale.id@));
                proof {
                    self.lemma_changed_bucket_keeps_wf(before, index as int, incoming);
                }
                Ok(false)
            },
        }
    }

    /// Whether `c` is held in a bucket with an index from `lo` up to, but not
    /// including, `hi`.
    pub open spec fn holds_between(&self, lo: int, hi: int, c: NodeInfo) -> bool {
        exists|b: int, m: int|
            lo <= b < hi && 0 <= m < self.spec_bucket(b).len() && #[trigger] self.spec_bucket(
                b,
            )[m] == c
    }

    /// Every contact in a bucket with an index below `lo`, or from `hi` on, is
    /// farther from `target` than each of `picked`.
    spec fn rest_is_farther(
        &self,
        lo: int,
        hi: int,
        target: Seq<u8>,
        picked: Seq<NodeInfo>,
    ) -> bool {
        forall|b: int, m: int, i: int|
            (0 <= b < lo || hi <= b < KEY_BITS) && 0 <= m < self.spec_bucket(b).len() && 0 <= i
                < picked.len() ==> rank(#[trigger] picked[i], target) < rank(
                #[trigger] self.spec_bucket(b)[m],
                target,
            )
    }

    /// The `count` contacts of the table that are closest to `key`, closest
    /// first, each with its distance to `key`; all of them if the table holds
    /// fewer.
    ///
    /// The search starts at the bucket where `key` itself would belong and
    /// widens to the buckets on either side, one step at a time. It ends when
    /// every bucket has been seen, or as soon as `count` contacts are in hand
    /// and what the buckets not yet seen could hold is farther than all of them.
    /// No two contacts of a table are at the same distance from a key, so the
    /// order is never in doubt.
    pub fn get_closest_nodes(&self, key: &Key, count: usize) -> (closest: Vec<(&NodeInfo, Key)>)
        requires
            self.wf(),
        ensures
            distances_to(closest@, key@),
            is_closest(self.contacts(), key@, count as nat, contacts_of(closest@)),
            closest@.len() <= count,
            closest@.len() <= self.contacts().len(),
            forall|i: int, j: int|
                0 <= i < j < closest@.len() ==> be_value((#[trigger] closest@[i]).1@) < be_value(
                    (#[trigger] closest@[j]).1@,
                ),
            forall|i: int, j: int|
                0 <= i < j < closest@.len() ==> (#[trigger] closest@[i]).0.id@
                    != (#[trigger] closest@[j]).0.id@,
            forall|i: int|
                0 <= i < closest@.len() ==> (#[trigger] closest@[i]).0.id@ != self.spec_local_id(),
    {
        broadcast use vstd::array::group_array_axioms;

        let mut picked: Vec<(&NodeInfo, Key)> = Vec::new();
        if count == 0 {
            assert(is_closest(self.contacts(), key@, 0, contacts_of(picked@)));
            return picked;
        }
        let d = self.local.distance(key);
        let zeros = d.leading_zeros();
        let start: usize = if zeros == KEY_BITS {
            0
        } else {
            KEY_BITS - 1 - zeros
        };
        let ghost mut pool = Seq::<NodeInfo>::empty();
        self.gather(start, key, count, &mut picked, Ghost(pool));
        proof {
            pool = pool + self.spec_bucket(start as int);
            assert(pool =~= self.spec_bucket(start as int));
            assert(self.contacts_below(start + 1).len() == self.contacts_below(start as int).len()
                + pool.len());
        }
        let mut lo: usize = start;
        let mut hi: usize = start + 1;
        let mut settled = false;
        while !settled && (lo > 0 || hi < KEY_BITS)
            invariant
                self.wf(),
                count > 0,
                key@.len() == KEY_LEN,
                0 <= lo <= start < hi <= KEY_BITS,
                start == start_index(self.spec_local_id(), key@),
                distances_to(picked@, key@),
                is_closest(pool, key@, count as nat, contacts_of(picked@)),
                forall|k: int|
                    0 <= k < pool.len() ==> self.holds_between(
                        lo as int,
                        hi as int,
                        #[trigger] pool[k],
                    ),
                forall|b: int, m: int|
                    lo <= b < hi && 0 <= m < self.spec_bucket(b).len() ==> pool.contains(
                        #[trigger] self.spec_bucket(b)[m],
                    ),
                pool.len() == self.contacts_below(hi as int).len() - self.contacts_below(
                    lo as int,
                ).len(),
                settled ==> picked@.len() == count && self.rest_is_farther(
                    lo as int,
                    hi as int,
                    key@,
                    contacts_of(picked@),
                ),
            decreases (if settled {
                0
            } else {
                1 + lo + (KEY_BITS - hi)
            }),
        {
            if picked.len() == count {
                let bound = if lo > 0 {
                    start
                } else {
                    hi
                };
                let far = picked[count - 1].1.leading_zeros();
                if far + bound > KEY_BITS - 1 {
                    proof {
                        assert(contacts_of(picked@)[count - 1] == *picked@[count - 1].0);
                        self.lemma_rest_is_farther(
                            key@,
                            lo as int,
                            hi as int,
                            contacts_of(picked@),
                        );
                    }
                    settled = true;
                }
            }
            if !settled {
                if lo > 0 {
                    lo -= 1;
                    proof {
                        self.lemma_pool_apart(lo as int + 1, hi as int, lo as int, pool);
                    }
                    self.gather(lo, key, count, &mut picked, Ghost(pool));
                    proof {
                        let ghost wider = pool + self.spec_bucket(lo as int);
                        self.lemma_pool_grows(lo as int + 1, hi as int, lo as int, pool);
                        pool = wider;
                    }
                }
                if hi < KEY_BITS {
                    proof {
                        self.lemma_pool_apart(lo as int, hi as int, hi as int, pool);
                    }
                    self.gather(hi, key, count, &mut picked, Ghost(pool));
                    proof {
                        let ghost wider = pool + self.spec_bucket(hi as int);
                        self.lemma_pool_grows(lo as int, hi as int, hi as int, pool);
                        pool = wider;
                    }
                    hi += 1;
                }
            }
        }
        proof {
            self.lemma_gathered_is_closest(
                key@,
                count as nat,
                lo as int,
                hi as int,
                pool,
                contacts_of(picked@),
                settled,
            );
            self.lemma_closest_facts(key@, count as nat, picked@);
        }
        picked
    }

    /// Offers to `picked` what the bucket at `index` holds, by way of that
    /// bucket's own closest contacts.
    fn gather<'a>(
        &'a self,
        index: usize,
        key: &Key,
        count: usize,
        picked: &mut Vec<(&'a NodeInfo, Key)>,
        Ghost(pool): Ghost<Seq<NodeInfo>>,
    )
        requires
            self.wf(),
            count > 0,
            distances_to(old(picked)@, key@),
            is_closest(pool, key@, count as nat, contacts_of(old(picked)@)),
            apart(pool, self.spec_bucket(index as int)),
        ensures
            distances_to(final(picked)@, key@),
            is_closest(
                pool + self.spec_bucket(index as int),
                key@,
                count as nat,
                contacts_of(final(picked)@),
            ),
    {
        broadcast use vstd::array::group_array_axioms;

        match self.bucket(index) {
            Some(bucket) => {
                let near = bucket.closest(key, count);
                let ghost part = contacts_at(near@);
                let mut j: usize = 0;
                assert(pool + part.take(0) =~= pool);
                while j < near.len()
                    invariant
                        count > 0,
                        j <= near@.len(),
                        part == contacts_at(near@),
                        is_closest(bucket@, key@, count as nat, part),
                        bucket@ == self.spec_bucket(index as int),
                        apart(pool, bucket@),
                        distances_to(picked@, key@),
                        is_closest(
                            pool + part.take(j as int),
                            key@,
                            count as nat,
                            contacts_of(picked@),
                        ),
                    decreases near@.len() - j,
                {
                    let ghost seen = pool + part.take(j as int);
                    let c = near[j];
                    assert(*c == part[j as int]);
                    assert forall|k: int| 0 <= k < seen.len() implies (#[trigger] seen[k]).id@
                        != c.id@ by {
                        if k < pool.len() {
                            assert(seen[k] == pool[k]);
                            assert(bucket@.contains(part[j as int]));
                            let m = choose|m: int| 0 <= m < bucket@.len() && bucket@[m] == *c;
                            assert(pool[k].id@ != bucket@[m].id@);
                        } else {
                            let i = k - pool.len();
                            assert(seen[k] == part[i]);
                            assert(rank(part[i], key@) < rank(part[j as int], key@));
                        }
                    }
                    offer(picked, c, key, count, Ghost(seen));
                    assert(seen.push(*c) =~= pool + part.take(j + 1));
                    j += 1;
                }
                proof {
                    assert(part.take(near@.len() as int) =~= part);
                    lemma_closest_of_closest(
                        pool,
                        bucket@,
                        part,
                        key@,
                        count as nat,
                        contacts_of(picked@),
                    );
                }
            },
            None => {
                assert(pool + self.spec_bucket(index as int) =~= pool);
            },
        }
    }

    /// Contacts from buckets in one range of indices have identifiers that
    /// the bucket at an index outside that range does not hold.
    proof fn lemma_pool_apart(self, lo: int, hi: int, index: int, pool: Seq<NodeInfo>)
        requires
            self.wf(),
            index < lo || hi <= index,
            forall|k: int| 0 <= k < pool.len() ==> self.holds_between(lo, hi, #[trigger] pool[k]),
        ensures
            apart(pool, self.spec_bucket(index)),
    {
        let others = self.spec_bucket(index);
        assert forall|k: int, m: int| 0 <= k < pool.len() && 0 <= m < others.len() implies (
        #[trigger] pool[k]).id@ != (#[trigger] others[m]).id@ by {
            assert(self.holds_between(lo, hi, pool[k]));
            let (b, n) = choose|b: int, n: int|
                lo <= b < hi && 0 <= n < self.spec_bucket(b).len() && #[trigger] self.spec_bucket(
                    b,
                )[n] == pool[k];
            assert(self.placed(b));
            assert(self.placed(index));
            assert(bucket_index(self.spec_local_id(), self.spec_bucket(b)[n].id@) == b);
            assert(bucket_index(self.spec_local_id(), self.spec_bucket(index)[m].id@) == index);
        }
    }

    /// A pool of exactly the contacts of one range of buckets, extended by
    /// the bucket just below or just above, is the pool of the wider range.
    proof fn lemma_pool_grows(self, lo: int, hi: int, index: int, pool: Seq<NodeInfo>)
        requires
            0 <= lo <= hi,
            index == lo - 1 || index == hi,
            0 <= index,
            forall|k: int| 0 <= k < pool.len() ==> self.holds_between(lo, hi, #[trigger] pool[k]),
            forall|b: int, m: int|
                lo <= b < hi && 0 <= m < self.spec_bucket(b).len() ==> pool.contains(
                    #[trigger] self.spec_bucket(b)[m],
                ),
            pool.len() == self.contacts_below(hi).len() - self.contacts_below(lo).len(),
        ensures
            ({
                let wider = pool + self.spec_bucket(index);
                let l = if index < lo { index } else { lo };
                let h = if index < lo { hi } else { hi + 1 };
                &&& forall|k: int|
                    0 <= k < wider.len() ==> self.holds_between(l, h, #[trigger] wider[k])
                &&& forall|b: int, m: int|
                    l <= b < h && 0 <= m < self.spec_bucket(b).len() ==> wider.contains(
                        #[trigger] self.spec_bucket(b)[m],
                    )
                &&& wider.len() == self.contacts_below(h).len() - self.contacts_below(l).len()
            }),
    {
        let wider = pool + self.spec_bucket(index);
        let l = if index < lo { index } else { lo };
        let h = if index < lo { hi } else { hi + 1 };
        assert forall|k: int| 0 <= k < wider.len() implies self.holds_between(
            l,
            h,
            #[trigger] wider[k],
        ) by {
            if k < pool.len() {
                assert(wider[k] == pool[k]);
                assert(self.holds_between(lo, hi, pool[k]));
                let (b, n) = choose|b: int, n: int|
                    lo <= b < hi && 0 <= n < self.spec_bucket(b).len()
                        && #[trigger] self.spec_bucket(b)[n] == pool[k];
                assert(self.spec_bucket(b)[n] == wider[k]);
            } else {
                assert(self.spec_bucket(index)[k - pool.len()] == wider[k]);
            }
        }
        assert forall|b: int, m: int|
            l <= b < h && 0 <= m < self.spec_bucket(b).len() implies wider.contains(
            #[trigger] self.spec_bucket(b)[m],
        ) by {
            if b == index {
                assert(wider[pool.len() + m] == self.spec_bucket(b)[m]);
            } else {
                assert(pool.contains(self.spec_bucket(b)[m]));
                let k = choose|k: int| 0 <= k < pool.len() && pool[k] == self.spec_bucket(b)[m];
                assert(wider[k] == self.spec_bucket(b)[m]);
            }
        }
        assert(self.contacts_below(index + 1).len() == self.contacts_below(index).len()
            + self.spec_bucket(index).len());
    }

    /// The buckets not yet seen hold nothing closer than a full list whose
    /// farthest contact is closer than the least distance they allow.
    proof fn lemma_rest_is_farther(self, key: Seq<u8>, lo: int, hi: int, picked: Seq<NodeInfo>)
        requires
            self.wf(),
            key.len() == KEY_LEN,
            picked.len() > 0,
            ascending(picked, key),
            0 <= lo <= start_index(self.spec_local_id(), key) < hi <= KEY_BITS,
            leading_zero_bits(xor_bytes(picked.last().id@, key)) + (if lo > 0 {
                start_index(self.spec_local_id(), key)
            } else {
                hi
            }) > KEY_BITS - 1,
        ensures
            self.rest_is_farther(lo, hi, key, picked),
    {
        broadcast use vstd::array::group_array_axioms;

        let local = self.spec_local_id();
        let last = xor_bytes(picked.last().id@, key);
        lemma_bucket_index_range(local, key);
        assert forall|b: int, m: int, i: int|
            (0 <= b < lo || hi <= b < KEY_BITS) && 0 <= m < self.spec_bucket(b).len() && 0 <= i
                < picked.len() implies rank(#[trigger] picked[i], key) < rank(
            #[trigger] self.spec_bucket(b)[m],
            key,
        ) by {
            let x = self.spec_bucket(b)[m];
            assert(self.placed(b));
            lemma_bucket_index_of_pair(local, x.id@, key);
            lemma_leading_zero_bits_order(last, xor_bytes(x.id@, key));
            if i < picked.len() - 1 {
                assert(rank(picked[i], key) < rank(picked[picked.len() - 1], key));
            }
        }
    }

    /// What was gathered is the answer for the whole table, once every bucket
    /// has been seen or the rest is known to be farther.
    proof fn lemma_gathered_is_closest(
        self,
        key: Seq<u8>,
        count: nat,
        lo: int,
        hi: int,
        pool: Seq<NodeInfo>,
        picked: Seq<NodeInfo>,
        settled: bool,
    )
        requires
            self.wf(),
            0 <= lo <= hi <= KEY_BITS,
            is_closest(pool, key, count, picked),
            forall|k: int| 0 <= k < pool.len() ==> self.holds_between(lo, hi, #[trigger] pool[k]),
            forall|b: int, m: int|
                lo <= b < hi && 0 <= m < self.spec_bucket(b).len() ==> pool.contains(
                    #[trigger] self.spec_bucket(b)[m],
                ),
            pool.len() == self.contacts_below(hi).len() - self.contacts_below(lo).len(),
            settled ==> picked.len() == count && self.rest_is_farther(lo, hi, key, picked),
            !settled ==> lo == 0 && hi == KEY_BITS,
        ensures
            is_closest(self.contacts(), key, count, picked),
    {
        let all = self.contacts();
        self.lemma_contacts_below_len(hi, KEY_BITS as int);
        self.lemma_contacts_below_holds(KEY_BITS as int);
        assert forall|i: int| 0 <= i < picked.len() implies all.contains(#[trigger] picked[i]) by {
            assert(pool.contains(picked[i]));
            let k = choose|k: int| 0 <= k < pool.len() && pool[k] == picked[i];
            assert(self.holds_between(lo, hi, pool[k]));
            let (b, m) = choose|b: int, m: int|
                lo <= b < hi && 0 <= m < self.spec_bucket(b).len() && #[trigger] self.spec_bucket(
                    b,
                )[m] == pool[k];
            assert(all.contains(self.spec_bucket(b)[m]));
        }
        assert forall|k: int| 0 <= k < all.len() implies accounted_for(
            picked,
            key,
            count,
            #[trigger] all[k],
        ) by {
            assert(self.holds_between(0, KEY_BITS as int, all[k]));
            let (b, m) = choose|b: int, m: int|
                0 <= b < KEY_BITS && 0 <= m < self.spec_bucket(b).len()
                    && #[trigger] self.spec_bucket(b)[m] == all[k];
            if lo <= b < hi {
                assert(pool.contains(self.spec_bucket(b)[m]));
                let n = choose|n: int| 0 <= n < pool.len() && pool[n] == all[k];
                assert(accounted_for(picked, key, count, pool[n]));
            } else {
                assert(settled);
                assert forall|i: int| 0 <= i < picked.len() implies rank(
                    #[trigger] picked[i],
                    key,
                ) < rank(all[k], key) by {
                    assert(rank(picked[i], key) < rank(self.spec_bucket(b)[m], key));
                }
            }
        }
    }

    /// The buckets below a higher index hold at least as many contacts as
    /// those below a lower one.
    proof fn lemma_contacts_below_len(self, a: int, b: int)
        requires
            a <= b,
        ensures
            self.contacts_below(a).len() <= self.contacts_below(b).len(),
        decreases b - a,
    {
        if a < b {
            self.lemma_contacts_below_len(a, b - 1);
        }
    }

    /// The contacts below an index are exactly what the buckets below it hold.
    proof fn lemma_contacts_below_holds(self, n: int)
        ensures
            forall|k: int|
                0 <= k < self.contacts_below(n).len() ==> self.holds_between(
                    0,
                    n,
                    #[trigger] self.contacts_below(n)[k],
                ),
            forall|b: int, m: int|
                0 <= b < n && 0 <= m < self.spec_bucket(b).len() ==> self.contacts_below(
                    n,
                ).contains(#[trigger] self.spec_bucket(b)[m]),
        decreases n,
    {
        if n > 0 {
            self.lemma_contacts_below_holds(n - 1);
            let less = self.contacts_below(n - 1);
            let all = self.contacts_below(n);
            assert forall|k: int| 0 <= k < all.len() implies self.holds_between(
                0,
                n,
                #[trigger] all[k],
            ) by {
                if k < less.len() {
                    assert(all[k] == less[k]);
                    assert(self.holds_between(0, n - 1, less[k]));
                    let (b, m) = choose|b: int, m: int|
                        0 <= b < n - 1 && 0 <= m < self.spec_bucket(b).len()
                            && #[trigger] self.spec_bucket(b)[m] == less[k];
                    assert(self.spec_bucket(b)[m] == all[k]);
                } else {
                    assert(self.spec_bucket(n - 1)[k - less.len()] == all[k]);
                }
            }
            assert forall|b: int, m: int|
                0 <= b < n && 0 <= m < self.spec_bucket(b).len() implies all.contains(
                #[trigger] self.spec_bucket(b)[m],
            ) by {
                if b < n - 1 {
                    assert(less.contains(self.spec_bucket(b)[m]));
                    let k = choose|k: int| 0 <= k < less.len() && less[k] == self.spec_bucket(b)[m];
                    assert(all[k] == self.spec_bucket(b)[m]);
                } else {
                    assert(all[less.len() + m] == self.spec_bucket(b)[m]);
                }
            }
        }
    }

    /// The closest contacts of a table come in strictly growing distance,
    /// none of them twice, and none of them the local node.
    proof fn lemma_closest_facts(self, key: Seq<u8>, count: nat, closest: Seq<(&NodeInfo, Key)>)
        requires
            self.wf(),
            key.len() == KEY_LEN,
            distances_to(closest, key),
            is_closest(self.contacts(), key, count, contacts_of(closest)),
        ensures
            closest.len() <= count,
            closest.len() <= self.contacts().len(),
            forall|i: int, j: int|
                0 <= i < j < closest.len() ==> be_value((#[trigger] closest[i]).1@) < be_value(
                    (#[trigger] closest[j]).1@,
                ),
            forall|i: int, j: int|
                0 <= i < j < closest.len() ==> (#[trigger] closest[i]).0.id@
                    != (#[trigger] closest[j]).0.id@,
            forall|i: int|
                0 <= i < closest.len() ==> (#[trigger] closest[i]).0.id@ != self.spec_local_id(),
    {
        broadcast use vstd::array::group_array_axioms;

        let picked = contacts_of(closest);
        assert forall|i: int, j: int| 0 <= i < j < closest.len() implies be_value(
            (#[trigger] closest[i]).1@,
        ) < be_value((#[trigger] closest[j]).1@) && closest[i].0.id@ != closest[j].0.id@ by {
            assert(rank(picked[i], key) < rank(picked[j], key));
        }
        self.lemma_contacts_below_holds(KEY_BITS as int);
        assert forall|i: int| 0 <= i < closest.len() implies (#[trigger] closest[i]).0.id@
            != self.spec_local_id() by {
            assert(self.contacts().contains(picked[i]));
            let k = choose|k: int|
                0 <= k < self.contacts().len() && self.contacts()[k] == picked[i];
            assert(self.holds_between(0, KEY_BITS as int, self.contacts()[k]));
            let (b, m) = choose|b: int, m: int|
                0 <= b < KEY_BITS && 0 <= m < self.spec_bucket(b).len()
                    && #[trigger] self.spec_bucket(b)[m] == picked[i];
            assert(self.placed(b));
            lemma_bucket_index_range(self.spec_local_id(), picked[i].id@);
        }
    }

    /// The contacts of a table are exactly what its buckets hold.
    pub proof fn lemma_contacts_are_held(self)
        ensures
            forall|c: NodeInfo|
                #[trigger] self.contacts().contains(c) <==> self.holds_between(
                    0,
                    KEY_BITS as int,
                    c,
                ),
    {
        self.lemma_contacts_below_holds(KEY_BITS as int);
        assert forall|c: NodeInfo| #[trigger]
            self.contacts().contains(c) implies self.holds_between(0, KEY_BITS as int, c) by {
            let k = choose|k: int| 0 <= k < self.contacts().len() && self.contacts()[k] == c;
            assert(self.holds_between(0, KEY_BITS as int, self.contacts()[k]));
        }
        assert forall|c: NodeInfo|
            self.holds_between(0, KEY_BITS as int, c) implies #[trigger] self.contacts().contains(
            c,
        ) by {
            let (b, m) = choose|b: int, m: int|
                0 <= b < KEY_BITS && 0 <= m < self.spec_bucket(b).len()
                    && #[trigger] self.spec_bucket(b)[m] == c;
            assert(self.contacts().contains(self.spec_bucket(b)[m]));
        }
    }

    /// A table holds at least as many contacts as any one of its buckets.
    pub proof fn lemma_contacts_len(self, index: int)
        requires
            0 <= index < KEY_BITS,
        ensures
            self.spec_bucket(index).len() <= self.contacts().len(),
    {
        self.lemma_contacts_below_len(index + 1, KEY_BITS as int);
    }

    /// An identifier is held at most once in a table, in the bucket that its
    /// distance from the local node assigns, and the local identifier is not
    /// held at all.
    pub proof fn lemma_one_place(self, i: int, k: int, j: int, m: int)
        requires
            self.wf(),
            0 <= k < self.spec_bucket(i).len(),
            0 <= m < self.spec_bucket(j).len(),
            self.spec_bucket(i)[k].id@ == self.spec_bucket(j)[m].id@,
        ensures
            i == j,
            k == m,
            i == bucket_index(self.spec_local_id(), self.spec_bucket(i)[k].id@),
            0 <= i < KEY_BITS,
            self.spec_bucket(i)[k].id@ != self.spec_local_id(),
    {
        broadcast use vstd::array::group_array_axioms;

        assert(self.placed(i));
        assert(self.placed(j));
        lemma_bucket_index_range(self.spec_local_id(), self.spec_bucket(i)[k].id@);
        assert(self.spec_bucket(-1) =~= Seq::<NodeInfo>::empty());
        assert(distinct_ids(self.spec_bucket(i)));
        if k < m {
            assert(self.spec_bucket(i)[k].id@ != self.spec_bucket(i)[m].id@);
        } else if m < k {
            assert(self.spec_bucket(i)[m].id@ != self.spec_bucket(i)[k].id@);
        }
    }

    /// No two contacts of a table share an identifier.
    pub proof fn lemma_contacts_distinct(self)
        requires
            self.wf(),
        ensures
            distinct_ids(self.contacts()),
    {
        self.lemma_contacts_below_distinct(KEY_BITS as int);
    }

    proof fn lemma_contacts_below_distinct(self, n: int)
        requires
            self.wf(),
        ensures
            distinct_ids(self.contacts_below(n)),
        decreases n,
    {
        if n > 0 {
            self.lemma_contacts_below_distinct(n - 1);
            self.lemma_contacts_below_holds(n - 1);
            let less = self.contacts_below(n - 1);
            let all = self.contacts_below(n);
            assert forall|i: int, j: int| 0 <= i < j < all.len() implies (#[trigger] all[i]).id@
                != (#[trigger] all[j]).id@ by {
                if j < less.len() {
                    assert(all[i] == less[i] && all[j] == less[j]);
                } else if i < less.len() {
                    assert(all[i] == less[i]);
                    assert(self.holds_between(0, n - 1, less[i]));
                    let (b, m) = choose|b: int, m: int|
                        0 <= b < n - 1 && 0 <= m < self.spec_bucket(b).len()
                            && #[trigger] self.spec_bucket(b)[m] == less[i];
                    assert(all[j] == self.spec_bucket(n - 1)[j - less.len()]);
                    if all[i].id@ == all[j].id@ {
                        self.lemma_one_place(b, m, n - 1, j - less.len());
                    }
                } else {
                    assert(all[i] == self.spec_bucket(n - 1)[i - less.len()]);
                    assert(all[j] == self.spec_bucket(n - 1)[j - less.len()]);
                    assert(distinct_ids(self.spec_bucket(n - 1)));
                }
            }
        }
    }

    /// What a query for the closest contacts returns is decided by the table,
    /// the key and the count alone: two lists that both hold the `count`
    /// contacts of the table closest to `key`, closest first, are equal.
    pub proof fn lemma_closest_nodes_determined(
        self,
        key: Seq<u8>,
        count: nat,
        first: Seq<NodeInfo>,
        second: Seq<NodeInfo>,
    )
        requires
            self.wf(),
            key.len() == KEY_LEN,
            is_closest(self.contacts(), key, count, first),
            is_closest(self.contacts(), key, count, second),
        ensures
            first == second,
    {
        broadcast use vstd::array::group_array_axioms;

        self.lemma_contacts_distinct();
        lemma_closest_unique(self.contacts(), key, count, first, second);
    }

    /// Forgetting the same contact a second time changes nothing.
    pub proof fn lemma_remove_twice(self, once: RoutingTable, twice: RoutingTable, id: Seq<u8>)
        requires
            self.wf(),
            once.spec_local_id() == self.spec_local_id(),
            once.is_removal(self, id),
            twice.is_removal(once, id),
        ensures
            forall|i: int| twice.spec_bucket(i) == once.spec_bucket(i),
    {
        let index = bucket_index(self.spec_local_id(), id);
        assert forall|i: int| twice.spec_bucket(i) == once.spec_bucket(i) by {
            let _ = self.spec_bucket(i);
            if i == index {
                lemma_removed_twice(self.spec_bucket(i), id);
            }
        }
    }

    /// A table stays well formed when one bucket changes to hold, without
    /// repeated identifiers and within capacity, only contacts that it held
    /// before or the contact `incoming`, which belongs in that bucket.
    proof fn lemma_changed_bucket_keeps_wf(
        self,
        before: RoutingTable,
        index: int,
        incoming: NodeInfo,
    )
        requires
            before.wf(),
            self.sized(),
            self.spec_local_id() == before.spec_local_id(),
            self.spec_bucket_size() == before.spec_bucket_size(),
            forall|i: int| i != index ==> self.spec_bucket(i) == before.spec_bucket(i),
            self.spec_bucket(index).len() <= self.spec_bucket_size(),
            distinct_ids(self.spec_bucket(index)),
            forall|k: int|
                0 <= k < self.spec_bucket(index).len() ==> {
                    let c = #[trigger] self.spec_bucket(index)[k];
                    ||| before.spec_bucket(index).contains(c)
                    ||| c == incoming && bucket_index(self.spec_local_id(), incoming.id@) == index
                },
        ensures
            self.wf(),
    {
        assert forall|i: int| #![trigger self.spec_bucket(i)] self.placed(i) by {
            if i == index {
                assert(before.placed(index));
                assert forall|k: int| 0 <= k < self.spec_bucket(i).len() implies bucket_index(
                    self.spec_local_id(),
                    (#[trigger] self.spec_bucket(i)[k]).id@,
                ) == i by {
                    let c = self.spec_bucket(i)[k];
                    if before.spec_bucket(index).contains(c) {
                        let m = choose|m: int|
                            0 <= m < before.spec_bucket(index).len() && before.spec_bucket(
                                index,
                            )[m] == c;
                        assert(before.spec_bucket(index)[m] == c);
                    }
                }
            } else {
                assert(self.spec_bucket(i) == before.spec_bucket(i));
                assert(before.placed(i));
            }
        }
        assert forall|i: int|
            #![trigger self.spec_bucket(i)]
            self.spec_bucket(i).len() <= self.spec_bucket_size() && distinct_ids(
                self.spec_bucket(i),
            ) by {
            if i != index {
                assert(self.spec_bucket(i) == before.spec_bucket(i));
            }
        }
    }
}

} // verus!
