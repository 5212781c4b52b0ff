//! Choosing the contacts closest to a target.
//!
//! The closest contacts are gathered one candidate at a time into a short list
//! that is kept in order of distance and never grows beyond the number asked
//! for. This module says what it means for such a list to be the right answer
//! for the candidates seen so far, and holds the step that keeps it so.

use vstd::prelude::*;
use crate::key::Key;
use crate::metric::{
    be_value, lemma_be_value_injective, lemma_xor_chain, lemma_xor_symmetric,
    lemma_xor_zero_iff_equal, xor_bytes,
};
use crate::node::NodeInfo;

verus! {

/// How far the contact `c` is from `target`, as a number: the smaller, the closer.
pub open spec fn rank(c: NodeInfo, target: Seq<u8>) -> nat {
    be_value(xor_bytes(c.id@, target))
}

/// Every contact picked is one of the pool.
pub open spec fn drawn_from(picked: Seq<NodeInfo>, pool: Seq<NodeInfo>) -> bool {
    forall|i: int| 0 <= i < picked.len() ==> pool.contains(#[trigger] picked[i])
}

/// The contacts picked come in order of strictly growing distance to `target`.
pub open spec fn ascending(picked: Seq<NodeInfo>, target: Seq<u8>) -> bool {
    forall|i: int, j: int|
        0 <= i < j < picked.len() ==> rank(#[trigger] picked[i], target) < rank(
            #[trigger] picked[j],
            target,
        )
}

/// The contact `c` is either picked, or was left out of a full list of
/// contacts that are all closer to `target` than it is.
pub open spec fn accounted_for(
    picked: Seq<NodeInfo>,
    target: Seq<u8>,
    limit: nat,
    c: NodeInfo,
) -> bool {
    picked.contains(c) || (picked.len() == limit && forall|i: int|
        0 <= i < picked.len() ==> rank(#[trigger] picked[i], target) < rank(c, target))
}

/// `picked` holds the `limit` contacts of `pool` that are closest to `target`,
/// closest first, or all of `pool` if it has fewer.
pub open spec fn is_closest(
    pool: Seq<NodeInfo>,
    target: Seq<u8>,
    limit: nat,
    picked: Seq<NodeInfo>,
) -> bool {
    &&& picked.len() == if limit <= pool.len() { limit } else { pool.len() }
    &&& drawn_from(picked, pool)
    &&& ascending(picked, target)
    &&& forall|k: int|
        0 <= k < pool.len() ==> accounted_for(picked, target, limit, #[trigger] pool[k])
}

/// The contacts that a list of references points to.
pub open spec fn contacts_at(refs: Seq<&NodeInfo>) -> Seq<NodeInfo> {
    refs.map_values(|c: &NodeInfo| *c)
}

/// The contacts of a list of contacts paired with their distances.
pub open spec fn contacts_of(pairs: Seq<(&NodeInfo, Key)>) -> Seq<NodeInfo> {
    pairs.map_values(|p: (&NodeInfo, Key)| *p.0)
}

/// Each contact is paired with its distance to `target`.
pub open spec fn distances_to(pairs: Seq<(&NodeInfo, Key)>, target: Seq<u8>) -> bool {
    forall|i: int|
        0 <= i < pairs.len() ==> (#[trigger] pairs[i]).1@ == xor_bytes(pairs[i].0.id@, target)
}

/// Identifiers at the same distance from a target are the same identifier.
pub proof fn lemma_rank_injective(a: Seq<u8>, b: Seq<u8>, target: Seq<u8>)
    requires
        a.len() == target.len(),
        b.len() == target.len(),
        be_value(xor_bytes(a, target)) == be_value(xor_bytes(b, target)),
    ensures
        a == b,
{
    lemma_be_value_injective(xor_bytes(a, target), xor_bytes(b, target));
    lemma_xor_symmetric(b, target);
    lemma_xor_chain(a, target, b);
    lemma_xor_zero_iff_equal(xor_bytes(a, target), xor_bytes(a, target));
    lemma_xor_zero_iff_equal(a, b);
}

/// Where every contact of one list in order of distance occurs in another
/// such list, the second is at least as long, and place by place no farther
/// from the target than the first.
pub proof fn lemma_ascending_sublist(
    xs: Seq<NodeInfo>,
    ys: Seq<NodeInfo>,
    target: Seq<u8>,
    i: int,
)
    requires
        ascending(xs, target),
        ascending(ys, target),
        drawn_from(xs, ys),
        0 <= i < xs.len(),
    ensures
        i < ys.len(),
        rank(ys[i], target) <= rank(xs[i], target),
    decreases i,
{
    assert(ys.contains(xs[i]));
    let k = choose|k: int| 0 <= k < ys.len() && ys[k] == xs[i];
    if i > 0 {
        lemma_ascending_sublist(xs, ys, target, i - 1);
        assert(rank(xs[i - 1], target) < rank(xs[i], target));
        if k < i - 1 {
            assert(rank(ys[k], target) < rank(ys[i - 1], target));
        }
        assert(k >= i);
    }
    if i < k {
        assert(rank(ys[i], target) < rank(ys[k], target));
    }
}

/// The closest contacts of a pool stay the closest when one part of the pool
/// is cut down to its own closest contacts: what that part leaves out could
/// not have been picked.
pub proof fn lemma_closest_of_closest(
    pool: Seq<NodeInfo>,
    whole: Seq<NodeInfo>,
    part: Seq<NodeInfo>,
    target: Seq<u8>,
    limit: nat,
    picked: Seq<NodeInfo>,
)
    requires
        limit > 0,
        is_closest(whole, target, limit, part),
        is_closest(pool + part, target, limit, picked),
    ensures
        is_closest(pool + whole, target, limit, picked),
{
    let narrow = pool + part;
    let wide = pool + whole;
    assert forall|i: int| 0 <= i < picked.len() implies wide.contains(#[trigger] picked[i]) by {
        assert(narrow.contains(picked[i]));
        let k = choose|k: int| 0 <= k < narrow.len() && narrow[k] == picked[i];
        if k < pool.len() {
            assert(wide[k] == picked[i]);
        } else {
            let m = k - pool.len();
            assert(part[m] == picked[i]);
            assert(whole.contains(part[m]));
            let w = choose|w: int| 0 <= w < whole.len() && whole[w] == part[m];
            assert(wide[pool.len() + w] == picked[i]);
        }
    }
    assert forall|k: int| 0 <= k < wide.len() implies accounted_for(
        picked,
        target,
        limit,
        #[trigger] wide[k],
    ) by {
        let x = wide[k];
        if k < pool.len() {
            assert(narrow[k] == x);
        } else {
            assert(whole[k - pool.len()] == x);
            assert(accounted_for(part, target, limit, whole[k - pool.len()]));
            if part.contains(x) {
                let m = choose|m: int| 0 <= m < part.len() && part[m] == x;
                assert(narrow[pool.len() + m] == x);
            } else {
                assert(part.len() == limit);
                assert(picked.len() == limit);
                assert forall|m: int| 0 <= m < part.len() implies accounted_for(
                    picked,
                    target,
                    limit,
                    #[trigger] part[m],
                ) by {
                    assert(narrow[pool.len() + m] == part[m]);
                }
                if drawn_from(part, picked) {
                    assert forall|i: int| 0 <= i < picked.len() implies rank(
                        #[trigger] picked[i],
                        target,
                    ) < rank(x, target) by {
                        lemma_ascending_sublist(part, picked, target, limit - 1);
                        assert(rank(part[limit - 1], target) < rank(x, target));
                        if i < limit - 1 {
                            assert(rank(picked[i], target) < rank(picked[limit - 1], target));
                        }
                    }
                } else {
                    let m = choose|m: int|
                        0 <= m < part.len() && !picked.contains(#[trigger] part[m]);
                    assert(accounted_for(picked, target, limit, part[m]));
                    assert(rank(part[m], target) < rank(x, target));
                }
            }
        }
    }
}

/// Among contacts with distinct identifiers, the closest to a target are one
/// list and no other: two lists that both hold the `limit` closest contacts of
/// `pool`, closest first, are equal.
pub proof fn lemma_closest_unique(
    pool: Seq<NodeInfo>,
    target: Seq<u8>,
    limit: nat,
    first: Seq<NodeInfo>,
    second: Seq<NodeInfo>,
)
    requires
        forall|i: int, j: int|
            0 <= i < j < pool.len() ==> (#[trigger] pool[i]).id@ != (#[trigger] pool[j]).id@,
        forall|i: int| 0 <= i < pool.len() ==> (#[trigger] pool[i]).id@.len() == target.len(),
        is_closest(pool, target, limit, first),
        is_closest(pool, target, limit, second),
    ensures
        first == second,
{
    lemma_closest_covers(pool, target, limit, first, second);
    lemma_closest_covers(pool, target, limit, second, first);
    assert forall|i: int| 0 <= i < first.len() implies first[i] == second[i] by {
        lemma_ascending_sublist(first, second, target, i);
        lemma_ascending_sublist(second, first, target, i);
        assert(pool.contains(first[i]));
        assert(pool.contains(second[i]));
        let a = choose|a: int| 0 <= a < pool.len() && pool[a] == first[i];
        let b = choose|b: int| 0 <= b < pool.len() && pool[b] == second[i];
        lemma_rank_injective(pool[a].id@, pool[b].id@, target);
        if a < b {
            assert(pool[a].id@ != pool[b].id@);
        } else if b < a {
            assert(pool[b].id@ != pool[a].id@);
        }
    }
    assert(first =~= second);
}

/// Of two lists that both hold the closest contacts of a pool, the first
/// holds nothing that the second lacks.
proof fn lemma_closest_covers(
    pool: Seq<NodeInfo>,
    target: Seq<u8>,
    limit: nat,
    first: Seq<NodeInfo>,
    second: Seq<NodeInfo>,
)
    requires
        is_closest(pool, target, limit, first),
        is_closest(pool, target, limit, second),
    ensures
        drawn_from(first, second),
{
    assert forall|i: int| 0 <= i < first.len() implies second.contains(#[trigger] first[i]) by {
        let x = first[i];
        assert(pool.contains(x));
        let k = choose|k: int| 0 <= k < pool.len() && pool[k] == x;
        assert(accounted_for(second, target, limit, pool[k]));
        if !second.contains(x) {
            let wider = second.push(x);
            assert forall|j: int| 0 <= j < wider.len() implies first.contains(
                #[trigger] wider[j],
            ) by {
                if j < second.len() {
                    assert(wider[j] == second[j]);
                    assert(pool.contains(second[j]));
                    let m = choose|m: int| 0 <= m < pool.len() && pool[m] == second[j];
                    assert(accounted_for(first, target, limit, pool[m]));
                    assert(rank(second[j], target) < rank(x, target));
                    if !first.contains(second[j]) {
                        assert(rank(first[i], target) < rank(second[j], target));
                    }
                }
            }
            assert(ascending(wider, target)) by {
                assert forall|a: int, b: int| 0 <= a < b < wider.len() implies rank(
                    #[trigger] wider[a],
                    target,
                ) < rank(#[trigger] wider[b], target) by {
                    assert(wider[a] == second[a]);
                    if b < second.len() {
                        assert(wider[b] == second[b]);
                    }
                }
            }
            lemma_ascending_sublist(wider, first, target, limit as int);
        }
    }
}

/// Offers the contact `c` to the list `picked` of the closest contacts so far.
///
/// `c` goes in at its place by distance, and the farthest contact leaves if
/// the list has outgrown `limit`; a contact farther than a full list is not
/// taken. `pool` is what has been offered before, none of it with the
/// identifier of `c`.
pub(crate) fn offer<'a>(
    picked: &mut Vec<(&'a NodeInfo, Key)>,
    c: &'a NodeInfo,
    target: &Key,
    limit: usize,
    Ghost(pool): Ghost<Seq<NodeInfo>>,
)
    requires
        limit > 0,
        distances_to(old(picked)@, target@),
        is_closest(pool, target@, limit as nat, contacts_of(old(picked)@)),
        forall|k: int| 0 <= k < pool.len() ==> (#[trigger] pool[k]).id@ != c.id@,
    ensures
        distances_to(final(picked)@, target@),
        is_closest(pool.push(*c), target@, limit as nat, contacts_of(final(picked)@)),
{
    broadcast use vstd::array::group_array_axioms;

    let ghost before = contacts_of(picked@);
    let ghost t = target@;
    let d = c.id.distance(target);
    assert forall|i: int| 0 <= i < before.len() implies rank(#[trigger] before[i], t) != rank(
        *c,
        t,
    ) by {
        assert(pool.contains(before[i]));
        let k = choose|k: int| 0 <= k < pool.len() && pool[k] == before[i];
        assert(pool[k].id@ != c.id@);
        if rank(before[i], t) == rank(*c, t) {
            lemma_rank_injective(before[i].id@, c.id@, t);
        }
    }
    let mut p: usize = 0;
    while p < picked.len() && picked[p].1.less_than(&d)
        invariant
            p <= picked@.len(),
            picked@ == old(picked)@,
            before == contacts_of(picked@),
            distances_to(picked@, t),
            d@ == xor_bytes(c.id@, t),
            forall|i: int| 0 <= i < p ==> rank(#[trigger] before[i], t) < rank(*c, t),
        decreases picked@.len() - p,
    {
        p += 1;
    }
    assert(forall|i: int|
        p <= i < before.len() ==> rank(*c, t) < rank(#[trigger] before[i], t)) by {
        if p < before.len() {
            assert(rank(before[p as int], t) != rank(*c, t));
            assert(forall|i: int|
                p < i < before.len() ==> rank(before[p as int], t) < rank(
                    #[trigger] before[i],
                    t,
                ));
        }
    }
    let ghost grown = pool.push(*c);
    assert forall|i: int| 0 <= i < before.len() implies grown.contains(#[trigger] before[i]) by {
        let k = choose|k: int| 0 <= k < pool.len() && pool[k] == before[i];
        assert(grown[k] == before[i]);
    }
    assert(grown[pool.len() as int] == *c);
    if p >= limit {
        assert forall|k: int| 0 <= k < grown.len() implies accounted_for(
            before,
            t,
            limit as nat,
            #[trigger] grown[k],
        ) by {
            if k < pool.len() {
                assert(grown[k] == pool[k]);
            }
        }
        return ;
    }
    picked.insert(p, (c, d));
    let ghost wide = before.insert(p as int, *c);
    assert(contacts_of(picked@) =~= wide);
    assert(ascending(wide, t)) by {
        assert forall|i: int, j: int| 0 <= i < j < wide.len() implies rank(
            #[trigger] wide[i],
            t,
        ) < rank(#[trigger] wide[j], t) by {
            let i0 = if i < p { i } else { i - 1 };
            let j0 = if j < p { j } else { j - 1 };
            if i != p {
                assert(wide[i] == before[i0]);
            }
            if j != p {
                assert(wide[j] == before[j0]);
            }
        }
    }
    assert forall|i: int| 0 <= i < wide.len() implies grown.contains(#[trigger] wide[i]) by {
        if i != p {
            let i0 = if i < p { i } else { i - 1 };
            assert(wide[i] == before[i0]);
        }
    }
    if picked.len() > limit {
        picked.pop();
        let ghost kept = wide.drop_last();
        assert(contacts_of(picked@) =~= kept);
        assert(kept.len() == limit);
        assert forall|k: int| 0 <= k < grown.len() implies accounted_for(
            kept,
            t,
            limit as nat,
            #[trigger] grown[k],
        ) by {
            let x = grown[k];
            assert(forall|i: int| 0 <= i < kept.len() ==> kept[i] == wide[i]);
            if k == pool.len() {
                assert(kept[p as int] == x);
            } else {
                assert(x == pool[k]);
                assert(accounted_for(before, t, limit as nat, pool[k]));
                if before.contains(x) {
                    let i0 = choose|i: int| 0 <= i < before.len() && before[i] == x;
                    let i = if i0 < p { i0 } else { i0 + 1 };
                    assert(wide[i] == x);
                    if i < kept.len() {
                        assert(kept[i] == x);
                    } else {
                        assert forall|m: int| 0 <= m < kept.len() implies rank(
                            #[trigger] kept[m],
                            t,
                        ) < rank(x, t) by {
                            assert(kept[m] == wide[m]);
                        }
                    }
                } else {
                    assert forall|m: int| 0 <= m < kept.len() implies rank(
                        #[trigger] kept[m],
                        t,
                    ) < rank(x, t) by {
                        assert(kept[m] == wide[m]);
                        if m != p {
                            let m0 = if m < p { m } else { m - 1 };
                            assert(wide[m] == before[m0]);
                        } else {
                            assert(rank(*c, t) < rank(before[p as int], t));
                        }
                    }
                }
            }
        }
        assert(drawn_from(kept, grown)) by {
            assert forall|i: int| 0 <= i < kept.len() implies grown.contains(
                #[trigger] kept[i],
            ) by {
                assert(kept[i] == wide[i]);
            }
        }
        assert(ascending(kept, t)) by {
            assert forall|i: int, j: int| 0 <= i < j < kept.len() implies rank(
                #[trigger] kept[i],
                t,
            ) < rank(#[trigger] kept[j], t) by {
                assert(kept[i] == wide[i] && kept[j] == wide[j]);
            }
        }
        assert(distances_to(picked@, t));
    } else {
        assert forall|k: int| 0 <= k < grown.len() implies accounted_for(
            wide,
            t,
            limit as nat,
            #[trigger] grown[k],
        ) by {
            let x = grown[k];
            if k == pool.len() {
                assert(wide[p as int] == x);
            } else {
                assert(x == pool[k]);
                assert(accounted_for(before, t, limit as nat, pool[k]));
                assert(before.len() < limit);
                let i0 = choose|i: int| 0 <= i < before.len() && before[i] == x;
                let i = if i0 < p { i0 } else { i0 + 1 };
                assert(wide[i] == x);
            }
        }
        assert(distances_to(picked@, t));
    }
}

} // verus!
