//! Disqualified bids: the share of each entity's submitted bids that were disqualified.
use vstd::prelude::*;
use crate::json::{Json, member, str_member};
use crate::indicators::{array_member, bid_details, get_array, get_object, get_submitted_bids, has_object, submitted};
use crate::r030::{ids_of, ids_of_parties};
use crate::tallies::{has_key, Tallies};

verus! {

/// Whether a bid's status is "disqualified".
pub open spec fn is_disqualified(bid: Json) -> bool {
    str_member(bid, "status"@) == Some("disqualified"@)
}

/// 1 for a disqualified bid, else 0.
pub open spec fn weight(bid: Json) -> nat {
    if is_disqualified(bid) {
        1
    } else {
        0
    }
}

/// The number of disqualified bids among `bids`.
pub open spec fn disqualified_count(bids: Seq<Json>) -> nat
    decreases bids.len(),
{
    if bids.len() == 0 {
        0
    } else {
        disqualified_count(bids.drop_last()) + weight(bids.last())
    }
}

/// What a sequence of (id, weight) observations adds to the tally of `key`: each counts one
/// opportunity.
pub open spec fn obs_total(obs: Seq<(Seq<char>, nat)>, key: Seq<char>) -> (int, int)
    decreases obs.len(),
{
    if obs.len() == 0 {
        (0, 0)
    } else {
        let rest = obs_total(obs.drop_last(), key);
        if obs.last().0 == key {
            (rest.0 + obs.last().1, rest.1 + 1)
        } else {
            rest
        }
    }
}

/// The observations of one bid: each tenderer id, with the bid's weight.
pub open spec fn bid_obs(bid: Json) -> Seq<(Seq<char>, nat)> {
    ids_of(array_member(bid, "tenderers"@)).map_values(|id: Seq<char>| (id, weight(bid)))
}

/// The observations of a sequence of bids, in order.
pub open spec fn bids_obs(bids: Seq<Json>) -> Seq<(Seq<char>, nat)>
    decreases bids.len(),
{
    if bids.len() == 0 {
        Seq::empty()
    } else {
        bids_obs(bids.drop_last()) + bid_obs(bids.last())
    }
}

/// The buyer id of a record, if present.
pub open spec fn buyer_id(release: Json) -> Option<Seq<char>> {
    match member(release, "buyer"@) {
        Some(b) => if has_object(release, "buyer"@) {
            str_member(b, "id"@)
        } else {
            None
        },
        None => None,
    }
}

/// The procuring entity id of a record, if present.
pub open spec fn procuring_entity_id(release: Json) -> Option<Seq<char>> {
    match member(release, "tender"@) {
        Some(t) => if has_object(release, "tender"@) {
            match member(t, "procuringEntity"@) {
                Some(p) => if has_object(t, "procuringEntity"@) {
                    str_member(p, "id"@)
                } else {
                    None
                },
                None => None,
            }
        } else {
            None
        },
        None => None,
    }
}

/// `base` with `d` disqualified out of `n` submitted added, when `id` is `key` and `n > 0`.
pub open spec fn added(base: (int, int), id: Option<Seq<char>>, key: Seq<char>, n: nat, d: nat) -> (int, int) {
    if n > 0 && id == Some(key) {
        (base.0 + d, base.1 + n)
    } else {
        base
    }
}

pub proof fn lemma_obs_total_concat(a: Seq<(Seq<char>, nat)>, b: Seq<(Seq<char>, nat)>, key: Seq<char>)
    ensures
        obs_total(a + b, key) == (obs_total(a, key).0 + obs_total(b, key).0, obs_total(a, key).1 + obs_total(b, key).1),
    decreases b.len(),
{
    if b.len() == 0 {
        assert(a + b =~= a);
    } else {
        lemma_obs_total_concat(a, b.drop_last(), key);
        assert((a + b).drop_last() =~= a + b.drop_last());
    }
}

proof fn lemma_obs_total_nonneg(a: Seq<(Seq<char>, nat)>, key: Seq<char>)
    ensures
        obs_total(a, key).0 >= 0,
        obs_total(a, key).1 >= 0,
    decreases a.len(),
{
    if a.len() > 0 {
        lemma_obs_total_nonneg(a.drop_last(), key);
    }
}

/// The tallies of the disqualified-bids indicator, one per group.
pub struct R038Tallies {
    pub buyer: Tallies,
    pub procuring_entity: Tallies,
    pub tenderer: Tallies,
}

impl R038Tallies {
    pub open spec fn wf(&self) -> bool {
        self.buyer.wf() && self.procuring_entity.wf() && self.tenderer.wf()
    }

    /// Every tally of every group has a denominator above 0 and a numerator no larger.
    pub open spec fn proper(&self) -> bool {
        self.buyer.proper() && self.procuring_entity.proper() && self.tenderer.proper()
    }

    pub fn new() -> (r: R038Tallies)
        ensures
            r.wf(),
            r.proper(),
            forall|k: Seq<char>| #[trigger] r.buyer.of(k) == (0int, 0int) && r.procuring_entity.of(k) == (0int, 0int)
                && r.tenderer.of(k) == (0int, 0int),
    {
        R038Tallies { buyer: Tallies::new(), procuring_entity: Tallies::new(), tenderer: Tallies::new() }
    }
}

/// Flags entities whose share of disqualified bids is an outlier.
pub struct R038 {
    pub minimum_submitted_bids: usize,
}

impl R038 {
    /// The configured rule; an entity needs 1 submitted bid unless another minimum is given.
    pub fn new(minimum_submitted_bids: Option<usize>) -> (r: R038)
        ensures
            r.minimum_submitted_bids == (match minimum_submitted_bids {
                Some(m) => m,
                None => 1,
            }),
    {
        match minimum_submitted_bids {
            Some(m) => R038 { minimum_submitted_bids: m },
            None => R038 { minimum_submitted_bids: 1 },
        }
    }

    /// Adds one record: for the buyer and the procuring entity, its disqualified bids out of its
    /// submitted bids; for each tenderer of a submitted bid, 1 or 0 out of 1. A record without
    /// submitted bids adds nothing.
    pub fn fold(&self, item: &mut R038Tallies, release: &Json)
        requires
            old(item).wf(),
            forall|k: Seq<char>| (#[trigger] old(item).buyer.of(k)).0 + submitted(bid_details(*release)).len() <= usize::MAX
                && old(item).buyer.of(k).1 + submitted(bid_details(*release)).len() <= usize::MAX,
            forall|k: Seq<char>| (#[trigger] old(item).procuring_entity.of(k)).0 + submitted(bid_details(*release)).len() <= usize::MAX
                && old(item).procuring_entity.of(k).1 + submitted(bid_details(*release)).len() <= usize::MAX,
            forall|k: Seq<char>| (#[trigger] old(item).tenderer.of(k)).0 + obs_total(bids_obs(submitted(bid_details(*release))), k).1 <= usize::MAX
                && old(item).tenderer.of(k).1 + obs_total(bids_obs(submitted(bid_details(*release))), k).1 <= usize::MAX,
        ensures
            final(item).wf(),
            forall|k: Seq<char>| #[trigger] final(item).buyer.of(k) == (old(item).buyer.of(k).0 + record_tallies(*release, k).0.0,
                old(item).buyer.of(k).1 + record_tallies(*release, k).0.1),
            forall|k: Seq<char>| #[trigger] final(item).procuring_entity.of(k) == (old(item).procuring_entity.of(k).0
                + record_tallies(*release, k).1.0, old(item).procuring_entity.of(k).1 + record_tallies(*release, k).1.1),
            forall|k: Seq<char>| #[trigger] final(item).tenderer.of(k) == (old(item).tenderer.of(k).0 + record_tallies(*release, k).2.0,
                old(item).tenderer.of(k).1 + record_tallies(*release, k).2.1),
            forall|k: Seq<char>| #[trigger] has_key(final(item).buyer.entries@, k) <==> (has_key(old(item).buyer.entries@, k)
                || record_tallies(*release, k).0.1 > 0),
            forall|k: Seq<char>| #[trigger] has_key(final(item).procuring_entity.entries@, k) <==> (has_key(
                old(item).procuring_entity.entries@, k) || record_tallies(*release, k).1.1 > 0),
            forall|k: Seq<char>| #[trigger] has_key(final(item).tenderer.entries@, k) <==> (has_key(old(item).tenderer.entries@, k)
                || record_tallies(*release, k).2.1 > 0),
            submitted(bid_details(*release)).len() == 0 ==> *final(item) == *old(item),
            old(item).proper() ==> final(item).proper(),
    {
        let ghost subs = submitted(bid_details(*release));
        let ghost start = *item;
        let bids = get_submitted_bids(release);
        let n = bids.len();
        if n == 0 {
            assert(bids_obs(subs) =~= Seq::<(Seq<char>, nat)>::empty());
            return;
        }
        let mut disqualified: usize = 0;
        let mut i: usize = 0;
        assert(subs.take(0) =~= Seq::<Json>::empty());
        while i < n
            invariant
                0 <= i <= n == bids@.len() == subs.len(),
                forall|a: int| 0 <= a < bids@.len() ==> *bids@[a] == subs[a],
                item.wf(),
                item.buyer == start.buyer,
                item.procuring_entity == start.procuring_entity,
                disqualified == disqualified_count(subs.take(i as int)),
                disqualified <= i,
                forall|k: Seq<char>| (#[trigger] start.tenderer.of(k)).1 + obs_total(bids_obs(subs), k).1 <= usize::MAX
                    && start.tenderer.of(k).0 + obs_total(bids_obs(subs), k).1 <= usize::MAX,
                forall|k: Seq<char>| #[trigger] item.tenderer.of(k) == (start.tenderer.of(k).0 + obs_total(bids_obs(subs.take(i as int)), k).0,
                    start.tenderer.of(k).1 + obs_total(bids_obs(subs.take(i as int)), k).1),
                forall|k: Seq<char>| #[trigger] has_key(item.tenderer.entries@, k) <==> (has_key(start.tenderer.entries@, k)
                    || obs_total(bids_obs(subs.take(i as int)), k).1 > 0),
                start.proper() ==> item.tenderer.proper(),
            decreases n - i,
        {
            let bid: &Json = bids[i];
            assert(subs.take(i + 1).drop_last() =~= subs.take(i as int));
            assert(subs.take(i + 1).last() == *bid);
            proof {
                reveal_strlit("disqualified");
            }
            let w: usize = match bid.get_str("status") {
                Some(s) => if *s == String::from_str("disqualified") {
                    1
                } else {
                    0
                },
                None => 0,
            };
            assert(w == weight(*bid));
            disqualified = disqualified + w;
            let ghost base = item.tenderer;
            let ghost done = bids_obs(subs.take(i as int));
            let ghost mine = bid_obs(*bid);
            proof {
                assert forall|k: Seq<char>| #[trigger] obs_total(done, k).1 + obs_total(mine, k).1 <= obs_total(bids_obs(subs), k).1 by {
                    lemma_obs_total_concat(done, mine, k);
                    lemma_obs_total_concat(bids_obs(subs.take(i + 1)), bids_obs(subs.subrange(i + 1, subs.len() as int)), k);
                    lemma_bids_obs_split(subs, i + 1);
                    lemma_obs_total_nonneg(bids_obs(subs.subrange(i + 1, subs.len() as int)), k);
                }
            }
            let ids: Vec<String> = match get_array(bid, "tenderers") {
                Some(tenderers) => ids_of_parties(tenderers),
                None => Vec::new(),
            };
            assert(ids@.len() == mine.len());
            assert(mine.take(0) =~= Seq::<(Seq<char>, nat)>::empty());
            let mut j: usize = 0;
            while j < ids.len()
                invariant
                    0 <= j <= ids@.len() == mine.len(),
                    forall|a: int| 0 <= a < ids@.len() ==> #[trigger] mine[a] == (ids@[a]@, w as nat),
                    item.tenderer.wf(),
                    item.buyer == start.buyer,
                    item.procuring_entity == start.procuring_entity,
                    done == bids_obs(subs.take(i as int)),
                    forall|k: Seq<char>| (#[trigger] start.tenderer.of(k)).1 + obs_total(bids_obs(subs), k).1 <= usize::MAX
                        && start.tenderer.of(k).0 + obs_total(bids_obs(subs), k).1 <= usize::MAX,
                    forall|k: Seq<char>| #[trigger] obs_total(done, k).1 + obs_total(mine, k).1 <= obs_total(bids_obs(subs), k).1,
                    forall|k: Seq<char>| #[trigger] base.of(k) == (start.tenderer.of(k).0 + obs_total(done, k).0,
                        start.tenderer.of(k).1 + obs_total(done, k).1),
                    forall|k: Seq<char>| #[trigger] item.tenderer.of(k) == (base.of(k).0 + obs_total(mine.take(j as int), k).0,
                        base.of(k).1 + obs_total(mine.take(j as int), k).1),
                    forall|k: Seq<char>| #[trigger] has_key(base.entries@, k) <==> (has_key(start.tenderer.entries@, k)
                        || obs_total(done, k).1 > 0),
                    forall|k: Seq<char>| #[trigger] has_key(item.tenderer.entries@, k) <==> (has_key(base.entries@, k)
                        || obs_total(mine.take(j as int), k).1 > 0),
                    start.proper() ==> item.tenderer.proper(),
                    w <= 1,
                decreases ids@.len() - j,
            {
                assert(mine.take(j + 1).drop_last() =~= mine.take(j as int));
                assert(mine.take(j + 1).last() == mine[j as int]);
                proof {
                    let k = ids@[j as int]@;
                    lemma_obs_total_concat(mine.take(j + 1), mine.subrange(j + 1, mine.len() as int), k);
                    assert(mine.take(j + 1) + mine.subrange(j + 1, mine.len() as int) =~= mine);
                    lemma_obs_total_nonneg(mine.subrange(j + 1, mine.len() as int), k);
                    lemma_obs_total_nonneg(done, k);
                    lemma_obs_total_nonneg(mine.take(j as int), k);
                    assert forall|a: int| 0 <= a < mine.take(j as int).len() implies #[trigger] mine.take(j as int)[a].1 <= 1 by {
                        assert(mine.take(j as int)[a] == mine[a]);
                    }
                    lemma_obs_weight_bound(mine.take(j as int), k);
                    lemma_bids_obs_bound(subs.take(i as int), k);
                    assert(mine[j as int].0 == k);
                    assert(obs_total(mine.take(j + 1), k).1 == obs_total(mine.take(j as int), k).1 + 1);
                    assert(obs_total(done, k).1 + obs_total(mine, k).1 <= obs_total(bids_obs(subs), k).1);
                    assert(start.tenderer.of(k).0 + obs_total(bids_obs(subs), k).1 <= usize::MAX);
                    assert(base.of(k).0 == start.tenderer.of(k).0 + obs_total(done, k).0);
                    assert(item.tenderer.of(k).0 == base.of(k).0 + obs_total(mine.take(j as int), k).0);
                    assert(obs_total(mine.take(j + 1), k).1 <= obs_total(mine, k).1);
                    assert(obs_total(done, k).0 <= obs_total(done, k).1);
                    assert(item.tenderer.of(k).0 + w <= usize::MAX);
                    assert(item.tenderer.of(ids@[j as int]@).0 + w <= usize::MAX);
                }
                item.tenderer.add(&ids[j], w, 1);
                proof {
                    assert forall|kk: Seq<char>| #[trigger] has_key(item.tenderer.entries@, kk) <==> (has_key(base.entries@, kk)
                        || obs_total(mine.take(j + 1), kk).1 > 0) by {
                        lemma_obs_total_nonneg(mine.take(j as int), kk);
                    }
                }
                j = j + 1;
            }
            proof {
                assert(mine.take(mine.len() as int) =~= mine);
                assert(bids_obs(subs.take(i + 1)) == done + mine);
                assert forall|k: Seq<char>| #[trigger] item.tenderer.of(k) == (start.tenderer.of(k).0 + obs_total(bids_obs(subs.take(i + 1)), k).0,
                    start.tenderer.of(k).1 + obs_total(bids_obs(subs.take(i + 1)), k).1) by {
                    lemma_obs_total_concat(done, mine, k);
                }
                assert forall|k: Seq<char>| #[trigger] has_key(item.tenderer.entries@, k) <==> (has_key(start.tenderer.entries@, k)
                    || obs_total(bids_obs(subs.take(i + 1)), k).1 > 0) by {
                    lemma_obs_total_concat(done, mine, k);
                    lemma_obs_total_nonneg(done, k);
                    lemma_obs_total_nonneg(mine, k);
                }
            }
            i = i + 1;
        }
        assert(subs.take(n as int) =~= subs);
        match get_object(release, "buyer") {
            Some(buyer) => match buyer.get_str("id") {
                Some(id) => item.buyer.add(id, disqualified, n),
                None => {},
            },
            None => {},
        }
        match get_object(release, "tender") {
            Some(tender) => match get_object(tender, "procuringEntity") {
                Some(pe) => match pe.get_str("id") {
                    Some(id) => item.procuring_entity.add(id, disqualified, n),
                    None => {},
                },
                None => {},
            },
            None => {},
        }
    }

    /// Merges the tallies of `other`, built from disjoint records, into `item`.
    pub fn reduce(&self, item: &mut R038Tallies, other: &R038Tallies)
        requires
            old(item).wf(),
            other.wf(),
            forall|k: Seq<char>| (#[trigger] old(item).buyer.of(k)).0 + other.buyer.of(k).0 <= usize::MAX
                && old(item).buyer.of(k).1 + other.buyer.of(k).1 <= usize::MAX,
            forall|k: Seq<char>| (#[trigger] old(item).procuring_entity.of(k)).0 + other.procuring_entity.of(k).0 <= usize::MAX
                && old(item).procuring_entity.of(k).1 + other.procuring_entity.of(k).1 <= usize::MAX,
            forall|k: Seq<char>| (#[trigger] old(item).tenderer.of(k)).0 + other.tenderer.of(k).0 <= usize::MAX
                && old(item).tenderer.of(k).1 + other.tenderer.of(k).1 <= usize::MAX,
        ensures
            final(item).wf(),
            forall|k: Seq<char>| #[trigger] final(item).buyer.of(k) == (old(item).buyer.of(k).0 + other.buyer.of(k).0,
                old(item).buyer.of(k).1 + other.buyer.of(k).1),
            forall|k: Seq<char>| #[trigger] final(item).procuring_entity.of(k) == (old(item).procuring_entity.of(k).0
                + other.procuring_entity.of(k).0, old(item).procuring_entity.of(k).1 + other.procuring_entity.of(k).1),
            forall|k: Seq<char>| #[trigger] final(item).tenderer.of(k) == (old(item).tenderer.of(k).0 + other.tenderer.of(k).0,
                old(item).tenderer.of(k).1 + other.tenderer.of(k).1),
            forall|k: Seq<char>| #[trigger] has_key(final(item).buyer.entries@, k) <==> (has_key(old(item).buyer.entries@, k)
                || has_key(other.buyer.entries@, k)),
            forall|k: Seq<char>| #[trigger] has_key(final(item).procuring_entity.entries@, k) <==> (has_key(
                old(item).procuring_entity.entries@, k) || has_key(other.procuring_entity.entries@, k)),
            forall|k: Seq<char>| #[trigger] has_key(final(item).tenderer.entries@, k) <==> (has_key(old(item).tenderer.entries@, k)
                || has_key(other.tenderer.entries@, k)),
            old(item).proper() && other.proper() ==> final(item).proper(),
    {
        let ghost start = *item;
        item.buyer.merge(&other.buyer);
        assert(item.procuring_entity == start.procuring_entity);
        assert forall|k: Seq<char>| (#[trigger] item.procuring_entity.of(k)).0 + other.procuring_entity.of(k).0 <= usize::MAX
            && item.procuring_entity.of(k).1 + other.procuring_entity.of(k).1 <= usize::MAX by {
            assert(start.procuring_entity.of(k) == item.procuring_entity.of(k));
        }
        item.procuring_entity.merge(&other.procuring_entity);
        assert forall|k: Seq<char>| (#[trigger] item.tenderer.of(k)).0 + other.tenderer.of(k).0 <= usize::MAX
            && item.tenderer.of(k).1 + other.tenderer.of(k).1 <= usize::MAX by {
            assert(start.tenderer.of(k) == item.tenderer.of(k));
        }
        item.tenderer.merge(&other.tenderer);
    }
}

proof fn lemma_obs_weight_bound(a: Seq<(Seq<char>, nat)>, key: Seq<char>)
    requires
        forall|i: int| 0 <= i < a.len() ==> #[trigger] a[i].1 <= 1,
    ensures
        obs_total(a, key).0 <= obs_total(a, key).1,
    decreases a.len(),
{
    if a.len() > 0 {
        lemma_obs_weight_bound(a.drop_last(), key);
    }
}

proof fn lemma_bids_obs_weights(bids: Seq<Json>)
    ensures
        forall|i: int| 0 <= i < bids_obs(bids).len() ==> #[trigger] bids_obs(bids)[i].1 <= 1,
    decreases bids.len(),
{
    if bids.len() > 0 {
        lemma_bids_obs_weights(bids.drop_last());
        let a = bids_obs(bids.drop_last());
        let b = bid_obs(bids.last());
        assert forall|i: int| 0 <= i < bids_obs(bids).len() implies #[trigger] bids_obs(bids)[i].1 <= 1 by {
            if i >= a.len() {
                assert(bids_obs(bids)[i] == b[i - a.len()]);
            } else {
                assert(bids_obs(bids)[i] == a[i]);
            }
        }
    }
}

proof fn lemma_bids_obs_bound(bids: Seq<Json>, k: Seq<char>)
    ensures
        obs_total(bids_obs(bids), k).0 <= obs_total(bids_obs(bids), k).1,
{
    lemma_bids_obs_weights(bids);
    let a = bids_obs(bids);
    assert forall|i: int| 0 <= i < a.len() implies #[trigger] a[i].1 <= 1 by {
        assert(bids_obs(bids)[i].1 <= 1);
    }
    lemma_obs_weight_bound(a, k);
}

proof fn lemma_bids_obs_split(bids: Seq<Json>, i: int)
    requires
        0 <= i <= bids.len(),
    ensures
        bids_obs(bids) == bids_obs(bids.take(i)) + bids_obs(bids.subrange(i, bids.len() as int)),
    decreases bids.len() - i,
{
    if i == bids.len() {
        assert(bids.take(i) =~= bids);
        assert(bids_obs(bids.subrange(i, bids.len() as int)) =~= Seq::<(Seq<char>, nat)>::empty());
        assert(bids_obs(bids) =~= bids_obs(bids.take(i)) + bids_obs(bids.subrange(i, bids.len() as int)));
    } else {
        lemma_bids_obs_split(bids.drop_last(), i);
        assert(bids.drop_last().take(i) =~= bids.take(i));
        let rest = bids.subrange(i, bids.len() as int);
        assert(rest.drop_last() =~= bids.drop_last().subrange(i, bids.len() - 1));
        assert(rest.last() == bids.last());
        assert(bids_obs(bids) =~= bids_obs(bids.take(i)) + bids_obs(rest));
    }
}

/// What one record adds to the tallies of `key`, per group: (buyer, procuring entity, tenderer).
pub open spec fn record_tallies(release: Json, key: Seq<char>) -> ((int, int), (int, int), (int, int)) {
    let subs = submitted(bid_details(release));
    (
        added((0, 0), buyer_id(release), key, subs.len(), disqualified_count(subs)),
        added((0, 0), procuring_entity_id(release), key, subs.len(), disqualified_count(subs)),
        obs_total(bids_obs(subs), key),
    )
}

/// Component-wise sum of two group triples.
pub open spec fn sum3(a: ((int, int), (int, int), (int, int)), b: ((int, int), (int, int), (int, int))) -> ((int, int), (int, int), (int, int)) {
    (
        (a.0.0 + b.0.0, a.0.1 + b.0.1),
        (a.1.0 + b.1.0, a.1.1 + b.1.1),
        (a.2.0 + b.2.0, a.2.1 + b.2.1),
    )
}

/// What a sequence of records adds to the tallies of `key`, per group.
pub open spec fn records_tallies(rs: Seq<Json>, key: Seq<char>) -> ((int, int), (int, int), (int, int))
    decreases rs.len(),
{
    if rs.len() == 0 {
        ((0, 0), (0, 0), (0, 0))
    } else {
        sum3(records_tallies(rs.drop_last(), key), record_tallies(rs.last(), key))
    }
}

/// Partition invariance of the tallies: folding two parts of the records separately and
/// merging the results (which `reduce` does by summing per key) gives the tallies of folding
/// them all; the order of the parts does not matter.
pub proof fn lemma_tallies_partition(a: Seq<Json>, b: Seq<Json>, key: Seq<char>)
    ensures
        records_tallies(a + b, key) == sum3(records_tallies(a, key), records_tallies(b, key)),
        records_tallies(b + a, key) == records_tallies(a + b, key),
{
    lemma_tallies_concat(a, b, key);
    lemma_tallies_concat(b, a, key);
}

proof fn lemma_tallies_concat(a: Seq<Json>, b: Seq<Json>, key: Seq<char>)
    ensures
        records_tallies(a + b, key) == sum3(records_tallies(a, key), records_tallies(b, key)),
    decreases b.len(),
{
    if b.len() == 0 {
        assert(a + b =~= a);
    } else {
        lemma_tallies_concat(a, b.drop_last(), key);
        assert((a + b).drop_last() =~= a + b.drop_last());
    }
}

/// Folding one more record adds exactly that record's tallies: what `fold` ensures per call,
/// summed over a sequence of records.
pub proof fn lemma_fold_step(rs: Seq<Json>, r: Json, key: Seq<char>)
    ensures
        records_tallies(rs.push(r), key) == sum3(records_tallies(rs, key), record_tallies(r, key)),
{
    assert(rs.push(r).drop_last() =~= rs);
}

/// Merging per-key tallies, as `reduce` does, is commutative and associative.
pub proof fn lemma_sum3_order(
    a: ((int, int), (int, int), (int, int)),
    b: ((int, int), (int, int), (int, int)),
    c: ((int, int), (int, int), (int, int)),
)
    ensures
        sum3(a, b) == sum3(b, a),
        sum3(sum3(a, b), c) == sum3(a, sum3(b, c)),
{
}

/// The tallies of a sequence of records depend only on which records it holds, not on their
/// order.
pub proof fn lemma_tallies_permutation(a: Seq<Json>, b: Seq<Json>, key: Seq<char>)
    requires
        a.to_multiset() == b.to_multiset(),
    ensures
        records_tallies(a, key) == records_tallies(b, key),
    decreases a.len(),
{
    broadcast use vstd::seq_lib::group_to_multiset_ensures;

    assert(a.len() == a.to_multiset().len());
    assert(b.len() == b.to_multiset().len());
    if a.len() == 0 {
        assert(b =~= a);
    } else {
        let x = a.last();
        let rest = a.drop_last();
        assert(rest.push(x) =~= a);
        assert(a.to_multiset() =~= rest.to_multiset().insert(x));
        assert(a.contains(x)) by {
            assert(a[a.len() - 1] == x);
        }
        assert(a.to_multiset().count(x) > 0);
        assert(b.contains(x));
        let j = choose|j: int| 0 <= j < b.len() && b[j] == x;
        let rb = b.remove(j);
        assert(rb.to_multiset() =~= b.to_multiset().remove(x));
        assert(rest.to_multiset() =~= a.to_multiset().remove(x));
        lemma_tallies_permutation(rest, rb, key);
        let left = b.take(j);
        let right = b.skip(j + 1);
        assert(rb =~= left + right);
        assert(b =~= left + seq![x] + right);
        lemma_tallies_concat(left, right, key);
        lemma_tallies_concat(left, seq![x], key);
        lemma_tallies_concat(left + seq![x], right, key);
        assert(seq![x].drop_last() =~= Seq::<Json>::empty());
        assert(seq![x].last() == x);
        assert(records_tallies(seq![x], key) == sum3(records_tallies(Seq::<Json>::empty(), key), record_tallies(x, key)));
        assert(records_tallies(a, key) == sum3(records_tallies(rest, key), record_tallies(x, key)));
    }
}

} // verus!
