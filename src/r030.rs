//! Late bid won: a valid bid submitted after the tender period ended, by a winning supplier.
use vstd::prelude::*;
use crate::json::{Json, member, str_member};
use crate::indicators::{array_member, get_array, get_object, has_array, has_object};

verus! {

/// Whether `a` comes after `b` in the order of their characters, from position `i` on.
pub open spec fn greater_from(a: Seq<char>, b: Seq<char>, i: int) -> bool
    decreases a.len() - i,
{
    if i < 0 || i >= b.len() {
        i >= 0 && a.len() > i
    } else if i >= a.len() {
        false
    } else if a[i] != b[i] {
        (a[i] as u32) > (b[i] as u32)
    } else {
        greater_from(a, b, i + 1)
    }
}

/// `a > b` as strings: UTF-8 byte order, which is the order of their characters.
pub open spec fn str_greater(a: Seq<char>, b: Seq<char>) -> bool {
    greater_from(a, b, 0)
}

/// The string ids of `parties`, in order.
pub open spec fn ids_of(parties: Seq<Json>) -> Seq<Seq<char>>
    decreases parties.len(),
{
    if parties.len() == 0 {
        Seq::empty()
    } else {
        match str_member(parties.last(), "id"@) {
            Some(id) => ids_of(parties.drop_last()).push(id),
            None => ids_of(parties.drop_last()),
        }
    }
}

/// The supplier ids of an active award with a suppliers array; none for any other.
pub open spec fn award_supplier_ids(award: Json) -> Seq<Seq<char>> {
    if str_member(award, "status"@) == Some("active"@) && has_array(award, "suppliers"@) {
        ids_of(array_member(award, "suppliers"@))
    } else {
        Seq::empty()
    }
}

/// The supplier ids of all active awards.
pub open spec fn awarded_ids(awards: Seq<Json>) -> Seq<Seq<char>>
    decreases awards.len(),
{
    if awards.len() == 0 {
        Seq::empty()
    } else {
        awarded_ids(awards.drop_last()) + award_supplier_ids(awards.last())
    }
}

/// Whether a bid is valid, dated after `end`, and has a tenderer among `winners`.
pub open spec fn late_winning_bid(bid: Json, end: Seq<char>, winners: Seq<Seq<char>>) -> bool {
    &&& str_member(bid, "status"@) == Some("valid"@)
    &&& has_array(bid, "tenderers"@)
    &&& str_member(bid, "date"@) matches Some(date)
    &&& str_greater(date, end)
    &&& exists|t: int| 0 <= t < ids_of(array_member(bid, "tenderers"@)).len()
        && winners.contains(#[trigger] ids_of(array_member(bid, "tenderers"@))[t])
}

/// Flags a process in which a valid bid received after the tender period's end came from a
/// supplier of an active award.
pub struct R030 {}

impl R030 {
    pub fn new() -> (r: R030) {
        R030 {}
    }

    /// Whether a record is flagged.
    pub open spec fn flags(&self, release: Json) -> bool {
        match (member(release, "tender"@), member(release, "bids"@)) {
            (Some(tender), Some(bids)) => {
                &&& has_object(release, "tender"@)
                &&& has_object(tender, "tenderPeriod"@)
                &&& has_array(release, "awards"@)
                &&& has_object(release, "bids"@)
                &&& has_array(bids, "details"@)
                &&& match member(tender, "tenderPeriod"@) {
                    Some(period) => match str_member(period, "endDate"@) {
                        Some(end) => exists|b: int| 0 <= b < array_member(bids, "details"@).len()
                            && late_winning_bid(#[trigger] array_member(bids, "details"@)[b], end,
                            awarded_ids(array_member(release, "awards"@))),
                        None => false,
                    },
                    None => false,
                }
            },
            _ => false,
        }
    }

    /// Whether the record is flagged by this rule, with score 1.
    pub fn fold(&self, release: &Json) -> (r: bool)
        ensures
            r == self.flags(*release),
    {
        let tender = match get_object(release, "tender") {
            Some(t) => t,
            None => return false,
        };
        let period = match get_object(tender, "tenderPeriod") {
            Some(p) => p,
            None => return false,
        };
        let end = match period.get_str("endDate") {
            Some(e) => e,
            None => return false,
        };
        let awards = match get_array(release, "awards") {
            Some(a) => a,
            None => return false,
        };
        let bids = match get_object(release, "bids") {
            Some(b) => b,
            None => return false,
        };
        let details = match get_array(bids, "details") {
            Some(d) => d,
            None => return false,
        };
        let winners = award_supplier_ids_of(awards);
        assert(array_member(*bids, "details"@) == details@);
        assert(array_member(*release, "awards"@) == awards@);
        assert(self.flags(*release) == exists|x: int| 0 <= x < details@.len()
            && late_winning_bid(#[trigger] details@[x], end@, awarded_ids(awards@)));
        let mut b: usize = 0;
        while b < details.len()
            invariant
                0 <= b <= details@.len(),
                self.flags(*release) == exists|x: int| 0 <= x < details@.len()
                    && late_winning_bid(#[trigger] details@[x], end@, awarded_ids(awards@)),
                winners@.len() == awarded_ids(awards@).len(),
                forall|k: int| 0 <= k < winners@.len() ==> #[trigger] winners@[k]@ == awarded_ids(awards@)[k],
                forall|x: int| 0 <= x < b ==> !late_winning_bid(#[trigger] details@[x], end@, awarded_ids(awards@)),
            decreases details@.len() - b,
        {
            if is_late_winning_bid(&details[b], end, &winners, Ghost(awarded_ids(awards@))) {
                return true;
            }
            b = b + 1;
        }
        false
    }
}

/// Whether `a > b` as strings.
pub fn later(a: &str, b: &str) -> (r: bool)
    ensures
        r == str_greater(a@, b@),
{
    let na = a.unicode_len();
    let nb = b.unicode_len();
    let mut i: usize = 0;
    while i < na && i < nb
        invariant
            na == a@.len(),
            nb == b@.len(),
            0 <= i <= na,
            i <= nb,
            greater_from(a@, b@, 0) == greater_from(a@, b@, i as int),
        decreases na - i,
    {
        let x = a.get_char(i);
        let y = b.get_char(i);
        if x != y {
            return (x as u32) > (y as u32);
        }
        i = i + 1;
    }
    i < na
}

/// The string ids of `parties`.
pub(crate) fn ids_of_parties(parties: &Vec<Json>) -> (r: Vec<String>)
    ensures
        r@.len() == ids_of(parties@).len(),
        forall|k: int| 0 <= k < r@.len() ==> #[trigger] r@[k]@ == ids_of(parties@)[k],
{
    let mut out: Vec<String> = Vec::new();
    let mut i: usize = 0;
    while i < parties.len()
        invariant
            0 <= i <= parties@.len(),
            out@.len() == ids_of(parties@.take(i as int)).len(),
            forall|k: int| 0 <= k < out@.len() ==> #[trigger] out@[k]@ == ids_of(parties@.take(i as int))[k],
        decreases parties@.len() - i,
    {
        assert(parties@.take(i + 1).drop_last() =~= parties@.take(i as int));
        assert(parties@.take(i + 1).last() == parties@[i as int]);
        match parties[i].get_str("id") {
            Some(id) => {
                out.push(id.clone());
            },
            None => {},
        }
        i = i + 1;
    }
    assert(parties@.take(parties@.len() as int) =~= parties@);
    out
}

/// The supplier ids of all active awards.
fn award_supplier_ids_of(awards: &Vec<Json>) -> (r: Vec<String>)
    ensures
        r@.len() == awarded_ids(awards@).len(),
        forall|k: int| 0 <= k < r@.len() ==> #[trigger] r@[k]@ == awarded_ids(awards@)[k],
{
    let mut out: Vec<String> = Vec::new();
    let mut i: usize = 0;
    while i < awards.len()
        invariant
            0 <= i <= awards@.len(),
            out@.len() == awarded_ids(awards@.take(i as int)).len(),
            forall|k: int| 0 <= k < out@.len() ==> #[trigger] out@[k]@ == awarded_ids(awards@.take(i as int))[k],
        decreases awards@.len() - i,
    {
        assert(awards@.take(i + 1).drop_last() =~= awards@.take(i as int));
        assert(awards@.take(i + 1).last() == awards@[i as int]);
        let award = &awards[i];
        let ghost prefix = awarded_ids(awards@.take(i as int));
        let ghost mine = award_supplier_ids(*award);
        let active = match award.get_str("status") {
            Some(s) => {
                proof {
                    reveal_strlit("active");
                }
                *s == String::from_str("active")
            },
            None => false,
        };
        let mut ids: Vec<String> = Vec::new();
        if active {
            match get_array(award, "suppliers") {
                Some(suppliers) => {
                    ids = ids_of_parties(suppliers);
                },
                None => {},
            }
        }
        assert(ids@.len() == mine.len());
        let ghost before = out@;
        let mut j: usize = 0;
        while j < ids.len()
            invariant
                0 <= j <= ids@.len(),
                ids@.len() == mine.len(),
                forall|k: int| 0 <= k < ids@.len() ==> #[trigger] ids@[k]@ == mine[k],
                before.len() == prefix.len(),
                forall|k: int| 0 <= k < before.len() ==> #[trigger] before[k]@ == prefix[k],
                out@.len() == before.len() + j,
                forall|k: int| 0 <= k < out@.len() ==> #[trigger] out@[k]@ == (prefix + mine)[k],
            decreases ids@.len() - j,
        {
            out.push(ids[j].clone());
            j = j + 1;
        }
        i = i + 1;
    }
    assert(awards@.take(awards@.len() as int) =~= awards@);
    out
}

/// Whether `id` is one of `names`.
fn contains_id(names: &Vec<String>, id: &String) -> (r: bool)
    ensures
        r == exists|k: int| 0 <= k < names@.len() && #[trigger] names@[k]@ == id@,
{
    let mut i: usize = 0;
    while i < names.len()
        invariant
            0 <= i <= names@.len(),
            forall|k: int| 0 <= k < i ==> #[trigger] names@[k]@ != id@,
        decreases names@.len() - i,
    {
        if names[i] == *id {
            return true;
        }
        i = i + 1;
    }
    false
}

fn is_late_winning_bid(bid: &Json, end: &String, winners: &Vec<String>, Ghost(spec_winners): Ghost<Seq<Seq<char>>>) -> (r: bool)
    requires
        winners@.len() == spec_winners.len(),
        forall|k: int| 0 <= k < winners@.len() ==> #[trigger] winners@[k]@ == spec_winners[k],
    ensures
        r == late_winning_bid(*bid, end@, spec_winners),
{
    proof {
        reveal_strlit("valid");
    }
    let valid = match bid.get_str("status") {
        Some(s) => *s == String::from_str("valid"),
        None => false,
    };
    if !valid {
        return false;
    }
    let date = match bid.get_str("date") {
        Some(d) => d,
        None => return false,
    };
    let tenderers = match get_array(bid, "tenderers") {
        Some(t) => t,
        None => return false,
    };
    if !later(date.as_str(), end.as_str()) {
        return false;
    }
    let ids = ids_of_parties(tenderers);
    let ghost spec_ids = ids_of(array_member(*bid, "tenderers"@));
    assert(tenderers@ == array_member(*bid, "tenderers"@));
    assert(late_winning_bid(*bid, end@, spec_winners) == exists|x: int| 0 <= x < spec_ids.len()
        && spec_winners.contains(#[trigger] spec_ids[x]));
    let mut t: usize = 0;
    while t < ids.len()
        invariant
            late_winning_bid(*bid, end@, spec_winners) == exists|x: int| 0 <= x < spec_ids.len()
                && spec_winners.contains(#[trigger] spec_ids[x]),
            0 <= t <= ids@.len(),
            ids@.len() == spec_ids.len(),
            forall|k: int| 0 <= k < ids@.len() ==> #[trigger] ids@[k]@ == spec_ids[k],
            winners@.len() == spec_winners.len(),
            forall|k: int| 0 <= k < winners@.len() ==> #[trigger] winners@[k]@ == spec_winners[k],
            forall|x: int| 0 <= x < t ==> !spec_winners.contains(#[trigger] spec_ids[x]),
        decreases ids@.len() - t,
    {
        let found = contains_id(winners, &ids[t]);
        proof {
            if spec_winners.contains(spec_ids[t as int]) {
                let k = choose|k: int| 0 <= k < spec_winners.len() && spec_winners[k] == spec_ids[t as int];
                assert(winners@[k]@ == ids@[t as int]@);
            }
        }
        if found {
            proof {
                let k = choose|k: int| 0 <= k < winners@.len() && #[trigger] winners@[k]@ == ids@[t as int]@;
                assert(spec_winners[k] == spec_ids[t as int]);
                assert(spec_winners.contains(spec_ids[t as int]));
            }
            return true;
        }
        t = t + 1;
    }
    false
}

} // verus!
