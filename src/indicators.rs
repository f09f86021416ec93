//! Shared vocabulary of the indicators: groups, indicator ids, and record accessors.
use vstd::prelude::*;
use crate::json::{Json, member, str_member};

verus! {

/// The entity role under which a result is keyed.
#[derive(Clone, Copy, Debug, PartialEq, Eq, Structural, Hash, PartialOrd, Ord)]
pub enum Group {
    OCID,
    Buyer,
    ProcuringEntity,
    Tenderer,
}

/// The indicators of this library.
#[derive(Clone, Copy, Debug, PartialEq, Eq, Structural, Hash, PartialOrd, Ord)]
pub enum Indicator {
    R003,
    R030,
    R038,
}

/// The array member `key` of `j`, or nothing.
pub open spec fn array_member(j: Json, key: Seq<char>) -> Seq<Json> {
    match member(j, key) {
        Some(Json::Array(items)) => items@,
        _ => Seq::empty(),
    }
}

/// Whether `j` has an object member `key`.
pub open spec fn has_object(j: Json, key: Seq<char>) -> bool {
    member(j, key) matches Some(Json::Object(_))
}

/// Whether `j` has an array member `key`.
pub open spec fn has_array(j: Json, key: Seq<char>) -> bool {
    member(j, key) matches Some(Json::Array(_))
}

/// The bids of a record: `bids.details`, when both are present with the right kinds.
pub open spec fn bid_details(release: Json) -> Seq<Json> {
    match member(release, "bids"@) {
        Some(bids) => if has_object(release, "bids"@) {
            array_member(bids, "details"@)
        } else {
            Seq::empty()
        },
        None => Seq::empty(),
    }
}

/// Whether a bid was submitted: its status is a string other than "invited" and "withdrawn".
pub open spec fn is_submitted(bid: Json) -> bool {
    str_member(bid, "status"@) matches Some(s) && s != "invited"@ && s != "withdrawn"@
}

/// The submitted bids among `bids`, in order.
pub open spec fn submitted(bids: Seq<Json>) -> Seq<Json>
    decreases bids.len(),
{
    if bids.len() == 0 {
        Seq::empty()
    } else if is_submitted(bids.last()) {
        submitted(bids.drop_last()).push(bids.last())
    } else {
        submitted(bids.drop_last())
    }
}

/// The array member `key` of `j`, if there is one.
pub fn get_array<'a>(j: &'a Json, key: &str) -> (r: Option<&'a Vec<Json>>)
    ensures
        r is Some <==> member(*j, key@) matches Some(Json::Array(_)),
        r is Some ==> member(*j, key@) == Some(Json::Array(*r->0)),
{
    match j.get(key) {
        Some(Json::Array(items)) => Some(items),
        _ => None,
    }
}

/// The object member `key` of `j`, if there is one.
pub fn get_object<'a>(j: &'a Json, key: &str) -> (r: Option<&'a Json>)
    ensures
        r is Some <==> has_object(*j, key@),
        r is Some ==> member(*j, key@) == Some(*r->0),
{
    match j.get(key) {
        Some(o) => match o {
            Json::Object(_) => Some(o),
            _ => None,
        },
        None => None,
    }
}

/// The bids of a record whose status says they were submitted.
pub fn get_submitted_bids(release: &Json) -> (r: Vec<&Json>)
    ensures
        r@.len() == submitted(bid_details(*release)).len(),
        forall|i: int| 0 <= i < r@.len() ==> *r@[i] == submitted(bid_details(*release))[i],
{
    let mut out: Vec<&Json> = Vec::new();
    let ghost all = bid_details(*release);
    let details: &Vec<Json> = match get_object(release, "bids") {
        Some(bids) => match get_array(bids, "details") {
            Some(d) => d,
            None => {
                assert(all.len() == 0);
                return out;
            },
        },
        None => {
            return out;
        },
    };
    assert(details@ == all);
    let mut i: usize = 0;
    while i < details.len()
        invariant
            0 <= i <= details@.len(),
            details@ == all,
            out@.len() == submitted(all.take(i as int)).len(),
            forall|a: int| 0 <= a < out@.len() ==> *out@[a] == submitted(all.take(i as int))[a],
        decreases details@.len() - i,
    {
        let bid = &details[i];
        assert(all.take(i + 1).drop_last() =~= all.take(i as int));
        assert(all.take(i + 1).last() == *bid);
        let keep = match bid.get_str("status") {
            Some(s) => {
                proof {
                    reveal_strlit("invited");
                    reveal_strlit("withdrawn");
                }
                let invited = String::from_str("invited");
                let withdrawn = String::from_str("withdrawn");
                *s != invited && *s != withdrawn
            },
            None => false,
        };
        assert(keep == is_submitted(*bid));
        if keep {
            out.push(bid);
        }
        i = i + 1;
    }
    assert(all.take(all.len() as int) =~= all);
    out
}

/// Whether an award's status, if it has one, is final: "active", "cancelled" or "unsuccessful".
pub open spec fn is_final(award: Json) -> bool {
    match str_member(award, "status"@) {
        Some(s) => s == "active"@ || s == "cancelled"@ || s == "unsuccessful"@,
        None => true,
    }
}

/// The awards whose status is "active", in order.
pub open spec fn active_awards(awards: Seq<Json>) -> Seq<Json>
    decreases awards.len(),
{
    if awards.len() == 0 {
        Seq::empty()
    } else if str_member(awards.last(), "status"@) == Some("active"@) {
        active_awards(awards.drop_last()).push(awards.last())
    } else {
        active_awards(awards.drop_last())
    }
}

/// Whether a record has an awards array and a `bids.details` array, and all its awards are final.
pub open spec fn awards_final(release: Json) -> bool {
    &&& has_array(release, "awards"@)
    &&& has_object(release, "bids"@)
    &&& (member(release, "bids"@) matches Some(bids) && has_array(bids, "details"@))
    &&& forall|i: int| 0 <= i < array_member(release, "awards"@).len() ==> is_final(#[trigger] array_member(release, "awards"@)[i])
}

/// The active awards and all the bids of a record, when every award is in a final state (a
/// record without awards qualifies); nothing while an award is pending.
pub fn get_complete_awards_and_bids_if_all_awards_final(release: &Json) -> (r: Option<(Vec<&Json>, &Vec<Json>)>)
    ensures
        r is Some <==> awards_final(*release),
        r is Some ==> (r->0).1@ == bid_details(*release),
        r is Some ==> (r->0).0@.len() == active_awards(array_member(*release, "awards"@)).len(),
        r is Some ==> forall|i: int| 0 <= i < (r->0).0@.len() ==> *(#[trigger] (r->0).0@[i]) == active_awards(array_member(*release, "awards"@))[i],
{
    let awards = match get_array(release, "awards") {
        Some(a) => a,
        None => return None,
    };
    let bids = match get_object(release, "bids") {
        Some(b) => b,
        None => return None,
    };
    let details = match get_array(bids, "details") {
        Some(d) => d,
        None => return None,
    };
    proof {
        reveal_strlit("active");
        reveal_strlit("cancelled");
        reveal_strlit("unsuccessful");
    }
    let active = String::from_str("active");
    let cancelled = String::from_str("cancelled");
    let unsuccessful = String::from_str("unsuccessful");
    let ghost all = awards@;
    assert(all == array_member(*release, "awards"@));
    let mut complete: Vec<&Json> = Vec::new();
    let mut i: usize = 0;
    while i < awards.len()
        invariant
            0 <= i <= all.len(),
            all == awards@,
            all == array_member(*release, "awards"@),
            active@ == "active"@,
            cancelled@ == "cancelled"@,
            unsuccessful@ == "unsuccessful"@,
            forall|a: int| 0 <= a < i ==> is_final(#[trigger] all[a]),
            complete@.len() == active_awards(all.take(i as int)).len(),
            forall|a: int| 0 <= a < complete@.len() ==> *(#[trigger] complete@[a]) == active_awards(all.take(i as int))[a],
        decreases all.len() - i,
    {
        let award = &awards[i];
        assert(all.take(i + 1).drop_last() =~= all.take(i as int));
        assert(all.take(i + 1).last() == *award);
        match award.get_str("status") {
            Some(s) => {
                if *s == active {
                    complete.push(award);
                } else if *s == cancelled || *s == unsuccessful {
                } else {
                    assert(!is_final(all[i as int]));
                    return None;
                }
            },
            None => {},
        }
        i = i + 1;
    }
    assert(all.take(all.len() as int) =~= all);
    assert(details@ == bid_details(*release));
    Some((complete, details))
}

} // verus!
