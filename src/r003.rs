//! Short bid period: a process whose bid period lasts fewer days than a threshold.
use vstd::prelude::*;
use crate::json::{Json, member, str_member};
use crate::indicators::{get_object, has_object};

verus! {

/// The whole days from the RFC 3339 timestamp `start` to `end`, when both parse.
pub uninterp spec fn rfc3339_days(start: Seq<char>, end: Seq<char>) -> Option<i64>;

/// Relies on chrono's DateTime::parse_from_rfc3339 for each timestamp, and on
/// TimeDelta::num_days for the whole days of their difference.
#[verifier::external_body]
fn days_between(start: &str, end: &str) -> (r: Option<i64>)
    ensures
        r == rfc3339_days(start@, end@),
{
    match (chrono::DateTime::parse_from_rfc3339(start), chrono::DateTime::parse_from_rfc3339(end)) {
        (Ok(s), Ok(e)) => Some((e - s).num_days()),
        _ => None,
    }
}

/// The threshold of the last entry named `name`, if any.
pub open spec fn threshold_of(entries: Seq<(String, i64)>, name: Seq<char>) -> Option<i64>
    decreases entries.len(),
{
    if entries.len() == 0 {
        None
    } else if entries.last().0@ == name {
        Some(entries.last().1)
    } else {
        threshold_of(entries.drop_last(), name)
    }
}

/// Whether `name` is one of `names`.
pub open spec fn listed(names: Seq<String>, name: Seq<char>) -> bool {
    exists|i: int| 0 <= i < names.len() && #[trigger] names[i]@ == name
}

/// Flags a process whose tender period lasts fewer whole days than a threshold.
pub struct R003 {
    pub threshold: i64,
    pub procurement_methods: Vec<String>,
    pub procurement_method_details_thresholds: Vec<(String, i64)>,
}

impl R003 {
    /// The configured rule; the threshold is 15 days unless given.
    pub fn new(
        threshold: Option<i64>,
        procurement_methods: Vec<String>,
        procurement_method_details_thresholds: Vec<(String, i64)>,
    ) -> (r: R003)
        ensures
            r.threshold == (match threshold {
                Some(t) => t,
                None => 15,
            }),
            r.procurement_methods@ == procurement_methods@,
            r.procurement_method_details_thresholds@ == procurement_method_details_thresholds@,
    {
        let t = match threshold {
            Some(t) => t,
            None => 15,
        };
        R003 { threshold: t, procurement_methods, procurement_method_details_thresholds }
    }

    /// Whether the tender's procurement method is one that the rule looks at.
    pub open spec fn matches_method(&self, tender: Json) -> bool {
        self.procurement_methods@.len() == 0 || (str_member(tender, "procurementMethod"@) matches Some(
            m,
        ) && listed(self.procurement_methods@, m))
    }

    /// The threshold that applies to a process with these procurement method details.
    pub open spec fn threshold_for(&self, details: Option<Seq<char>>) -> i64 {
        match details {
            Some(d) => match threshold_of(self.procurement_method_details_thresholds@, d) {
                Some(t) => t,
                None => self.threshold,
            },
            None => self.threshold,
        }
    }

    /// Whether a record is flagged: its tender matches the procurement methods, its tender
    /// period has start and end dates that parse, and it lasts fewer days than the threshold.
    pub open spec fn flags(&self, release: Json) -> bool {
        match member(release, "tender"@) {
            Some(tender) => {
                &&& has_object(release, "tender"@)
                &&& self.matches_method(tender)
                &&& has_object(tender, "tenderPeriod"@)
                &&& match member(tender, "tenderPeriod"@) {
                    Some(period) => match (str_member(period, "startDate"@), str_member(period, "endDate"@)) {
                        (Some(s), Some(e)) => match rfc3339_days(s, e) {
                            Some(days) => days < self.threshold_for(str_member(tender, "procurementMethodDetails"@)),
                            None => false,
                        },
                        _ => false,
                    },
                    None => false,
                }
            },
            None => false,
        }
    }

    pub fn matches_procurement_method(&self, tender: &Json) -> (r: bool)
        ensures
            r == self.matches_method(*tender),
    {
        if self.procurement_methods.len() == 0 {
            return true;
        }
        match tender.get_str("procurementMethod") {
            Some(m) => {
                let mut i: usize = 0;
                while i < self.procurement_methods.len()
                    invariant
                        0 <= i <= self.procurement_methods@.len(),
                        str_member(*tender, "procurementMethod"@) == Some(m@),
                        forall|a: int| 0 <= a < i ==> #[trigger] self.procurement_methods@[a]@ != m@,
                    decreases self.procurement_methods@.len() - i,
                {
                    if self.procurement_methods[i] == *m {
                        return true;
                    }
                    i = i + 1;
                }
                false
            },
            None => false,
        }
    }

    /// The threshold for a process with these procurement method details.
    pub fn threshold_for_details(&self, details: Option<&String>) -> (r: i64)
        ensures
            r == self.threshold_for(match details {
                Some(d) => Some(d@),
                None => None,
            }),
    {
        match details {
            Some(d) => {
                let entries = &self.procurement_method_details_thresholds;
                let mut i: usize = entries.len();
                assert(entries@.take(i as int) =~= entries@);
                while i > 0
                    invariant
                        i <= entries@.len(),
                        entries@ == self.procurement_method_details_thresholds@,
                        details == Some(d),
                        threshold_of(entries@, d@) == threshold_of(entries@.take(i as int), d@),
                    decreases i,
                {
                    assert(entries@.take(i as int).drop_last() =~= entries@.take(i - 1));
                    assert(entries@.take(i as int).last() == entries@[i - 1]);
                    if entries[i - 1].0 == *d {
                        return entries[i - 1].1;
                    }
                    i = i - 1;
                }
                assert(entries@.take(0) =~= Seq::<(String, i64)>::empty());
                self.threshold
            },
            None => self.threshold,
        }
    }

    /// Whether a bid period of `days` whole days, under these procurement method details,
    /// is short enough to flag.
    pub fn is_short(&self, days: i64, details: Option<&String>) -> (r: bool)
        ensures
            r == (days < self.threshold_for(match details {
                Some(d) => Some(d@),
                None => None,
            })),
    {
        days < self.threshold_for_details(details)
    }

    /// Whether the record is flagged by this rule, with score 1.
    pub fn fold(&self, release: &Json) -> (r: bool)
        ensures
            r == self.flags(*release),
    {
        let tender = match get_object(release, "tender") {
            Some(t) => t,
            None => return false,
        };
        if !self.matches_procurement_method(tender) {
            return false;
        }
        let period = match get_object(tender, "tenderPeriod") {
            Some(p) => p,
            None => return false,
        };
        let start = match period.get_str("startDate") {
            Some(s) => s,
            None => return false,
        };
        let end = match period.get_str("endDate") {
            Some(e) => e,
            None => return false,
        };
        match days_between(start.as_str(), end.as_str()) {
            Some(days) => self.is_short(days, tender.get_str("procurementMethodDetails")),
            None => false,
        }
    }
}

} // verus!
