use cardinal::indicators::{get_complete_awards_and_bids_if_all_awards_final, get_submitted_bids};
use cardinal::json::{parse_line, Json, Line};
use cardinal::r003::R003;
use cardinal::r030::{later, R030};
use cardinal::r038::{R038Tallies, R038};
use cardinal::ratio::Ratio;
use cardinal::tallies::Tallies;

fn record(text: &str) -> Json {
    match parse_line(text) {
        Line::Record(j) => j,
        _ => panic!("not a record: {text}"),
    }
}

fn period(start: &str, end: &str) -> Json {
    record(&format!(
        r#"{{"ocid":"o-1","tender":{{"tenderPeriod":{{"startDate":"{start}","endDate":"{end}"}}}}}}"#
    ))
}

#[test]
fn r003_flags_short_period() {
    let rule = R003::new(None, vec![], vec![]);
    assert_eq!(rule.threshold, 15);
    assert!(rule.fold(&period("2022-01-01T00:00:00Z", "2022-01-15T00:00:00Z")));
    assert!(rule.fold(&period("2022-01-01T00:00:00Z", "2022-01-15T23:59:59Z")));
}

#[test]
fn r003_never_flags_at_or_above_threshold() {
    let rule = R003::new(None, vec![], vec![]);
    assert!(!rule.fold(&period("2022-01-01T00:00:00Z", "2022-01-16T00:00:00Z")));
    assert!(!rule.fold(&period("2022-01-01T00:00:00Z", "2022-03-01T00:00:00Z")));
}

#[test]
fn r003_needs_parsable_dates() {
    let rule = R003::new(None, vec![], vec![]);
    assert!(!rule.fold(&period("yesterday", "2022-01-02T00:00:00Z")));
    assert!(!rule.fold(&record(r#"{"ocid":"o-1","tender":{}}"#)));
    assert!(!rule.fold(&record(r#"{"ocid":"o-1"}"#)));
}

#[test]
fn r003_offsets_and_configured_threshold() {
    let rule = R003::new(Some(3), vec![], vec![]);
    assert!(rule.fold(&period("2022-01-01T00:00:00+05:00", "2022-01-03T00:00:00Z")));
    assert!(!rule.fold(&period("2022-01-01T00:00:00Z", "2022-01-04T00:00:00Z")));
}

#[test]
fn r003_procurement_methods_and_details() {
    let rule = R003::new(None, vec!["open".to_string()], vec![("Fast".to_string(), 2)]);
    let open = record(
        r#"{"tender":{"procurementMethod":"open","tenderPeriod":{"startDate":"2022-01-01T00:00:00Z","endDate":"2022-01-05T00:00:00Z"}}}"#,
    );
    let selective = record(
        r#"{"tender":{"procurementMethod":"selective","tenderPeriod":{"startDate":"2022-01-01T00:00:00Z","endDate":"2022-01-05T00:00:00Z"}}}"#,
    );
    let fast = record(
        r#"{"tender":{"procurementMethod":"open","procurementMethodDetails":"Fast","tenderPeriod":{"startDate":"2022-01-01T00:00:00Z","endDate":"2022-01-05T00:00:00Z"}}}"#,
    );
    assert!(rule.fold(&open));
    assert!(!rule.fold(&selective));
    assert!(!rule.fold(&fast));
    assert!(rule.is_short(1, Some(&"Fast".to_string())));
    assert!(!rule.is_short(2, Some(&"Fast".to_string())));
    assert!(rule.is_short(14, None));
    assert!(!rule.is_short(15, None));
}

fn r030_release(bid_status: &str, bid_date: &str, award_status: &str) -> Json {
    record(&format!(
        r#"{{"ocid":"o-2","tender":{{"tenderPeriod":{{"endDate":"2022-01-10T00:00:00Z"}}}},
"awards":[{{"status":"{award_status}","suppliers":[{{"id":"s-1"}}]}}],
"bids":{{"details":[{{"status":"{bid_status}","date":"{bid_date}","tenderers":[{{"id":"s-2"}},{{"id":"s-1"}}]}}]}}}}"#
    ))
}

#[test]
fn r030_late_bid_won() {
    let rule = R030::new();
    assert!(rule.fold(&r030_release("valid", "2022-01-11T00:00:00Z", "active")));
}

#[test]
fn r030_not_flagged() {
    let rule = R030::new();
    assert!(!rule.fold(&r030_release("valid", "2022-01-09T00:00:00Z", "active")));
    assert!(!rule.fold(&r030_release("valid", "2022-01-10T00:00:00Z", "active")));
    assert!(!rule.fold(&r030_release("disqualified", "2022-01-11T00:00:00Z", "active")));
    assert!(!rule.fold(&r030_release("valid", "2022-01-11T00:00:00Z", "pending")));
}

#[test]
fn string_order() {
    assert!(later("b", "a"));
    assert!(later("ab", "a"));
    assert!(!later("a", "a"));
    assert!(!later("a", "ab"));
    assert!(later("é", "z"));
}

#[test]
fn submitted_bids_skip_invited_and_withdrawn() {
    let r = record(
        r#"{"bids":{"details":[{"status":"valid"},{"status":"invited"},{"status":"withdrawn"},{"status":"disqualified"},{}]}}"#,
    );
    let bids = get_submitted_bids(&r);
    assert_eq!(bids.len(), 2);
    assert_eq!(bids[1].get_str("status").map(|s| s.as_str()), Some("disqualified"));
}

fn tally_of(t: &Tallies, key: &str) -> Option<Ratio> {
    t.entries.iter().find(|(k, _)| k == key).map(|(_, r)| *r)
}

const R038_LINE: &str = r#"{"ocid":"o-3","buyer":{"id":"b-1"},"tender":{"procuringEntity":{"id":"p-1"}},
"bids":{"details":[
{"status":"valid","tenderers":[{"id":"t-1"}]},
{"status":"disqualified","tenderers":[{"id":"t-1"},{"id":"t-2"}]},
{"status":"invited","tenderers":[{"id":"t-3"}]}]}}"#;

#[test]
fn r038_fold_counts() {
    let rule = R038::new(None);
    assert_eq!(rule.minimum_submitted_bids, 1);
    let mut item = R038Tallies::new();
    rule.fold(&mut item, &record(R038_LINE));
    assert_eq!(tally_of(&item.buyer, "b-1"), Some(Ratio { numerator: 1, denominator: 2 }));
    assert_eq!(tally_of(&item.procuring_entity, "p-1"), Some(Ratio { numerator: 1, denominator: 2 }));
    assert_eq!(tally_of(&item.tenderer, "t-1"), Some(Ratio { numerator: 1, denominator: 2 }));
    assert_eq!(tally_of(&item.tenderer, "t-2"), Some(Ratio { numerator: 1, denominator: 1 }));
    assert_eq!(tally_of(&item.tenderer, "t-3"), None);
}

#[test]
fn r038_no_submitted_bids_adds_nothing() {
    let rule = R038::new(None);
    let mut item = R038Tallies::new();
    rule.fold(&mut item, &record(r#"{"buyer":{"id":"b-1"},"bids":{"details":[{"status":"invited"}]}}"#));
    assert!(item.buyer.entries.is_empty());
}

#[test]
fn r038_partition_invariance() {
    let lines = [
        R038_LINE,
        r#"{"buyer":{"id":"b-1"},"bids":{"details":[{"status":"disqualified","tenderers":[{"id":"t-2"}]}]}}"#,
        r#"{"buyer":{"id":"b-2"},"bids":{"details":[{"status":"valid","tenderers":[{"id":"t-1"}]}]}}"#,
    ];
    let rule = R038::new(None);
    let mut whole = R038Tallies::new();
    for l in lines.iter() {
        rule.fold(&mut whole, &record(l));
    }
    let mut first = R038Tallies::new();
    rule.fold(&mut first, &record(lines[0]));
    let mut rest = R038Tallies::new();
    rule.fold(&mut rest, &record(lines[2]));
    rule.fold(&mut rest, &record(lines[1]));
    rule.reduce(&mut rest, &first);
    for key in ["b-1", "b-2"] {
        assert_eq!(tally_of(&rest.buyer, key), tally_of(&whole.buyer, key));
    }
    for key in ["t-1", "t-2"] {
        assert_eq!(tally_of(&rest.tenderer, key), tally_of(&whole.tenderer, key));
    }
    assert_eq!(tally_of(&whole.buyer, "b-1"), Some(Ratio { numerator: 2, denominator: 3 }));
}

#[test]
fn r038_minimum_sample_exclusion() {
    let rule = R038::new(Some(2));
    let mut item = R038Tallies::new();
    rule.fold(&mut item, &record(R038_LINE));
    let eligible = item.tenderer.eligible(rule.minimum_submitted_bids);
    assert_eq!(tally_of(&eligible, "t-1"), Some(Ratio { numerator: 1, denominator: 2 }));
    assert_eq!(tally_of(&eligible, "t-2"), None);
}

#[test]
fn complete_awards_when_all_final() {
    let r = record(
        r#"{"awards":[{"status":"active","id":"a"},{"status":"cancelled"},{"id":"none"},{"status":"active","id":"b"}],"bids":{"details":[{"id":1},{"id":2}]}}"#,
    );
    let (awards, bids) = get_complete_awards_and_bids_if_all_awards_final(&r).unwrap();
    assert_eq!(awards.len(), 2);
    assert_eq!(awards[1].get_str("id").map(|s| s.as_str()), Some("b"));
    assert_eq!(bids.len(), 2);
}

#[test]
fn complete_awards_none_while_pending() {
    let pending = record(r#"{"awards":[{"status":"active"},{"status":"pending"}],"bids":{"details":[]}}"#);
    assert!(get_complete_awards_and_bids_if_all_awards_final(&pending).is_none());
    let no_bids = record(r#"{"awards":[]}"#);
    assert!(get_complete_awards_and_bids_if_all_awards_final(&no_bids).is_none());
    let no_awards = record(r#"{"awards":[],"bids":{"details":[{}]}}"#);
    let (awards, bids) = get_complete_awards_and_bids_if_all_awards_final(&no_awards).unwrap();
    assert!(awards.is_empty());
    assert_eq!(bids.len(), 1);
}

fn all_proper(t: &Tallies) -> bool {
    t.entries.iter().all(|(_, r)| r.denominator > 0 && r.numerator <= r.denominator)
}

#[test]
fn r038_tallies_stay_proper() {
    let rule = R038::new(Some(0));
    let mut item = R038Tallies::new();
    rule.fold(&mut item, &record(R038_LINE));
    rule.fold(&mut item, &record(r#"{"buyer":{"id":""},"bids":{"details":[]}}"#));
    rule.fold(&mut item, &record(r#"{"buyer":{"id":"b-9"},"bids":{"details":[{"status":"withdrawn"}]}}"#));
    assert!(all_proper(&item.buyer) && all_proper(&item.procuring_entity) && all_proper(&item.tenderer));
    assert_eq!(item.buyer.entries.len(), 1);
    let eligible = item.buyer.eligible(0);
    assert_eq!(eligible.entries.len(), 1);
    assert_eq!(tally_of(&eligible, ""), None);
}
