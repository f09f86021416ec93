use cardinal::ratio::Ratio;
use cardinal::tallies::Tallies;

#[test]
fn ratio_increment_and_merge() {
    let mut a = Ratio::new();
    assert!(!a.has_value());
    a.increment(1, 1);
    a.increment(0, 1);
    let mut b = Ratio::new();
    b.increment(3, 10);
    a.merge(&b);
    assert_eq!(a, Ratio { numerator: 4, denominator: 12 });
    assert!(a.has_value());
}

#[test]
fn ratio_merge_law_over_subsets() {
    let obs = [(1usize, 1usize), (0, 1), (2, 5), (0, 3), (1, 1)];
    let mut all = Ratio::new();
    for (w, o) in obs.iter() {
        all.increment(*w, *o);
    }
    let mut even = Ratio::new();
    let mut odd = Ratio::new();
    for (i, (w, o)) in obs.iter().enumerate() {
        if i % 2 == 0 {
            even.increment(*w, *o);
        } else {
            odd.increment(*w, *o);
        }
    }
    let mut merged = odd;
    merged.merge(&even);
    assert_eq!(merged, all);
    assert_eq!(all, Ratio { numerator: 4, denominator: 11 });
}

fn tally_of(t: &Tallies, key: &str) -> Option<Ratio> {
    t.entries.iter().find(|(k, _)| k == key).map(|(_, r)| *r)
}

#[test]
fn tallies_merge_sums_per_key() {
    let mut a = Tallies::new();
    a.add(&"x".to_string(), 1, 2);
    a.add(&"y".to_string(), 0, 1);
    a.add(&"x".to_string(), 1, 1);
    let mut b = Tallies::new();
    b.add(&"x".to_string(), 0, 4);
    b.add(&"z".to_string(), 2, 2);
    a.merge(&b);
    assert_eq!(a.entries.len(), 3);
    assert_eq!(tally_of(&a, "x"), Some(Ratio { numerator: 2, denominator: 7 }));
    assert_eq!(tally_of(&a, "y"), Some(Ratio { numerator: 0, denominator: 1 }));
    assert_eq!(tally_of(&a, "z"), Some(Ratio { numerator: 2, denominator: 2 }));
}

#[test]
fn tallies_eligible_excludes_small_samples() {
    let mut t = Tallies::new();
    t.add(&"big".to_string(), 1, 10);
    t.add(&"small".to_string(), 1, 1);
    t.add(&"edge".to_string(), 0, 3);
    let e = t.eligible(3);
    assert_eq!(tally_of(&e, "big"), Some(Ratio { numerator: 1, denominator: 10 }));
    assert_eq!(tally_of(&e, "edge"), Some(Ratio { numerator: 0, denominator: 3 }));
    assert_eq!(tally_of(&e, "small"), None);
    assert_eq!(e.entries.len(), 2);
}
