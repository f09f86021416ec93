//! Ratio tallies keyed by entity id, merged by adding counts per id.
use vstd::prelude::*;
use crate::ratio::Ratio;

verus! {

/// The counts that `entries` hold for `key`, summed over every entry of that key.
pub open spec fn total(entries: Seq<(String, Ratio)>, key: Seq<char>) -> (int, int)
    decreases entries.len(),
{
    if entries.len() == 0 {
        (0, 0)
    } else {
        let rest = total(entries.drop_last(), key);
        if entries.last().0@ == key {
            (rest.0 + entries.last().1.numerator, rest.1 + entries.last().1.denominator)
        } else {
            rest
        }
    }
}

/// No key occurs twice.
pub open spec fn distinct_keys(entries: Seq<(String, Ratio)>) -> bool {
    forall|a: int, b: int| 0 <= a < b < entries.len() ==> entries[a].0@ != entries[b].0@
}

/// Whether some entry has the key.
pub open spec fn has_key(entries: Seq<(String, Ratio)>, key: Seq<char>) -> bool {
    exists|a: int| 0 <= a < entries.len() && #[trigger] entries[a].0@ == key
}

/// One tally per entity id.
pub struct Tallies {
    pub entries: Vec<(String, Ratio)>,
}

proof fn lemma_total_absent(s: Seq<(String, Ratio)>, key: Seq<char>)
    requires
        !has_key(s, key),
    ensures
        total(s, key) == (0int, 0int),
    decreases s.len(),
{
    if s.len() > 0 {
        assert(s.last().0@ != key) by {
            assert(s[s.len() - 1] == s.last());
        }
        assert(!has_key(s.drop_last(), key)) by {
            if has_key(s.drop_last(), key) {
                let a = choose|a: int| 0 <= a < s.drop_last().len() && #[trigger] s.drop_last()[a].0@ == key;
                assert(s[a] == s.drop_last()[a]);
            }
        }
        lemma_total_absent(s.drop_last(), key);
    }
}

proof fn lemma_total_single(s: Seq<(String, Ratio)>, j: int)
    requires
        0 <= j < s.len(),
        distinct_keys(s),
    ensures
        total(s, s[j].0@) == (s[j].1.numerator as int, s[j].1.denominator as int),
    decreases s.len(),
{
    let k = s[j].0@;
    if j == s.len() - 1 {
        assert(!has_key(s.drop_last(), k)) by {
            if has_key(s.drop_last(), k) {
                let a = choose|a: int| 0 <= a < s.drop_last().len() && #[trigger] s.drop_last()[a].0@ == k;
                assert(s[a] == s.drop_last()[a]);
            }
        }
        lemma_total_absent(s.drop_last(), k);
    } else {
        assert(s.drop_last()[j] == s[j]);
        lemma_total_single(s.drop_last(), j);
        assert(s.last().0@ != k) by {
            assert(s[s.len() - 1] == s.last());
        }
    }
}

proof fn lemma_total_update(s: Seq<(String, Ratio)>, j: int, r: Ratio, key: Seq<char>)
    requires
        0 <= j < s.len(),
    ensures
        total(s.update(j, (s[j].0, r)), key) == (if key == s[j].0@ {
            (total(s, key).0 - s[j].1.numerator + r.numerator, total(s, key).1 - s[j].1.denominator + r.denominator)
        } else {
            total(s, key)
        }),
    decreases s.len(),
{
    let u = s.update(j, (s[j].0, r));
    if j == s.len() - 1 {
        assert(u.drop_last() =~= s.drop_last());
    } else {
        lemma_total_update(s.drop_last(), j, r, key);
        assert(u.drop_last() =~= s.drop_last().update(j, (s[j].0, r)));
    }
}

impl Tallies {
    pub open spec fn wf(&self) -> bool {
        distinct_keys(self.entries@)
    }

    /// Every tally has seen at least one opportunity, and no more events than opportunities.
    pub open spec fn proper(&self) -> bool {
        forall|i: int| 0 <= i < self.entries@.len() ==> 0 < (#[trigger] self.entries@[i]).1.denominator
            && self.entries@[i].1.numerator <= self.entries@[i].1.denominator
    }

    /// The counts held for `key`.
    pub open spec fn of(&self, key: Seq<char>) -> (int, int) {
        total(self.entries@, key)
    }

    /// No tallies.
    pub fn new() -> (r: Tallies)
        ensures
            r.wf(),
            r.proper(),
            r.entries@.len() == 0,
            forall|key: Seq<char>| #[trigger] r.of(key) == (0int, 0int),
    {
        Tallies { entries: Vec::new() }
    }

    /// The position of the entry for `key`, if there is one.
    fn find(&self, key: &String) -> (r: Option<usize>)
        requires
            self.wf(),
        ensures
            r is Some ==> r->0 < self.entries@.len() && self.entries@[r->0 as int].0@ == key@,
            r is None ==> !has_key(self.entries@, key@),
    {
        let mut i: usize = 0;
        while i < self.entries.len()
            invariant
                0 <= i <= self.entries@.len(),
                forall|a: int| 0 <= a < i ==> #[trigger] self.entries@[a].0@ != key@,
            decreases self.entries@.len() - i,
        {
            if self.entries[i].0 == *key {
                return Some(i);
            }
            i = i + 1;
        }
        None
    }

    /// Adds `weight` out of `opportunity` to the tally of `key`.
    pub fn add(&mut self, key: &String, weight: usize, opportunity: usize)
        requires
            old(self).wf(),
            old(self).of(key@).0 + weight <= usize::MAX,
            old(self).of(key@).1 + opportunity <= usize::MAX,
        ensures
            final(self).wf(),
            final(self).of(key@) == (old(self).of(key@).0 + weight, old(self).of(key@).1 + opportunity),
            forall|k: Seq<char>| k != key@ ==> #[trigger] final(self).of(k) == old(self).of(k),
            has_key(final(self).entries@, key@),
            forall|k: Seq<char>| k != key@ ==> (#[trigger] has_key(final(self).entries@, k) == has_key(old(self).entries@, k)),
            old(self).proper() && 0 < opportunity && weight <= opportunity ==> final(self).proper(),
    {
        let ghost s = self.entries@;
        match self.find(key) {
            Some(j) => {
                proof {
                    lemma_total_single(s, j as int);
                }
                let mut r = self.entries[j].1;
                r.increment(weight, opportunity);
                let name = self.entries[j].0.clone();
                self.entries.set(j, (name, r));
                proof {
                    assert(self.entries@ == s.update(j as int, (s[j as int].0, r)));
                    assert forall|k: Seq<char>| #[trigger] total(self.entries@, k) == (if k == key@ {
                        (total(s, k).0 + weight, total(s, k).1 + opportunity)
                    } else {
                        total(s, k)
                    }) by {
                        lemma_total_update(s, j as int, r, k);
                    }
                    assert forall|a: int, b: int| 0 <= a < b < self.entries@.len() implies self.entries@[a].0@ != self.entries@[b].0@ by {
                        assert(self.entries@[a].0 == s[a].0);
                        assert(self.entries@[b].0 == s[b].0);
                    }
                    assert(self.entries@[j as int].0@ == key@);
                    assert forall|k: Seq<char>| #[trigger] has_key(self.entries@, k) == has_key(s, k) by {
                        if has_key(s, k) {
                            let a = choose|a: int| 0 <= a < s.len() && #[trigger] s[a].0@ == k;
                            assert(self.entries@[a].0 == s[a].0);
                        }
                        if has_key(self.entries@, k) {
                            let a = choose|a: int| 0 <= a < self.entries@.len() && #[trigger] self.entries@[a].0@ == k;
                            assert(self.entries@[a].0 == s[a].0);
                        }
                    }
                    if old(self).proper() && 0 < opportunity && weight <= opportunity {
                        assert forall|a: int| 0 <= a < self.entries@.len() implies 0 < (#[trigger] self.entries@[a]).1.denominator
                            && self.entries@[a].1.numerator <= self.entries@[a].1.denominator by {
                            if a != j {
                                assert(self.entries@[a] == s[a]);
                            }
                        }
                    }
                }
            },
            None => {
                proof {
                    lemma_total_absent(s, key@);
                }
                let mut r = Ratio::new();
                r.increment(weight, opportunity);
                self.entries.push((key.clone(), r));
                proof {
                    assert(self.entries@ == s.push((*key, r)));
                    assert(self.entries@.drop_last() =~= s);
                    assert forall|a: int, b: int| 0 <= a < b < self.entries@.len() implies self.entries@[a].0@ != self.entries@[b].0@ by {
                        if b == s.len() {
                            assert(self.entries@[a] == s[a]);
                        } else {
                            assert(self.entries@[a] == s[a]);
                            assert(self.entries@[b] == s[b]);
                        }
                    }
                    assert(self.entries@[s.len() as int].0@ == key@);
                    assert forall|k: Seq<char>| k != key@ implies (#[trigger] has_key(self.entries@, k) == has_key(s, k)) by {
                        if has_key(s, k) {
                            let a = choose|a: int| 0 <= a < s.len() && #[trigger] s[a].0@ == k;
                            assert(self.entries@[a] == s[a]);
                        }
                        if has_key(self.entries@, k) {
                            let a = choose|a: int| 0 <= a < self.entries@.len() && #[trigger] self.entries@[a].0@ == k;
                            assert(self.entries@[a] == s[a]);
                        }
                    }
                    if old(self).proper() && 0 < opportunity && weight <= opportunity {
                        assert forall|a: int| 0 <= a < self.entries@.len() implies 0 < (#[trigger] self.entries@[a]).1.denominator
                            && self.entries@[a].1.numerator <= self.entries@[a].1.denominator by {
                            if a < s.len() {
                                assert(self.entries@[a] == s[a]);
                            }
                        }
                    }
                }
            },
        }
    }

    /// Adds every tally of `other`, built from disjoint records, to this one.
    pub fn merge(&mut self, other: &Tallies)
        requires
            old(self).wf(),
            other.wf(),
            forall|k: Seq<char>| (#[trigger] old(self).of(k)).0 + other.of(k).0 <= usize::MAX
                && old(self).of(k).1 + other.of(k).1 <= usize::MAX,
        ensures
            final(self).wf(),
            forall|k: Seq<char>| #[trigger] final(self).of(k) == (old(self).of(k).0 + other.of(k).0, old(self).of(k).1 + other.of(k).1),
            forall|k: Seq<char>| #[trigger] has_key(final(self).entries@, k) <==> (has_key(old(self).entries@, k) || has_key(other.entries@, k)),
            old(self).proper() && other.proper() ==> final(self).proper(),
    {
        let ghost start = *self;
        let ghost o = other.entries@;
        let mut i: usize = 0;
        while i < other.entries.len()
            invariant
                0 <= i <= o.len(),
                o == other.entries@,
                distinct_keys(o),
                self.wf(),
                forall|k: Seq<char>| (#[trigger] start.of(k)).0 + total(o, k).0 <= usize::MAX
                    && start.of(k).1 + total(o, k).1 <= usize::MAX,
                forall|k: Seq<char>| #[trigger] self.of(k) == (start.of(k).0 + total(o.take(i as int), k).0, start.of(k).1 + total(o.take(i as int), k).1),
                forall|k: Seq<char>| #[trigger] has_key(self.entries@, k) <==> (has_key(start.entries@, k) || has_key(o.take(i as int), k)),
                start.proper() && other.proper() ==> self.proper(),
            decreases o.len() - i,
        {
            let entry = &other.entries[i];
            let ghost k = entry.0@;
            proof {
                assert(o.take(i + 1).drop_last() =~= o.take(i as int));
                assert(o.take(i + 1).last() == o[i as int]);
                assert(!has_key(o.take(i as int), k)) by {
                    if has_key(o.take(i as int), k) {
                        let a = choose|a: int| 0 <= a < o.take(i as int).len() && #[trigger] o.take(i as int)[a].0@ == k;
                        assert(o.take(i as int)[a] == o[a]);
                    }
                }
                lemma_total_absent(o.take(i as int), k);
                lemma_total_single(o, i as int);
                assert forall|kk: Seq<char>| #[trigger] has_key(o.take(i + 1), kk) <==> (has_key(o.take(i as int), kk) || kk == k) by {
                    if has_key(o.take(i + 1), kk) {
                        let a = choose|a: int| 0 <= a < o.take(i + 1).len() && #[trigger] o.take(i + 1)[a].0@ == kk;
                        if a < i {
                            assert(o.take(i as int)[a] == o.take(i + 1)[a]);
                        }
                    }
                    if has_key(o.take(i as int), kk) {
                        let a = choose|a: int| 0 <= a < o.take(i as int).len() && #[trigger] o.take(i as int)[a].0@ == kk;
                        assert(o.take(i as int)[a] == o.take(i + 1)[a]);
                    }
                    if kk == k {
                        assert(o.take(i + 1)[i as int].0@ == kk);
                    }
                }
                if other.proper() {
                    assert(0 < o[i as int].1.denominator && o[i as int].1.numerator <= o[i as int].1.denominator);
                }
            }
            self.add(&entry.0, entry.1.numerator, entry.1.denominator);
            i = i + 1;
        }
        assert(o.take(o.len() as int) =~= o);
    }

    /// The tallies whose denominator reaches `minimum`; the others are left out entirely.
    pub fn eligible(&self, minimum: usize) -> (r: Tallies)
        requires
            self.wf(),
        ensures
            r.wf(),
            forall|k: Seq<char>| #[trigger] r.of(k) == (if self.of(k).1 >= minimum && has_key(self.entries@, k) {
                self.of(k)
            } else {
                (0int, 0int)
            }),
            forall|k: Seq<char>| has_key(r.entries@, k) <==> (has_key(self.entries@, k) && (#[trigger] self.of(k)).1 >= minimum),
            self.proper() ==> r.proper(),
    {
        let ghost s = self.entries@;
        let mut out: Vec<(String, Ratio)> = Vec::new();
        let mut i: usize = 0;
        while i < self.entries.len()
            invariant
                0 <= i <= s.len(),
                s == self.entries@,
                distinct_keys(s),
                distinct_keys(out@),
                forall|k: Seq<char>| #[trigger] total(out@, k) == (if total(s, k).1 >= minimum && has_key(s.take(i as int), k) {
                    total(s, k)
                } else {
                    (0int, 0int)
                }),
                forall|k: Seq<char>| #[trigger] has_key(out@, k) <==> (has_key(s.take(i as int), k) && total(s, k).1 >= minimum),
                self.proper() ==> forall|a: int| 0 <= a < out@.len() ==> 0 < (#[trigger] out@[a]).1.denominator
                    && out@[a].1.numerator <= out@[a].1.denominator,
            decreases s.len() - i,
        {
            let entry = &self.entries[i];
            let ghost k = entry.0@;
            let ghost before = out@;
            proof {
                lemma_total_single(s, i as int);
                assert(s.take(i + 1) =~= s.take(i as int).push(s[i as int]));
                assert(!has_key(s.take(i as int), k)) by {
                    if has_key(s.take(i as int), k) {
                        let a = choose|a: int| 0 <= a < s.take(i as int).len() && #[trigger] s.take(i as int)[a].0@ == k;
                        assert(s.take(i as int)[a] == s[a]);
                    }
                }
                assert forall|kk: Seq<char>| #[trigger] has_key(s.take(i + 1), kk) <==> (has_key(s.take(i as int), kk) || kk == k) by {
                    if has_key(s.take(i + 1), kk) {
                        let a = choose|a: int| 0 <= a < s.take(i + 1).len() && #[trigger] s.take(i + 1)[a].0@ == kk;
                        if a < i {
                            assert(s.take(i as int)[a] == s.take(i + 1)[a]);
                        }
                    }
                    if has_key(s.take(i as int), kk) {
                        let a = choose|a: int| 0 <= a < s.take(i as int).len() && #[trigger] s.take(i as int)[a].0@ == kk;
                        assert(s.take(i as int)[a] == s.take(i + 1)[a]);
                    }
                    if kk == k {
                        assert(s.take(i + 1)[i as int].0@ == kk);
                    }
                }
            }
            if entry.1.denominator >= minimum {
                out.push((entry.0.clone(), entry.1));
                proof {
                    assert(out@.drop_last() =~= before);
                    assert(!has_key(before, k));
                    lemma_total_absent(before, k);
                    assert forall|kk: Seq<char>| #[trigger] total(out@, kk) == (if total(s, kk).1 >= minimum && has_key(s.take(i + 1), kk) {
                        total(s, kk)
                    } else {
                        (0int, 0int)
                    }) by {
                        assert(has_key(s.take(i + 1), kk) <==> (has_key(s.take(i as int), kk) || kk == k));
                        assert(out@.drop_last() == before);
                        assert(out@.last().0@ == k);
                        assert(total(before, kk) == (if total(s, kk).1 >= minimum && has_key(s.take(i as int), kk) {
                            total(s, kk)
                        } else {
                            (0int, 0int)
                        }));
                    }
                    assert forall|a: int, b: int| 0 <= a < b < out@.len() implies out@[a].0@ != out@[b].0@ by {
                        assert(out@[a] == before[a] || a == before.len());
                        if b < before.len() {
                            assert(out@[a] == before[a]);
                            assert(out@[b] == before[b]);
                        } else {
                            assert(out@[a] == before[a]);
                        }
                    }
                    assert forall|kk: Seq<char>| #[trigger] has_key(out@, kk) <==> (has_key(before, kk) || kk == k) by {
                        if has_key(out@, kk) {
                            let a = choose|a: int| 0 <= a < out@.len() && #[trigger] out@[a].0@ == kk;
                            if a < before.len() {
                                assert(out@[a] == before[a]);
                            }
                        }
                        if has_key(before, kk) {
                            let a = choose|a: int| 0 <= a < before.len() && #[trigger] before[a].0@ == kk;
                            assert(out@[a] == before[a]);
                        }
                        if kk == k {
                            assert(out@[before.len() as int].0@ == kk);
                        }
                    }
                    assert forall|kk: Seq<char>| #[trigger] has_key(out@, kk) <==> (has_key(s.take(i + 1), kk) && total(s, kk).1 >= minimum) by {
                        assert(has_key(s.take(i + 1), kk) <==> (has_key(s.take(i as int), kk) || kk == k));
                        assert(has_key(out@, kk) <==> (has_key(before, kk) || kk == k));
                        assert(has_key(before, kk) <==> (has_key(s.take(i as int), kk) && total(s, kk).1 >= minimum));
                    }
                }
            } else {
                proof {
                    assert forall|kk: Seq<char>| #[trigger] total(out@, kk) == (if total(s, kk).1 >= minimum && has_key(s.take(i + 1), kk) {
                        total(s, kk)
                    } else {
                        (0int, 0int)
                    }) by {
                        assert(has_key(s.take(i + 1), kk) <==> (has_key(s.take(i as int), kk) || kk == k));
                    }
                    assert forall|kk: Seq<char>| #[trigger] has_key(out@, kk) <==> (has_key(s.take(i + 1), kk) && total(s, kk).1 >= minimum) by {
                        assert(has_key(s.take(i + 1), kk) <==> (has_key(s.take(i as int), kk) || kk == k));
                    }
                }
            }
            i = i + 1;
        }
        proof {
            assert(s.take(s.len() as int) =~= s);
            assert forall|k: Seq<char>| has_key(out@, k) <==> (has_key(s, k) && #[trigger] total(s, k).1 >= minimum) by {
                assert(has_key(out@, k) <==> (has_key(s.take(s.len() as int), k) && total(s, k).1 >= minimum));
            }
        }
        Tallies { entries: out }
    }
}

} // verus!
