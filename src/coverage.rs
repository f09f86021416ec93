//! Field coverage: how many times each path of the records holds a non-empty value.
use vstd::prelude::*;
use vstd::multiset::Multiset;
use crate::json::Json;
use indexmap::IndexMap;

verus! {

broadcast use vstd::multiset::group_multiset_axioms;

#[verifier::external_type_specification]
#[verifier::external_body]
#[verifier::reject_recursive_types(K)]
#[verifier::reject_recursive_types(V)]
#[verifier::reject_recursive_types(S)]
pub struct ExIndexMap<K, V, S>(IndexMap<K, V, S>);

/// A table of counts, keyed by path.
pub type Counts = IndexMap<String, u32>;

/// What a table of counts holds: each path's count.
pub uninterp spec fn path_counts(m: IndexMap<String, u32>) -> Map<Seq<char>, u32>;

/// The count of `p` in `m`, zero where `m` has none.
pub open spec fn count_of(m: Map<Seq<char>, u32>, p: Seq<char>) -> nat {
    if m.contains_key(p) {
        m[p] as nat
    } else {
        0
    }
}

/// `m` with each path of `c` counted once more per occurrence.
pub open spec fn add_paths(m: Map<Seq<char>, u32>, c: Multiset<Seq<char>>) -> Map<Seq<char>, u32> {
    Map::new(|p: Seq<char>| m.contains_key(p) || c.count(p) > 0, |p: Seq<char>| (count_of(m, p) + c.count(p)) as u32)
}

/// Adding `c` to `m` keeps every count within `u32`.
pub open spec fn fits(m: Map<Seq<char>, u32>, c: Multiset<Seq<char>>) -> bool {
    forall|p: Seq<char>| count_of(m, p) + #[trigger] c.count(p) <= u32::MAX
}

/// The pointwise sum of two tables.
pub open spec fn merge_counts(a: Map<Seq<char>, u32>, b: Map<Seq<char>, u32>) -> Map<Seq<char>, u32> {
    Map::new(|p: Seq<char>| a.contains_key(p) || b.contains_key(p), |p: Seq<char>| (count_of(a, p) + count_of(b, p)) as u32)
}

/// The pointwise sum of two tables stays within `u32`.
pub open spec fn merge_fits(a: Map<Seq<char>, u32>, b: Map<Seq<char>, u32>) -> bool {
    forall|p: Seq<char>| #[trigger] count_of(a, p) + count_of(b, p) <= u32::MAX
}

/// Whether `j` at `path` is non-empty, and the paths it counts (each once per count).
///
/// Null, the empty string, the empty array and the empty object are empty, and so is an
/// array or object whose children are all empty. A non-empty array counts its own path
/// once; a non-empty object counts its marker path (`path` + "/") and its own path.
pub open spec fn walk(j: Json, path: Seq<char>) -> (bool, Multiset<Seq<char>>)
    decreases j, 0int,
{
    match j {
        Json::Null => (false, Multiset::empty()),
        Json::Bool(_) => (true, Multiset::singleton(path)),
        Json::Number(_) => (true, Multiset::singleton(path)),
        Json::Str(s) => if s@.len() > 0 {
            (true, Multiset::singleton(path))
        } else {
            (false, Multiset::empty())
        },
        Json::Array(items) => if items@.len() == 0 {
            (false, Multiset::empty())
        } else {
            let inner = walk_items(items@, path + "[]"@, items@.len() as int);
            if inner.0 {
                (true, inner.1.insert(path))
            } else {
                (false, inner.1)
            }
        },
        Json::Object(members) => if members@.len() == 0 {
            (false, Multiset::empty())
        } else {
            let inner = walk_members(members@, path + "/"@, members@.len() as int);
            if inner.0 {
                (true, inner.1.insert(path + "/"@).insert(path))
            } else {
                (false, inner.1)
            }
        },
    }
}

/// The first `n` elements of an array, each walked at the shared element path.
pub open spec fn walk_items(items: Seq<Json>, path: Seq<char>, n: int) -> (bool, Multiset<Seq<char>>)
    decreases items, n,
{
    if n <= 0 || n > items.len() {
        (false, Multiset::empty())
    } else {
        let prev = walk_items(items, path, n - 1);
        let last = walk(items[n - 1], path);
        (prev.0 || last.0, prev.1.add(last.1))
    }
}

/// The first `n` members of an object, each walked at `path` followed by its name.
pub open spec fn walk_members(members: Seq<(String, Json)>, path: Seq<char>, n: int) -> (bool, Multiset<Seq<char>>)
    decreases members, n,
{
    if n <= 0 || n > members.len() {
        (false, Multiset::empty())
    } else {
        let prev = walk_members(members, path, n - 1);
        let last = walk(members[n - 1].1, path + members[n - 1].0@);
        (prev.0 || last.0, prev.1.add(last.1))
    }
}

/// The paths that a record counts: the walk from the root, whose path is empty.
pub open spec fn record_paths(j: Json) -> Multiset<Seq<char>> {
    walk(j, Seq::empty()).1
}

/// The paths that a sequence of records counts, all together.
pub open spec fn records_paths(rs: Seq<Json>) -> Multiset<Seq<char>>
    decreases rs.len(),
{
    if rs.len() == 0 {
        Multiset::empty()
    } else {
        records_paths(rs.drop_last()).add(record_paths(rs.last()))
    }
}

/// Relies on IndexMap::new: an empty map.
#[verifier::external_body]
fn empty_counts() -> (r: Counts)
    ensures
        path_counts(r).dom() == Set::<Seq<char>>::empty(),
{
    IndexMap::new()
}

/// Relies on IndexMap::get: the value stored under `k`, if any.
#[verifier::external_body]
fn stored_count(m: &IndexMap<String, u32>, k: &String) -> (r: Option<u32>)
    ensures
        r is Some <==> path_counts(*m).contains_key(k@),
        r is Some ==> r->0 == path_counts(*m)[k@],
{
    m.get(k).copied()
}

/// Relies on IndexMap::insert: stores `v` under `k`, replacing any value there.
#[verifier::external_body]
fn store_count(m: &mut IndexMap<String, u32>, k: String, v: u32)
    ensures
        path_counts(*final(m)) == path_counts(*old(m)).insert(k@, v),
{
    m.insert(k, v);
}

/// Relies on IndexMap::into_iter: each entry once, keys distinct.
#[verifier::external_body]
fn into_entries(m: Counts) -> (r: Vec<(String, u32)>)
    ensures
        forall|i: int, j: int| 0 <= i < j < r@.len() ==> r@[i].0@ != r@[j].0@,
        forall|i: int| 0 <= i < r@.len() ==> path_counts(m).contains_key(#[trigger] r@[i].0@)
            && path_counts(m)[r@[i].0@] == r@[i].1,
        forall|p: Seq<char>| path_counts(m).contains_key(p) ==> exists|i: int| 0 <= i < r@.len() && #[trigger] r@[i].0@ == p,
{
    m.into_iter().collect()
}

/// Count of non-empty occurrences of each path over the records seen.
pub struct Coverage {
    counts: IndexMap<String, u32>,
}

impl View for Coverage {
    type V = Map<Seq<char>, u32>;

    closed spec fn view(&self) -> Map<Seq<char>, u32> {
        path_counts(self.counts)
    }
}

proof fn lemma_add_paths_twice(m: Map<Seq<char>, u32>, a: Multiset<Seq<char>>, b: Multiset<Seq<char>>)
    requires
        forall|p: Seq<char>| count_of(m, p) + #[trigger] a.count(p) + b.count(p) <= u32::MAX,
    ensures
        add_paths(add_paths(m, a), b) == add_paths(m, a.add(b)),
{
    assert(add_paths(add_paths(m, a), b) =~= add_paths(m, a.add(b)));
}

proof fn lemma_walk_items_grows(items: Seq<Json>, path: Seq<char>, i: int, n: int, p: Seq<char>)
    requires
        0 <= i <= n <= items.len(),
    ensures
        walk_items(items, path, i).1.count(p) <= walk_items(items, path, n).1.count(p),
    decreases n - i,
{
    if i < n {
        lemma_walk_items_grows(items, path, i, n - 1, p);
    }
}

proof fn lemma_walk_members_grows(members: Seq<(String, Json)>, path: Seq<char>, i: int, n: int, p: Seq<char>)
    requires
        0 <= i <= n <= members.len(),
    ensures
        walk_members(members, path, i).1.count(p) <= walk_members(members, path, n).1.count(p),
    decreases n - i,
{
    if i < n {
        lemma_walk_members_grows(members, path, i, n - 1, p);
    }
}

impl Coverage {
    /// An empty table.
    pub fn new() -> (r: Coverage)
        ensures
            r@.dom() == Set::<Seq<char>>::empty(),
    {
        Coverage { counts: empty_counts() }
    }

    /// The count of each path.
    pub fn results(&self) -> (r: &IndexMap<String, u32>)
        ensures
            path_counts(*r) == self@,
    {
        &self.counts
    }

    /// Counts `path` `delta` times more.
    fn increment(&mut self, path: String, delta: u32)
        requires
            count_of(old(self)@, path@) + delta <= u32::MAX,
        ensures
            final(self)@ == old(self)@.insert(path@, (count_of(old(self)@, path@) + delta) as u32),
    {
        match stored_count(&self.counts, &path) {
            Some(c) => store_count(&mut self.counts, path, c + delta),
            None => store_count(&mut self.counts, path, delta),
        }
    }

    /// Walks `value`, found at `path`, counting each non-empty node's path; returns whether
    /// `value` is non-empty.
    pub fn add(&mut self, value: &Json, path: &String) -> (r: bool)
        requires
            fits(old(self)@, walk(*value, path@).1),
        ensures
            r == walk(*value, path@).0,
            final(self)@ == add_paths(old(self)@, walk(*value, path@).1),
        decreases value,
    {
        let ghost start = self@;
        let ghost w = walk(*value, path@);
        match value {
            Json::Null => {
                assert(self@ =~= add_paths(start, w.1));
                false
            },
            Json::Bool(_) | Json::Number(_) => {
                self.increment(path.clone(), 1);
                assert(self@ =~= add_paths(start, w.1));
                true
            },
            Json::Str(s) => {
                if s.unicode_len() > 0 {
                    self.increment(path.clone(), 1);
                    assert(self@ =~= add_paths(start, w.1));
                    true
                } else {
                    assert(self@ =~= add_paths(start, w.1));
                    false
                }
            },
            Json::Array(items) => {
                if items.len() == 0 {
                    assert(self@ =~= add_paths(start, w.1));
                    return false;
                }
                let child = path.clone().concat("[]");
                let ghost n = items@.len() as int;
                let mut any = false;
                let mut i: usize = 0;
                assert(self@ =~= add_paths(start, walk_items(items@, child@, 0).1));
                while i < items.len()
                    invariant
                        0 <= i <= n == items@.len(),
                        n > 0,
                        child@ == path@ + "[]"@,
                        w == walk(*value, path@),
                        *value == Json::Array(*items),
                        fits(start, w.1),
                        any == walk_items(items@, child@, i as int).0,
                        self@ == add_paths(start, walk_items(items@, child@, i as int).1),
                    decreases n - i,
                {
                    let ghost before = self@;
                    proof {
                        assert forall|p: Seq<char>| count_of(before, p) + #[trigger] walk(items@[i as int], child@).1.count(p) <= u32::MAX by {
                            lemma_walk_items_grows(items@, child@, i + 1, n, p);
                            assert(w.1.count(p) >= walk_items(items@, child@, n).1.count(p));
                            assert(fits(start, w.1));
                            assert(count_of(start, p) + w.1.count(p) <= u32::MAX);
                        }
                    }
                    let ghost prev = walk_items(items@, child@, i as int).1;
                    let ghost next = walk(items@[i as int], child@).1;
                    proof {
                        assert forall|p: Seq<char>| count_of(start, p) + #[trigger] prev.count(p) + next.count(p) <= u32::MAX by {
                            lemma_walk_items_grows(items@, child@, i + 1, n, p);
                            assert(w.1.count(p) >= walk_items(items@, child@, n).1.count(p));
                            assert(count_of(start, p) + w.1.count(p) <= u32::MAX);
                        }
                        lemma_add_paths_twice(start, prev, next);
                    }
                    let nonempty = self.add(&items[i], &child);
                    any = any || nonempty;
                    i = i + 1;
                }
                if any {
                    proof {
                        assert(w.1.count(path@) >= walk_items(items@, child@, n).1.count(path@) + 1);
                        assert(count_of(start, path@) + w.1.count(path@) <= u32::MAX);
                    }
                    self.increment(path.clone(), 1);
                }
                assert(self@ =~= add_paths(start, w.1));
                any
            },
            Json::Object(members) => {
                if members.len() == 0 {
                    assert(self@ =~= add_paths(start, w.1));
                    return false;
                }
                let marker = path.clone().concat("/");
                let ghost n = members@.len() as int;
                let mut any = false;
                let mut i: usize = 0;
                assert(self@ =~= add_paths(start, walk_members(members@, marker@, 0).1));
                while i < members.len()
                    invariant
                        0 <= i <= n == members@.len(),
                        n > 0,
                        marker@ == path@ + "/"@,
                        w == walk(*value, path@),
                        *value == Json::Object(*members),
                        fits(start, w.1),
                        any == walk_members(members@, marker@, i as int).0,
                        self@ == add_paths(start, walk_members(members@, marker@, i as int).1),
                    decreases n - i,
                {
                    let ghost before = self@;
                    let member = &members[i];
                    let child = marker.clone().concat(member.0.as_str());
                    proof {
                        assert forall|p: Seq<char>| count_of(before, p) + #[trigger] walk(member.1, child@).1.count(p) <= u32::MAX by {
                            lemma_walk_members_grows(members@, marker@, i + 1, n, p);
                            assert(w.1.count(p) >= walk_members(members@, marker@, n).1.count(p));
                            assert(count_of(start, p) + w.1.count(p) <= u32::MAX);
                        }
                    }
                    let ghost prev = walk_members(members@, marker@, i as int).1;
                    let ghost next = walk(member.1, child@).1;
                    proof {
                        assert forall|p: Seq<char>| count_of(start, p) + #[trigger] prev.count(p) + next.count(p) <= u32::MAX by {
                            lemma_walk_members_grows(members@, marker@, i + 1, n, p);
                            assert(w.1.count(p) >= walk_members(members@, marker@, n).1.count(p));
                            assert(count_of(start, p) + w.1.count(p) <= u32::MAX);
                        }
                        lemma_add_paths_twice(start, prev, next);
                    }
                    let nonempty = self.add(&member.1, &child);
                    any = any || nonempty;
                    i = i + 1;
                }
                if any {
                    let ghost m = walk_members(members@, marker@, n).1;
                    proof {
                        assert(w.1 == m.insert(marker@).insert(path@));
                        assert(count_of(start, marker@) + w.1.count(marker@) <= u32::MAX);
                        assert(count_of(start, path@) + w.1.count(path@) <= u32::MAX);
                    }
                    self.increment(marker, 1);
                    assert(self@ =~= add_paths(start, m.insert(marker@)));
                    self.increment(path.clone(), 1);
                }
                assert(self@ =~= add_paths(start, w.1));
                any
            },
        }
    }

    /// Counts the paths of one record, walked from the root.
    pub fn add_record(&mut self, record: &Json) -> (r: bool)
        requires
            fits(old(self)@, record_paths(*record)),
        ensures
            r == walk(*record, Seq::empty()).0,
            final(self)@ == add_paths(old(self)@, record_paths(*record)),
    {
        let root = String::new();
        self.add(record, &root)
    }

    /// Adds the counts of `other`, a table built from other records.
    pub fn merge(&mut self, other: Coverage)
        requires
            merge_fits(old(self)@, other@),
        ensures
            final(self)@ == merge_counts(old(self)@, other@),
    {
        let ghost start = self@;
        let ghost theirs = other@;
        let entries = into_entries(other.counts);
        let ghost mut seen = Set::<Seq<char>>::empty();
        let mut i: usize = 0;
        while i < entries.len()
            invariant
                0 <= i <= entries@.len(),
                merge_fits(start, theirs),
                forall|a: int, b: int| 0 <= a < b < entries@.len() ==> entries@[a].0@ != entries@[b].0@,
                forall|a: int| 0 <= a < entries@.len() ==> theirs.contains_key(#[trigger] entries@[a].0@)
                    && theirs[entries@[a].0@] == entries@[a].1,
                forall|p: Seq<char>| theirs.contains_key(p) ==> exists|a: int| 0 <= a < entries@.len() && #[trigger] entries@[a].0@ == p,
                forall|a: int| 0 <= a < i ==> seen.contains(#[trigger] entries@[a].0@),
                forall|p: Seq<char>| seen.contains(p) ==> exists|a: int| 0 <= a < i && #[trigger] entries@[a].0@ == p,
                forall|a: int| 0 <= a < i ==> self@.contains_key(#[trigger] entries@[a].0@)
                    && count_of(self@, entries@[a].0@) == count_of(start, entries@[a].0@) + entries@[a].1,
                forall|p: Seq<char>| !(#[trigger] seen.contains(p)) ==>
                    (self@.contains_key(p) == start.contains_key(p) && count_of(self@, p) == count_of(start, p)),
            decreases entries@.len() - i,
        {
            let entry = &entries[i];
            let ghost k = entry.0@;
            proof {
                assert(!seen.contains(k));
                assert(count_of(start, k) + count_of(theirs, k) <= u32::MAX);
            }
            self.increment(entry.0.clone(), entry.1);
            proof {
                seen = seen.insert(k);
            }
            i = i + 1;
        }
        proof {
            assert forall|p: Seq<char>| #[trigger] self@.contains_key(p) == merge_counts(start, theirs).contains_key(p) by {
                if theirs.contains_key(p) {
                    let a = choose|a: int| 0 <= a < entries@.len() && #[trigger] entries@[a].0@ == p;
                } else {
                    if seen.contains(p) {
                        let a = choose|a: int| 0 <= a < i && #[trigger] entries@[a].0@ == p;
                    }
                }
            }
            assert forall|p: Seq<char>| #[trigger] self@.contains_key(p) implies self@[p] == merge_counts(start, theirs)[p] by {
                if theirs.contains_key(p) {
                    let a = choose|a: int| 0 <= a < entries@.len() && #[trigger] entries@[a].0@ == p;
                } else {
                    if seen.contains(p) {
                        let a = choose|a: int| 0 <= a < i && #[trigger] entries@[a].0@ == p;
                    }
                }
            }
        }
        assert(self@ =~= merge_counts(start, theirs));
    }
}

/// The table that a sequence of records gives, counted from an empty table.
pub open spec fn table(rs: Seq<Json>) -> Map<Seq<char>, u32> {
    add_paths(Map::empty(), records_paths(rs))
}

/// The paths of two sequences of records, together, are the paths of the one and of the other.
pub proof fn lemma_records_paths_concat(a: Seq<Json>, b: Seq<Json>)
    ensures
        records_paths(a + b) == records_paths(a).add(records_paths(b)),
    decreases b.len(),
{
    if b.len() == 0 {
        assert(a + b =~= a);
        assert(records_paths(a + b) =~= records_paths(a).add(records_paths(b)));
    } else {
        lemma_records_paths_concat(a, b.drop_last());
        assert((a + b).drop_last() =~= a + b.drop_last());
        assert(records_paths(a + b) =~= records_paths(a).add(records_paths(b)));
    }
}

/// Partition invariance: counting the records in two parts and merging the two tables
/// gives the table of counting them all in one pass.
pub proof fn lemma_partition_invariance(a: Seq<Json>, b: Seq<Json>)
    requires
        fits(Map::empty(), records_paths(a + b)),
    ensures
        merge_fits(table(a), table(b)),
        merge_counts(table(a), table(b)) == table(a + b),
{
    lemma_records_paths_concat(a, b);
    let e = Map::<Seq<char>, u32>::empty();
    assert forall|p: Seq<char>| #[trigger] count_of(table(a), p) + count_of(table(b), p) <= u32::MAX by {
        assert(count_of(e, p) + records_paths(a + b).count(p) <= u32::MAX);
    }
    assert(merge_counts(table(a), table(b)) =~= table(a + b));
}

/// The order in which two tables are merged does not matter.
pub proof fn lemma_merge_commutative(x: Map<Seq<char>, u32>, y: Map<Seq<char>, u32>)
    ensures
        merge_counts(x, y) == merge_counts(y, x),
{
    assert(merge_counts(x, y) =~= merge_counts(y, x));
}

/// How merges are grouped does not matter.
pub proof fn lemma_merge_associative(x: Map<Seq<char>, u32>, y: Map<Seq<char>, u32>, z: Map<Seq<char>, u32>)
    requires
        forall|p: Seq<char>| #[trigger] count_of(x, p) + count_of(y, p) + count_of(z, p) <= u32::MAX,
    ensures
        merge_counts(merge_counts(x, y), z) == merge_counts(x, merge_counts(y, z)),
{
    assert(merge_counts(merge_counts(x, y), z) =~= merge_counts(x, merge_counts(y, z)));
}

/// Counting one record twice and merging the two tables doubles every count and adds no path.
pub proof fn lemma_doubling(j: Json)
    requires
        forall|p: Seq<char>| 2 * #[trigger] record_paths(j).count(p) <= u32::MAX,
    ensures
        merge_counts(table(seq![j]), table(seq![j])).dom() == table(seq![j]).dom(),
        forall|p: Seq<char>| #[trigger] count_of(merge_counts(table(seq![j]), table(seq![j])), p) == 2 * count_of(table(seq![j]), p),
{
    let t = table(seq![j]);
    assert(seq![j].drop_last() =~= Seq::<Json>::empty());
    assert(seq![j].last() == j);
    assert(records_paths(Seq::<Json>::empty()) == Multiset::<Seq<char>>::empty());
    assert(records_paths(seq![j]) == records_paths(Seq::<Json>::empty()).add(record_paths(j)));
    assert(records_paths(seq![j]) =~= record_paths(j));
    assert(merge_counts(t, t).dom() =~= t.dom());
}

/// Counting records one at a time, as `add_record` does from an empty table, builds the
/// table of the whole sequence.
pub proof fn lemma_fold_builds_table(rs: Seq<Json>, r: Json)
    requires
        fits(Map::empty(), records_paths(rs.push(r))),
    ensures
        fits(table(rs), record_paths(r)),
        add_paths(table(rs), record_paths(r)) == table(rs.push(r)),
{
    let e = Map::<Seq<char>, u32>::empty();
    assert(rs.push(r).drop_last() =~= rs);
    assert(records_paths(rs.push(r)) == records_paths(rs).add(record_paths(r)));
    assert forall|p: Seq<char>| count_of(table(rs), p) + #[trigger] record_paths(r).count(p) <= u32::MAX by {
        assert(count_of(e, p) + records_paths(rs.push(r)).count(p) <= u32::MAX);
    }
    assert forall|p: Seq<char>| count_of(e, p) + #[trigger] records_paths(rs).count(p) + record_paths(r).count(p) <= u32::MAX by {
        assert(count_of(e, p) + records_paths(rs.push(r)).count(p) <= u32::MAX);
    }
    lemma_add_paths_twice(e, records_paths(rs), record_paths(r));
}

/// The paths counted over a sequence of records depend only on which records it holds, not
/// on their order.
pub proof fn lemma_records_paths_permutation(a: Seq<Json>, b: Seq<Json>)
    requires
        a.to_multiset() == b.to_multiset(),
    ensures
        records_paths(a) == records_paths(b),
    decreases a.len(),
{
    broadcast use vstd::seq_lib::group_to_multiset_ensures;

    assert(a.len() == a.to_multiset().len());
    assert(b.len() == b.to_multiset().len());
    if a.len() == 0 {
        assert(b.len() == 0);
        assert(b =~= a);
    } else {
        let x = a.last();
        let rest = a.drop_last();
        assert(rest.push(x) =~= a);
        assert(a.to_multiset() =~= rest.to_multiset().insert(x));
        assert(a.contains(x)) by {
            assert(a[a.len() - 1] == x);
        }
        assert(a.to_multiset().count(x) > 0);
        assert(b.contains(x));
        let j = choose|j: int| 0 <= j < b.len() && b[j] == x;
        let rb = b.remove(j);
        assert(rb.to_multiset() =~= b.to_multiset().remove(x));
        assert(rest.to_multiset() =~= a.to_multiset().remove(x));
        lemma_records_paths_permutation(rest, rb);
        let left = b.take(j);
        let right = b.skip(j + 1);
        assert(rb =~= left + right);
        assert(b =~= left + seq![x] + right);
        lemma_records_paths_concat(left, right);
        lemma_records_paths_concat(left, seq![x]);
        lemma_records_paths_concat(left + seq![x], right);
        assert(seq![x].drop_last() =~= Seq::<Json>::empty());
        assert(seq![x].last() == x);
        assert(records_paths(seq![x]) =~= records_paths(Seq::<Json>::empty()).add(record_paths(x)));
        assert(records_paths(b) =~= records_paths(a));
    }
}

/// Order invariance: counting the same records in any order builds the same table.
pub proof fn lemma_order_invariance(a: Seq<Json>, b: Seq<Json>)
    requires
        a.to_multiset() == b.to_multiset(),
    ensures
        table(a) == table(b),
{
    lemma_records_paths_permutation(a, b);
}

} // verus!
