//! The table of visit counts, keyed by the referring page.
use vstd::prelude::*;

verus! {

/// `acc` with the records applied in order: a later record overrides an
/// earlier one with the same key.
pub open spec fn records_over(
    acc: Map<Seq<char>, u64>,
    records: Seq<(Seq<char>, u64)>,
) -> Map<Seq<char>, u64>
    decreases records.len(),
{
    if records.len() == 0 {
        acc
    } else {
        records_over(acc, records.drop_last()).insert(records.last().0, records.last().1)
    }
}

/// The map that a list of records describes.
pub open spec fn map_of(records: Seq<(Seq<char>, u64)>) -> Map<Seq<char>, u64> {
    records_over(Map::empty(), records)
}

/// Applying the first record, then the others, is applying them all.
pub proof fn lemma_records_over_front(acc: Map<Seq<char>, u64>, records: Seq<(Seq<char>, u64)>)
    requires
        records.len() > 0,
    ensures
        records_over(acc, records) == records_over(
            acc.insert(records[0].0, records[0].1),
            records.skip(1),
        ),
    decreases records.len(),
{
    let first = acc.insert(records[0].0, records[0].1);
    if records.len() == 1 {
        assert(records.drop_last() =~= Seq::<(Seq<char>, u64)>::empty());
        assert(records.skip(1) =~= Seq::<(Seq<char>, u64)>::empty());
        assert(records_over(acc, records.drop_last()) == acc);
        assert(records_over(first, records.skip(1)) == first);
    } else {
        lemma_records_over_front(acc, records.drop_last());
        assert(records.skip(1).drop_last() =~= records.drop_last().skip(1));
        assert(records.skip(1).last() == records.last());
        assert(records.drop_last()[0] == records[0]);
        assert(records_over(first, records.skip(1)) == records_over(
            first,
            records.skip(1).drop_last(),
        ).insert(records.last().0, records.last().1));
    }
}

/// No two records share a key.
pub open spec fn keys_unique(records: Seq<(Seq<char>, u64)>) -> bool {
    forall|i: int, j: int|
        0 <= i < records.len() && 0 <= j < records.len() && i != j ==> records[i].0
            != records[j].0
}

/// The count stored for `key`, zero where the key is absent.
pub open spec fn count_in(m: Map<Seq<char>, u64>, key: Seq<char>) -> nat {
    if m.contains_key(key) {
        m[key] as nat
    } else {
        0
    }
}

/// The table after one visit of `key`.
pub open spec fn bumped(m: Map<Seq<char>, u64>, key: Seq<char>) -> Map<Seq<char>, u64> {
    m.insert(key, (count_in(m, key) + 1) as u64)
}

pub proof fn lemma_map_of_dom(records: Seq<(Seq<char>, u64)>, key: Seq<char>)
    ensures
        map_of(records).contains_key(key) <==> exists|i: int|
            0 <= i < records.len() && #[trigger] records[i].0 == key,
    decreases records.len(),
{
    if records.len() > 0 {
        let init = records.drop_last();
        lemma_map_of_dom(init, key);
        if map_of(init).contains_key(key) {
            let i = choose|i: int| 0 <= i < init.len() && #[trigger] init[i].0 == key;
            assert(records[i].0 == key);
        }
        if exists|i: int| 0 <= i < records.len() && #[trigger] records[i].0 == key {
            let i = choose|i: int| 0 <= i < records.len() && #[trigger] records[i].0 == key;
            if i < records.len() - 1 {
                assert(init[i].0 == key);
            }
        }
    }
}

pub proof fn lemma_map_of_value(records: Seq<(Seq<char>, u64)>, i: int)
    requires
        keys_unique(records),
        0 <= i < records.len(),
    ensures
        map_of(records).contains_key(records[i].0),
        map_of(records)[records[i].0] == records[i].1,
    decreases records.len(),
{
    let init = records.drop_last();
    if i < records.len() - 1 {
        assert(init[i] == records[i]);
        lemma_map_of_value(init, i);
    }
}

pub proof fn lemma_map_of_update(records: Seq<(Seq<char>, u64)>, i: int, v: u64)
    requires
        keys_unique(records),
        0 <= i < records.len(),
    ensures
        map_of(records.update(i, (records[i].0, v))) == map_of(records).insert(
            records[i].0,
            v,
        ),
    decreases records.len(),
{
    let updated = records.update(i, (records[i].0, v));
    let init = records.drop_last();
    if i == records.len() - 1 {
        assert(updated.drop_last() == init);
    } else {
        assert(updated.drop_last() == init.update(i, (init[i].0, v)));
        lemma_map_of_update(init, i, v);
    }
    assert(map_of(updated) == map_of(records).insert(records[i].0, v));
}

pub proof fn lemma_map_of_len(records: Seq<(Seq<char>, u64)>)
    requires
        keys_unique(records),
    ensures
        map_of(records).len() == records.len(),
        map_of(records).dom().finite(),
    decreases records.len(),
{
    if records.len() > 0 {
        let init = records.drop_last();
        lemma_map_of_len(init);
        lemma_map_of_dom(init, records.last().0);
        assert(!map_of(init).contains_key(records.last().0));
    }
}

/// `m` after `n` visits of `key`.
pub open spec fn bumped_times(m: Map<Seq<char>, u64>, key: Seq<char>, n: nat) -> Map<
    Seq<char>,
    u64,
>
    decreases n,
{
    if n == 0 {
        m
    } else {
        bumped(bumped_times(m, key, (n - 1) as nat), key)
    }
}

/// Successive visits of one site count up by one each: after `i` of them the
/// count has grown by `i`, so the `i`-th visit returns the count it started
/// from plus `i` (for a new site, `1, 2, ..., n`), with no value repeated or
/// skipped. The counts of the other sites do not move.
pub proof fn lemma_increments_count_up(m: Map<Seq<char>, u64>, key: Seq<char>, n: nat)
    requires
        count_in(m, key) + n <= u64::MAX,
    ensures
        forall|i: nat|
            i <= n ==> #[trigger] count_in(bumped_times(m, key, i), key) == count_in(m, key) + i,
        forall|k: Seq<char>|
            k != key ==> #[trigger] count_in(bumped_times(m, key, n), k) == count_in(m, k),
        !m.contains_key(key) ==> forall|i: nat|
            1 <= i <= n ==> #[trigger] count_in(bumped_times(m, key, (i - 1) as nat), key) + 1
                == i,
    decreases n,
{
    if n > 0 {
        let prev = bumped_times(m, key, (n - 1) as nat);
        lemma_increments_count_up(m, key, (n - 1) as nat);
        assert(count_in(prev, key) == count_in(m, key) + n - 1);
        assert(bumped_times(m, key, n) == bumped(prev, key));
        assert(count_in(bumped_times(m, key, n), key) == count_in(m, key) + n);
        assert forall|k: Seq<char>| k != key implies #[trigger] count_in(
            bumped_times(m, key, n),
            k,
        ) == count_in(m, k) by {
            assert(count_in(prev, k) == count_in(m, k));
        }
    }
}

/// The table of visit counts: one record per site, in the order in which
/// the sites were first seen.
pub struct VisitTable {
    entries: Vec<(String, u64)>,
}

impl View for VisitTable {
    type V = Map<Seq<char>, u64>;

    open spec fn view(&self) -> Map<Seq<char>, u64> {
        map_of(self.records())
    }
}

impl VisitTable {
    /// The records of the table, as plain values.
    pub closed spec fn records(&self) -> Seq<(Seq<char>, u64)> {
        self.entries@.map_values(|e: (String, u64)| (e.0@, e.1))
    }

    /// Each site has one record.
    pub open spec fn wf(&self) -> bool {
        keys_unique(self.records())
    }

    /// An empty table.
    pub fn new() -> (r: VisitTable)
        ensures
            r.wf(),
            r@ == Map::<Seq<char>, u64>::empty(),
            r.records().len() == 0,
    {
        let r = VisitTable { entries: Vec::new() };
        assert(r.records() =~= Seq::<(Seq<char>, u64)>::empty());
        r
    }

    /// The number of sites in the table.
    pub fn len(&self) -> (n: usize)
        ensures
            n == self.records().len(),
            self.wf() ==> n == self@.len(),
    {
        proof {
            if self.wf() {
                lemma_map_of_len(self.records());
            }
        }
        self.entries.len()
    }

    /// The record at `i`: a site and its count.
    pub fn entry(&self, i: usize) -> (r: (&String, u64))
        requires
            i < self.records().len(),
        ensures
            (r.0@, r.1) == self.records()[i as int],
    {
        (&self.entries[i].0, self.entries[i].1)
    }

    /// Where the record of `key` stands, if the table has one.
    fn position(&self, key: &String) -> (r: Option<usize>)
        requires
            self.wf(),
        ensures
            r is None ==> !self@.contains_key(key@),
            r matches Some(i) ==> i < self.records().len() && self.records()[i as int].0
                == key@,
    {
        let mut i: usize = 0;
        while i < self.entries.len()
            invariant
                i <= self.entries.len(),
                forall|j: int| 0 <= j < i ==> self.records()[j].0 != key@,
            decreases self.entries.len() - i,
        {
            if self.entries[i].0 == *key {
                return Some(i);
            }
            i = i + 1;
        }
        proof {
            lemma_map_of_dom(self.records(), key@);
        }
        None
    }

    /// The count of `key`, zero where the site has not been seen.
    pub fn count(&self, key: &String) -> (r: u64)
        requires
            self.wf(),
        ensures
            r == count_in(self@, key@),
    {
        match self.position(key) {
            Some(i) => {
                proof {
                    lemma_map_of_value(self.records(), i as int);
                }
                self.entries[i].1
            },
            None => 0,
        }
    }

    /// Sets the count of `key`, adding the site where it is new.
    pub fn insert(&mut self, key: String, count: u64)
        requires
            old(self).wf(),
        ensures
            final(self).wf(),
            final(self)@ == old(self)@.insert(key@, count),
    {
        match self.position(&key) {
            Some(i) => {
                proof {
                    lemma_map_of_update(self.records(), i as int, count);
                }
                self.entries.set(i, (key, count));
                assert(self.records() =~= old(self).records().update(
                    i as int,
                    (old(self).records()[i as int].0, count),
                ));
            },
            None => {
                proof {
                    lemma_map_of_dom(self.records(), key@);
                }
                let ghost k = key@;
                self.entries.push((key, count));
                assert(self.records() =~= old(self).records().push((k, count)));
                assert(self.records().drop_last() =~= old(self).records());
            },
        }
    }

    /// Counts one more visit of `key` and returns the new count: 1 for a
    /// site not seen before.
    pub fn increment_and_get(&mut self, key: String) -> (r: u64)
        requires
            old(self).wf(),
            count_in(old(self)@, key@) < u64::MAX,
        ensures
            final(self).wf(),
            r == count_in(old(self)@, key@) + 1,
            final(self)@ == bumped(old(self)@, key@),
    {
        let c = self.count(&key);
        self.insert(key, c + 1);
        c + 1
    }
}

} // verus!
