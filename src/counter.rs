//! The counter itself.
use ahash::AHashMap;
use vstd::prelude::*;

use crate::map::{map_contents, map_entries, map_entry_or_insert, map_get, map_new};
use crate::model::{
    after_update, count_of, enumerates, fits_update, lemma_after_update_push,
    lemma_enumeration_sum, lemma_occurrences_bound, lemma_occurrences_prefix, occurrences, sum_counts,
    sum_values,
};

verus! {

/// Counts occurrences of `u64` items. An item that was never counted
/// reads as zero.
#[derive(Debug)]
pub struct Counter {
    map: AHashMap<u64, u64>,
    zero: u64,
}

impl View for Counter {
    type V = Map<u64, u64>;

    closed spec fn view(&self) -> Map<u64, u64> {
        map_contents(self.map)
    }
}

impl Counter {
    /// A counter is well formed when its cached zero is zero and it holds
    /// finitely many entries.
    pub closed spec fn wf(&self) -> bool {
        self.zero == 0 && self@.dom().finite()
    }

    /// An empty counter.
    pub fn new() -> (r: Counter)
        ensures
            r.wf(),
            r@ =~= Map::empty(),
    {
        Counter { map: map_new(), zero: 0 }
    }

    /// A counter holding, for each item of `items`, the number of times
    /// it occurs there.
    pub fn init(items: &[u64]) -> (r: Counter)
        ensures
            r.wf(),
            r@ == after_update(Map::empty(), items@),
    {
        let mut counter = Counter::new();
        let len = items.len();
        proof {
            // no item occurs more often than the slice is long, which fits a count
            assert(items@.len() == len);
            assert forall|k: u64|
                count_of(counter@, k) + occurrences(items@, k) <= u64::MAX by {
                lemma_occurrences_bound(items@, k);
            }
        }
        counter.update(items);
        counter
    }

    /// Counts each item of `items` once more, adding an entry for each
    /// item not seen before.
    pub fn update(&mut self, items: &[u64])
        requires
            old(self).wf(),
            fits_update(old(self)@, items@),
        ensures
            final(self).wf(),
            final(self)@ == after_update(old(self)@, items@),
    {
        let ghost start = self@;
        let mut i: usize = 0;
        assert(items@.take(0) =~= Seq::<u64>::empty());
        assert(after_update(start, items@.take(0)) =~= start);
        while i < items.len()
            invariant
                self.wf(),
                i <= items.len(),
                fits_update(start, items@),
                self@ == after_update(start, items@.take(i as int)),
            decreases items.len() - i,
        {
            let item = items[i];
            proof {
                let done = items@.take(i as int);
                assert(items@.take(i as int + 1) =~= done.push(item));
                assert forall|k: u64| count_of(start, k) + occurrences(done.push(item), k) <= u64::MAX by {
                    lemma_occurrences_prefix(items@, i as int + 1, k);
                }
                lemma_after_update_push(start, done, item);
                lemma_occurrences_prefix(items@, i as int + 1, item);
                assert(done.push(item).drop_last() =~= done);
                assert(count_of(self@, item) + 1 <= u64::MAX) by {
                    assert(count_of(start, item) + occurrences(done.push(item), item)
                        <= u64::MAX);
                }
            }
            let entry = map_entry_or_insert(&mut self.map, item, 0);
            *entry = *entry + 1;
            i = i + 1;
        }
        assert(items@.take(items.len() as int) =~= items@);
    }

    /// The count of `key`: zero where it has no entry. Nothing changes.
    pub fn index(&self, key: &u64) -> (r: &u64)
        requires
            self.wf(),
        ensures
            *r == count_of(self@, *key),
    {
        match map_get(&self.map, key) {
            Some(v) => v,
            None => &self.zero,
        }
    }

    /// A handle to the count of `key`, which first gets an entry of zero
    /// where it has none.
    pub fn index_mut(&mut self, key: &u64) -> (r: &mut u64)
        requires
            old(self).wf(),
        ensures
            *r == count_of(old(self)@, *key),
            final(self).wf(),
            final(self)@ == old(self)@.insert(*key, *final(r)),
    {
        map_entry_or_insert(&mut self.map, *key, 0)
    }

    /// The map that holds the entries.
    pub fn get_map(&self) -> (r: &AHashMap<u64, u64>)
        ensures
            map_contents(*r) == self@,
    {
        &self.map
    }

    /// Gives up the counter for the map that holds its entries.
    pub fn into_map(self) -> (r: AHashMap<u64, u64>)
        ensures
            map_contents(r) == self@,
    {
        self.map
    }

    /// Every entry once, as an (item, count) pair, in no fixed order.
    pub fn iter(&self) -> (r: Vec<(u64, u64)>)
        ensures
            enumerates(r@, self@),
    {
        map_entries(&self.map)
    }

    /// Gives up the counter for its entries, each once, as (item, count)
    /// pairs in no fixed order.
    pub fn into_iter(self) -> (r: Vec<(u64, u64)>)
        ensures
            enumerates(r@, self@),
    {
        map_entries(&self.map)
    }

    /// The sum of all counts.
    pub fn total(&self) -> (r: u128)
        requires
            self.wf(),
        ensures
            r == sum_values(self@),
    {
        let entries = map_entries(&self.map);
        let mut sum: u128 = 0;
        let mut i: usize = 0;
        while i < entries.len()
            invariant
                i <= entries.len(),
                sum == sum_counts(entries@.take(i as int)),
                sum <= i * (u64::MAX as int),
            decreases entries.len() - i,
        {
            let v = entries[i].1;
            proof {
                let done = entries@.take(i as int);
                assert(entries@.take(i as int + 1).drop_last() =~= done);
                let n = i as int;
                assert(sum + v <= (n + 1) * (u64::MAX as int)) by (nonlinear_arith)
                    requires
                        sum <= n * (u64::MAX as int),
                        v <= u64::MAX,
                ;
                assert((n + 1) * (u64::MAX as int) <= (usize::MAX as int) * (u64::MAX as int))
                    by (nonlinear_arith)
                    requires
                        n + 1 <= usize::MAX,
                ;
            }
            sum = sum + v as u128;
            i = i + 1;
        }
        proof {
            assert(entries@.take(entries.len() as int) =~= entries@);
            lemma_enumeration_sum(entries@, self@);
        }
        sum
    }
}

impl Clone for Counter {
    /// A counter with the same entries.
    fn clone(&self) -> (r: Counter)
        ensures
            r.wf() == self.wf(),
            r@ == self@,
    {
        let entries = map_entries(&self.map);
        let mut map = map_new();
        let mut i: usize = 0;
        while i < entries.len()
            invariant
                i <= entries.len(),
                enumerates(entries@, self@),
                forall|k: u64|
                    map_contents(map).contains_key(k) <==> exists|j: int|
                        0 <= j < i && entries@[j].0 == k,
                forall|k: u64| #[trigger]
                    map_contents(map).contains_key(k) ==> map_contents(map)[k] == self@[k],
            decreases entries.len() - i,
        {
            let (k, v) = entries[i];
            proof {
                if map_contents(map).contains_key(k) {
                    let j = choose|j: int| 0 <= j < i && entries@[j].0 == k;
                    assert(entries@[j].0 == entries@[i as int].0);
                }
            }
            let _ = map_entry_or_insert(&mut map, k, v);
            i = i + 1;
            proof {
                assert forall|k2: u64|
                    map_contents(map).contains_key(k2) implies exists|j: int|
                        0 <= j < i && entries@[j].0 == k2 by {
                    if k2 == k {
                        assert(entries@[i - 1].0 == k2);
                    }
                }
            }
        }
        proof {
            assert forall|k: u64| self@.contains_key(k) implies map_contents(map).contains_key(k) by {
                let j = choose|j: int| 0 <= j < entries.len() && entries@[j].0 == k;
                assert(entries@[j].0 == k);
            }
            assert(map_contents(map) =~= self@);
        }
        Counter { map, zero: self.zero }
    }
}

impl PartialEq for Counter {
    /// Two counters are equal when they hold the same entries.
    fn eq(&self, other: &Counter) -> (r: bool)
        ensures
            r == (self@ == other@),
    {
        let mine = map_entries(&self.map);
        let theirs = map_entries(&other.map);
        if mine.len() != theirs.len() {
            return false;
        }
        let mut i: usize = 0;
        while i < mine.len()
            invariant
                i <= mine.len(),
                enumerates(mine@, self@),
                mine@.len() == other@.len(),
                forall|j: int|
                    0 <= j < i ==> other@.contains_key(#[trigger] mine@[j].0) && other@[mine@[j].0]
                        == mine@[j].1,
            decreases mine.len() - i,
        {
            let (k, v) = mine[i];
            match map_get(&other.map, &k) {
                Some(w) => {
                    if *w != v {
                        return false;
                    }
                },
                None => {
                    return false;
                },
            }
            i = i + 1;
        }
        proof {
            assert forall|k: u64| self@.contains_key(k) implies other@.contains_key(k) && other@[k]
                == self@[k] by {
                let j = choose|j: int| 0 <= j < mine.len() && mine@[j].0 == k;
                assert(mine@[j].0 == k);
            }
            assert(self@.dom().subset_of(other@.dom()));
            vstd::set_lib::lemma_len_subset(self@.dom(), other@.dom());
            vstd::set_lib::lemma_subset_equality(self@.dom(), other@.dom());
            assert(self@ =~= other@);
        }
        true
    }
}

impl vstd::std_specs::cmp::PartialEqSpecImpl for Counter {
    open spec fn obeys_eq_spec() -> bool {
        true
    }

    open spec fn eq_spec(&self, other: &Counter) -> bool {
        self@ == other@
    }
}

impl Eq for Counter {}

impl Default for Counter {
    /// An empty counter.
    fn default() -> (r: Counter)
        ensures
            r.wf(),
            r@ =~= Map::empty(),
    {
        Counter::new()
    }
}

} // verus!
