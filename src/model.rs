//! The mathematical model of a counter: its entries as a `Map` from item
//! to count, and the spec functions its operations are stated over.
use vstd::prelude::*;

verus! {

/// The count that `m` gives `k`: its entry, or zero where it has none.
pub open spec fn count_of(m: Map<u64, u64>, k: u64) -> nat {
    if m.contains_key(k) {
        m[k] as nat
    } else {
        0
    }
}

/// How many times `k` occurs in `s`.
pub open spec fn occurrences(s: Seq<u64>, k: u64) -> nat
    decreases s.len(),
{
    if s.len() == 0 {
        0
    } else {
        occurrences(s.drop_last(), k) + if s.last() == k {
            1nat
        } else {
            0nat
        }
    }
}

/// The entries after counting every item of `s` once on top of `m`: an
/// entry for each key of `m` and each item of `s`, holding the old count
/// plus the number of occurrences.
pub open spec fn after_update(m: Map<u64, u64>, s: Seq<u64>) -> Map<u64, u64> {
    Map::new(
        |k: u64| m.contains_key(k) || s.contains(k),
        |k: u64| (count_of(m, k) + occurrences(s, k)) as u64,
    )
}

/// Counting `s` on top of `m` overflows no count.
pub open spec fn fits_update(m: Map<u64, u64>, s: Seq<u64>) -> bool {
    forall|k: u64| count_of(m, k) + occurrences(s, k) <= u64::MAX
}

/// `s` lists every entry of `m` exactly once, in some order.
pub open spec fn enumerates(s: Seq<(u64, u64)>, m: Map<u64, u64>) -> bool {
    &&& m.dom().finite()
    &&& s.len() == m.len()
    &&& forall|i: int, j: int|
        0 <= i < s.len() && 0 <= j < s.len() && i != j ==> s[i].0 != s[j].0
    &&& forall|i: int| 0 <= i < s.len() ==> m.contains_key(s[i].0) && m[s[i].0] == s[i].1
    &&& forall|k: u64| m.contains_key(k) ==> exists|i: int| 0 <= i < s.len() && s[i].0 == k
}

/// The sum of all counts that `m` holds.
pub open spec fn sum_values(m: Map<u64, u64>) -> nat
    decreases m.len(),
    when m.dom().finite()
{
    if m.len() > 0 {
        let k = m.dom().choose();
        m[k] as nat + sum_values(m.remove(k))
    } else {
        0
    }
}

/// The sum of the counts in a sequence of entries.
pub open spec fn sum_counts(s: Seq<(u64, u64)>) -> nat
    decreases s.len(),
{
    if s.len() == 0 {
        0
    } else {
        sum_counts(s.drop_last()) + s.last().1 as nat
    }
}

/// Taking out one entry takes its count out of the sum, whichever entry
/// the sum happened to pick first.
pub proof fn lemma_sum_remove(m: Map<u64, u64>, k: u64)
    requires
        m.dom().finite(),
        m.contains_key(k),
    ensures
        sum_values(m) == m[k] + sum_values(m.remove(k)),
    decreases m.len(),
{
    let c = m.dom().choose();
    if c != k {
        lemma_sum_remove(m.remove(c), k);
        lemma_sum_remove(m.remove(k), c);
        assert(m.remove(c).remove(k) =~= m.remove(k).remove(c));
    }
}

/// Setting the entry of `k` to `v` replaces its count in the sum by `v`.
pub proof fn lemma_sum_insert(m: Map<u64, u64>, k: u64, v: u64)
    requires
        m.dom().finite(),
    ensures
        sum_values(m.insert(k, v)) + count_of(m, k) == sum_values(m) + v,
{
    let n = m.insert(k, v);
    lemma_sum_remove(n, k);
    if m.contains_key(k) {
        lemma_sum_remove(m, k);
        assert(n.remove(k) =~= m.remove(k));
    } else {
        assert(n.remove(k) =~= m);
    }
}

/// The counts of an enumeration of `m` add up to the sum of `m`.
pub proof fn lemma_enumeration_sum(s: Seq<(u64, u64)>, m: Map<u64, u64>)
    requires
        enumerates(s, m),
    ensures
        sum_counts(s) == sum_values(m),
    decreases s.len(),
{
    if s.len() > 0 {
        let last = s.len() - 1;
        let k = s[last].0;
        let rest = s.drop_last();
        let smaller = m.remove(k);
        assert forall|k2: u64| smaller.contains_key(k2) implies exists|i: int|
            0 <= i < rest.len() && rest[i].0 == k2 by {
            let i = choose|i: int| 0 <= i < s.len() && s[i].0 == k2;
            assert(rest[i].0 == k2);
        }
        assert(enumerates(rest, smaller));
        lemma_enumeration_sum(rest, smaller);
        lemma_sum_remove(m, k);
    }
}

/// Occurrences in a prefix never exceed those in the whole sequence.
pub proof fn lemma_occurrences_prefix(s: Seq<u64>, j: int, k: u64)
    requires
        0 <= j <= s.len(),
    ensures
        occurrences(s.take(j), k) <= occurrences(s, k),
    decreases s.len(),
{
    if j < s.len() {
        assert(s.take(j) =~= s.drop_last().take(j));
        lemma_occurrences_prefix(s.drop_last(), j, k);
    } else {
        assert(s.take(j) =~= s);
    }
}

/// An item occurs at most as often as the sequence is long.
pub proof fn lemma_occurrences_bound(s: Seq<u64>, k: u64)
    ensures
        occurrences(s, k) <= s.len(),
    decreases s.len(),
{
    if s.len() > 0 {
        lemma_occurrences_bound(s.drop_last(), k);
    }
}

/// An item that does not occur in `s` occurs zero times.
pub proof fn lemma_occurrences_absent(s: Seq<u64>, k: u64)
    requires
        !s.contains(k),
    ensures
        occurrences(s, k) == 0,
    decreases s.len(),
{
    if s.len() > 0 {
        let r = s.drop_last();
        assert(!r.contains(k)) by {
            if r.contains(k) {
                let i = choose|i: int| 0 <= i < r.len() && r[i] == k;
                assert(s[i] == k);
            }
        }
        assert(s[s.len() - 1] != k);
        lemma_occurrences_absent(r, k);
    }
}

/// Counting one more item `x` after `s` adds one to the entry of `x`.
pub proof fn lemma_after_update_push(m: Map<u64, u64>, s: Seq<u64>, x: u64)
    requires
        fits_update(m, s.push(x)),
    ensures
        after_update(m, s.push(x)) == after_update(m, s).insert(
            x,
            (count_of(after_update(m, s), x) + 1) as u64,
        ),
{
    let t = s.push(x);
    assert(t.drop_last() =~= s);
    assert forall|k: u64| #[trigger] t.contains(k) <==> s.contains(k) || k == x by {
        if s.contains(k) {
            let i = choose|i: int| 0 <= i < s.len() && s[i] == k;
            assert(t[i] == k);
        }
        if t.contains(k) && k != x {
            let i = choose|i: int| 0 <= i < t.len() && t[i] == k;
            assert(s[i] == k);
        }
        if k == x {
            assert(t[s.len() as int] == k);
        }
    }
    assert forall|k: u64| count_of(m, k) + occurrences(s, k) <= u64::MAX by {
        assert(count_of(m, k) + occurrences(t, k) <= u64::MAX);
    }
    if !s.contains(x) {
        lemma_occurrences_absent(s, x);
    }
    assert(after_update(m, s.push(x)) =~= after_update(m, s).insert(
        x,
        (count_of(after_update(m, s), x) + 1) as u64,
    ));
}

/// A fresh counter reads zero for every item.
pub proof fn lemma_fresh_reads_zero(k: u64)
    ensures
        count_of(Map::empty(), k) == 0,
{
}

/// Counting a sequence from nothing gives each item its number of
/// occurrences, and every counted item an entry.
pub proof fn lemma_init_counts(s: Seq<u64>, k: u64)
    requires
        s.len() <= usize::MAX,
    ensures
        count_of(after_update(Map::empty(), s), k) == occurrences(s, k),
{
    lemma_occurrences_bound(s, k);
    if !s.contains(k) {
        lemma_occurrences_absent(s, k);
    }
}

/// Counting a sequence from nothing gives finitely many entries whose
/// counts add up to the length of the sequence.
pub proof fn lemma_init_total(s: Seq<u64>)
    requires
        s.len() <= usize::MAX,
    ensures
        after_update(Map::empty(), s).dom().finite(),
        sum_values(after_update(Map::empty(), s)) == s.len(),
    decreases s.len(),
{
    let e = Map::<u64, u64>::empty();
    if s.len() == 0 {
        assert(after_update(e, s).dom() =~= Set::empty());
    } else {
        let r = s.drop_last();
        let x = s.last();
        assert(r.push(x) =~= s);
        lemma_init_total(r);
        assert forall|k: u64| count_of(e, k) + occurrences(s, k) <= u64::MAX by {
            lemma_occurrences_bound(s, k);
        }
        lemma_after_update_push(e, r, x);
        let a = after_update(e, r);
        lemma_sum_insert(a, x, (count_of(a, x) + 1) as u64);
        lemma_init_counts(r, x);
        lemma_occurrences_bound(r, x);
    }
}

/// Counting an empty sequence changes nothing.
pub proof fn lemma_update_empty(m: Map<u64, u64>)
    ensures
        after_update(m, Seq::empty()) == m,
{
    assert(after_update(m, Seq::empty()) =~= m);
}

/// After a count is set through a handle, reading it gives the value set.
pub proof fn lemma_write_then_read(m: Map<u64, u64>, k: u64, v: u64)
    ensures
        count_of(m.insert(k, v), k) == v,
{
}

/// An enumeration of a map has one pair per entry, each pair holding an
/// entry of the map, and no entry left out.
pub proof fn lemma_enumeration_matches(s: Seq<(u64, u64)>, m: Map<u64, u64>)
    requires
        enumerates(s, m),
    ensures
        s.len() == m.len(),
        forall|i: int| 0 <= i < s.len() ==> m.contains_key(s[i].0) && m[s[i].0] == s[i].1,
        forall|k: u64| m.contains_key(k) ==> exists|i: int| 0 <= i < s.len() && s[i] == (k, m[k]),
{
    assert forall|k: u64| m.contains_key(k) implies exists|i: int|
        0 <= i < s.len() && s[i] == (k, m[k]) by {
        let i = choose|i: int| 0 <= i < s.len() && s[i].0 == k;
        assert(s[i] == (k, m[k]));
    }
}

} // verus!
