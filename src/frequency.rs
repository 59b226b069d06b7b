//! The static frequency model: one entry `(symbol, count, cumulative_start)`
//! per distinct symbol, in ascending symbol order, with the cumulative starts
//! running from 0 up to the total.

use vstd::prelude::*;

verus! {

/// One model entry: symbol id, count, cumulative start.
pub type Entry = (u32, u64, u64);

/// How often `s` occurs in `syms`.
pub open spec fn count_of(syms: Seq<u32>, s: u32) -> nat
    decreases syms.len(),
{
    if syms.len() == 0 {
        0
    } else {
        count_of(syms.drop_last(), s) + if syms.last() == s { 1nat } else { 0nat }
    }
}

/// The sum of the counts of a table.
pub open spec fn sum_counts(t: Seq<Entry>) -> nat
    decreases t.len(),
{
    if t.len() == 0 {
        0
    } else {
        sum_counts(t.drop_last()) + t.last().1 as nat
    }
}

/// Symbol ids strictly ascend.
pub open spec fn ids_increasing(t: Seq<Entry>) -> bool {
    forall|i: int, j: int| 0 <= i < j < t.len() ==> t[i].0 < t[j].0
}

/// Every count is positive, the first start is 0, each start is the one
/// before plus its count, and the last range ends at `total`.
pub open spec fn cumulative_ok(t: Seq<Entry>, total: int) -> bool {
    &&& forall|i: int| 0 <= i < t.len() ==> t[i].1 > 0
    &&& t.len() > 0 ==> t[0].2 == 0
    &&& forall|i: int| 0 <= i < t.len() - 1 ==> #[trigger] t[i + 1].2 == t[i].2 + t[i].1
    &&& if t.len() == 0 {
        total == 0
    } else {
        t.last().2 + t.last().1 == total
    }
}

/// A table that the coder can work with: ascending ids and contiguous
/// cumulative ranges that cover `[0, total)`.
pub open spec fn table_ok(t: Seq<Entry>, total: int) -> bool {
    ids_increasing(t) && cumulative_ok(t, total)
}

/// `t` is the frequency table of `syms`: a valid table over
/// `syms.len()`, holding exactly the symbols that occur, each with its count.
pub open spec fn is_table_of(t: Seq<Entry>, syms: Seq<u32>) -> bool {
    &&& table_ok(t, syms.len() as int)
    &&& forall|i: int| 0 <= i < t.len() ==> t[i].1 == count_of(syms, t[i].0)
    &&& forall|s: u32| syms.contains(s) ==> exists|i: int| 0 <= i < t.len() && t[i].0 == s
}

/// The index of symbol `s` in an ascending table.
pub open spec fn index_of(t: Seq<Entry>, s: u32) -> int {
    choose|i: int| 0 <= i < t.len() && t[i].0 == s
}

/// The index of the entry whose cumulative range holds `target`.
pub open spec fn slot_of(t: Seq<Entry>, target: int) -> int {
    choose|i: int| 0 <= i < t.len() && (#[trigger] t[i]).2 <= target < t[i].2 + t[i].1
}

/// Result of the frequency analysis of a symbol sequence.
pub struct FrequencyAnalysisWisdom {
    /// `(symbol, count, cumulative_start)`, ascending by symbol.
    pub frequency_entries: Vec<Entry>,
    /// Sum of all counts: the number of symbols.
    pub total_frequency_mass: u64,
}

/// A symbol occurs at most as often as there are symbols.
pub proof fn lemma_count_le(syms: Seq<u32>, s: u32)
    ensures
        count_of(syms, s) <= syms.len(),
    decreases syms.len(),
{
    if syms.len() > 0 {
        lemma_count_le(syms.drop_last(), s);
    }
}

/// Counting over one more symbol.
pub proof fn lemma_count_push(syms: Seq<u32>, x: u32, s: u32)
    ensures
        count_of(syms.push(x), s) == count_of(syms, s) + if x == s { 1nat } else { 0nat },
{
    assert(syms.push(x).drop_last() == syms);
}

/// A symbol with a positive count occurs.
pub proof fn lemma_count_pos(syms: Seq<u32>, s: u32)
    requires
        count_of(syms, s) > 0,
    ensures
        syms.contains(s),
    decreases syms.len(),
{
    if syms.last() == s {
        assert(syms[syms.len() - 1] == s);
    } else {
        lemma_count_pos(syms.drop_last(), s);
        let i = choose|i: int| 0 <= i < syms.drop_last().len() && syms.drop_last()[i] == s;
        assert(syms[i] == s);
    }
}

/// Replacing an entry changes the sum of counts by the difference.
proof fn lemma_sum_update(t: Seq<Entry>, i: int, e: Entry)
    requires
        0 <= i < t.len(),
    ensures
        sum_counts(t.update(i, e)) + t[i].1 == sum_counts(t) + e.1,
    decreases t.len(),
{
    if i < t.len() - 1 {
        lemma_sum_update(t.drop_last(), i, e);
        assert(t.update(i, e).drop_last() == t.drop_last().update(i, e));
    } else {
        assert(t.update(i, e).drop_last() == t.drop_last());
    }
}

/// Inserting an entry adds its count to the sum.
proof fn lemma_sum_insert(t: Seq<Entry>, i: int, e: Entry)
    requires
        0 <= i <= t.len(),
    ensures
        sum_counts(t.insert(i, e)) == sum_counts(t) + e.1,
    decreases t.len(),
{
    if i < t.len() {
        lemma_sum_insert(t.drop_last(), i, e);
        assert(t.insert(i, e).drop_last() == t.drop_last().insert(i, e));
    } else {
        assert(t.insert(i, e).drop_last() == t);
    }
}

/// In a table with contiguous ranges, every range ends before any later one
/// starts.
pub proof fn lemma_ranges_ordered(t: Seq<Entry>, total: int, i: int, j: int)
    requires
        cumulative_ok(t, total),
        0 <= i < j < t.len(),
    ensures
        t[i].2 + t[i].1 <= t[j].2,
    decreases j - i,
{
    assert(t[j - 1 + 1].2 == t[j - 1].2 + t[j - 1].1);
    if i < j - 1 {
        lemma_ranges_ordered(t, total, i, j - 1);
    }
}

/// Every range of a valid table lies within `[0, total]`.
pub proof fn lemma_ranges_within(t: Seq<Entry>, total: int, i: int)
    requires
        cumulative_ok(t, total),
        0 <= i < t.len(),
    ensures
        0 <= t[i].2,
        t[i].2 + t[i].1 <= total,
{
    if i < t.len() - 1 {
        lemma_ranges_ordered(t, total, i, t.len() - 1);
    }
}

/// Looks up symbol `s` in a table with ascending ids: `Ok` with its index,
/// or `Err` with the index where it would be inserted.
pub fn find_symbol(table: &Vec<Entry>, s: u32) -> (r: Result<usize, usize>)
    requires
        ids_increasing(table@),
    ensures
        match r {
            Ok(i) => i < table@.len() && table@[i as int].0 == s,
            Err(p) => {
                &&& p <= table@.len()
                &&& forall|j: int| 0 <= j < p ==> table@[j].0 < s
                &&& forall|j: int| p <= j < table@.len() ==> table@[j].0 > s
            },
        },
{
    let mut lo: usize = 0;
    let mut hi: usize = table.len();
    while lo < hi
        invariant
            ids_increasing(table@),
            lo <= hi <= table@.len(),
            forall|j: int| 0 <= j < lo ==> table@[j].0 < s,
            forall|j: int| hi <= j < table@.len() ==> table@[j].0 > s,
        decreases hi - lo,
    {
        let mid = lo + (hi - lo) / 2;
        let id = table[mid].0;
        if id == s {
            return Ok(mid);
        } else if id < s {
            lo = mid + 1;
        } else {
            hi = mid;
        }
    }
    Err(lo)
}

/// The index of the entry whose cumulative range holds `target`, found by
/// binary search.
pub fn find_slot(table: &Vec<Entry>, total: u64, target: u64) -> (i: usize)
    requires
        cumulative_ok(table@, total as int),
        target < total,
    ensures
        i < table@.len(),
        table@[i as int].2 <= target < table@[i as int].2 + table@[i as int].1,
        i == slot_of(table@, target as int),
{
    let mut lo: usize = 0;
    let mut hi: usize = table.len();
    while lo < hi
        invariant
            cumulative_ok(table@, total as int),
            target < total,
            lo <= hi <= table@.len(),
            forall|j: int| 0 <= j < lo ==> table@[j].2 + table@[j].1 <= target,
            forall|j: int| hi <= j < table@.len() ==> table@[j].2 > target,
        decreases hi - lo,
    {
        let mid = lo + (hi - lo) / 2;
        let (_, count, start) = table[mid];
        proof {
            lemma_ranges_within(table@, total as int, mid as int);
        }
        if target < start {
            proof {
                assert forall|j: int| mid <= j < table@.len() implies table@[j].2 > target by {
                    if j > mid {
                        lemma_ranges_ordered(table@, total as int, mid as int, j);
                    }
                }
            }
            hi = mid;
        } else if target - start >= count {
            proof {
                assert forall|j: int| 0 <= j <= mid implies table@[j].2 + table@[j].1 <= target by {
                    if j < mid {
                        lemma_ranges_ordered(table@, total as int, j, mid as int);
                    }
                }
            }
            lo = mid + 1;
        } else {
            proof {
                lemma_slot_unique(table@, total as int, target as int, mid as int);
            }
            return mid;
        }
    }
    // Cannot be reached: the ranges cover `[0, total)` without gaps.
    proof {
        if lo == 0 {
            if table@.len() == 0 {
                assert(total == 0);
            } else {
                assert(table@[0].2 > target);
            }
        } else if lo == table@.len() {
            assert(table@[lo - 1].2 + table@[lo - 1].1 == total);
        } else {
            assert(table@[(lo - 1) + 1].2 == table@[lo - 1].2 + table@[lo - 1].1);
        }
    }
    0
}

/// The range that holds a target is the only one that does.
pub proof fn lemma_slot_unique(t: Seq<Entry>, total: int, target: int, i: int)
    requires
        cumulative_ok(t, total),
        0 <= i < t.len(),
        t[i].2 <= target < t[i].2 + t[i].1,
    ensures
        slot_of(t, target) == i,
{
    let k = slot_of(t, target);
    assert(0 <= k < t.len() && t[k].2 <= target < t[k].2 + t[k].1);
    if k < i {
        lemma_ranges_ordered(t, total, k, i);
    } else if i < k {
        lemma_ranges_ordered(t, total, i, k);
    }
}

/// The entry of a symbol in an ascending table is the only one.
pub proof fn lemma_index_unique(t: Seq<Entry>, s: u32, i: int)
    requires
        ids_increasing(t),
        0 <= i < t.len(),
        t[i].0 == s,
    ensures
        index_of(t, s) == i,
{
    let k = index_of(t, s);
    assert(0 <= k < t.len() && t[k].0 == s);
}

/// What counting has established after a prefix of the symbols: ascending
/// ids, the exact count of each, every symbol of the prefix present, and
/// the counts summing to the prefix length.
pub open spec fn counted(t: Seq<Entry>, prefix: Seq<u32>) -> bool {
    &&& ids_increasing(t)
    &&& sum_counts(t) == prefix.len()
    &&& forall|i: int| 0 <= i < t.len() ==> t[i].1 == count_of(prefix, t[i].0)
    &&& forall|i: int| 0 <= i < t.len() ==> t[i].1 > 0
    &&& forall|s: u32| prefix.contains(s) ==> exists|i: int| 0 <= i < t.len() && t[i].0 == s
}

/// Counting one more occurrence of a symbol that is already present.
proof fn lemma_count_present(t: Seq<Entry>, prefix: Seq<u32>, s: u32, i: int)
    requires
        counted(t, prefix),
        prefix.len() < u64::MAX,
        0 <= i < t.len(),
        t[i].0 == s,
    ensures
        counted(t.update(i, (s, (t[i].1 + 1) as u64, t[i].2)), prefix.push(s)),
{
    let next = prefix.push(s);
    lemma_count_le(prefix, s);
    let u = t.update(i, (s, (t[i].1 + 1) as u64, t[i].2));
    lemma_sum_update(t, i, (s, (t[i].1 + 1) as u64, t[i].2));
    assert forall|j: int| 0 <= j < u.len() implies u[j].1 == count_of(next, u[j].0) by {
        lemma_count_push(prefix, s, u[j].0);
        if j != i {
            assert(u[j] == t[j]);
            assert(t[j].0 != s);
        }
    }
    assert forall|x: u32| next.contains(x) implies exists|j: int| 0 <= j < u.len() && u[j].0 == x by {
        if x != s {
            let m = choose|m: int| 0 <= m < next.len() && next[m] == x;
            assert(prefix[m] == x);
            assert(prefix.contains(x));
            let j = choose|j: int| 0 <= j < t.len() && t[j].0 == x;
            assert(j != i);
            assert(u[j].0 == x);
        } else {
            assert(u[i].0 == x);
        }
    }
}

/// Counting the first occurrence of a symbol, inserted at its place.
proof fn lemma_count_absent(t: Seq<Entry>, prefix: Seq<u32>, s: u32, p: int)
    requires
        counted(t, prefix),
        0 <= p <= t.len(),
        forall|j: int| 0 <= j < p ==> t[j].0 < s,
        forall|j: int| p <= j < t.len() ==> t[j].0 > s,
    ensures
        counted(t.insert(p, (s, 1u64, 0u64)), prefix.push(s)),
{
    let next = prefix.push(s);
    let u = t.insert(p, (s, 1u64, 0u64));
    lemma_sum_insert(t, p, (s, 1u64, 0u64));
    assert forall|i: int| 0 <= i < u.len() implies u[i].1 == count_of(next, u[i].0) by {
        lemma_count_push(prefix, s, u[i].0);
        if i < p {
            assert(u[i] == t[i]);
        } else if i > p {
            assert(u[i] == t[i - 1]);
        } else {
            if count_of(prefix, s) > 0 {
                lemma_count_pos(prefix, s);
                let j = choose|j: int| 0 <= j < t.len() && t[j].0 == s;
                assert(false);
            }
        }
    }
    assert forall|x: u32| next.contains(x) implies exists|j: int| 0 <= j < u.len() && u[j].0 == x by {
        if x != s {
            let m = choose|m: int| 0 <= m < next.len() && next[m] == x;
            assert(prefix[m] == x);
            assert(prefix.contains(x));
            let j = choose|j: int| 0 <= j < t.len() && t[j].0 == x;
            if j < p {
                assert(u[j].0 == x);
            } else {
                assert(u[j + 1].0 == x);
            }
        } else {
            assert(u[p].0 == x);
        }
    }
    assert forall|a: int, b: int| 0 <= a < b < u.len() implies u[a].0 < u[b].0 by {
        if b < p {
        } else if b == p {
        } else if a < p {
            assert(u[b] == t[b - 1]);
        } else if a == p {
            assert(u[b] == t[b - 1]);
        } else {
            assert(u[a] == t[a - 1]);
            assert(u[b] == t[b - 1]);
        }
    }
    assert forall|i: int| 0 <= i < u.len() implies u[i].1 > 0 by {
        if i < p {
            assert(u[i] == t[i]);
        } else if i > p {
            assert(u[i] == t[i - 1]);
        }
    }
}

/// Counts each distinct symbol, in ascending symbol order; the cumulative
/// starts are left at 0.
fn count_symbols(syms: &[u32]) -> (t: Vec<Entry>)
    ensures
        counted(t@, syms@),
{
    let mut entries: Vec<Entry> = Vec::new();
    let mut k: usize = 0;
    proof {
        assert(syms@.take(0) =~= Seq::<u32>::empty());
    }
    while k < syms.len()
        invariant
            k <= syms@.len(),
            counted(entries@, syms@.take(k as int)),
        decreases syms@.len() - k,
    {
        let s = syms[k];
        let ghost prefix = syms@.take(k as int);
        proof {
            assert(syms@.take(k + 1) == prefix.push(s));
            lemma_count_le(prefix, s);
        }
        match find_symbol(&entries, s) {
            Ok(i) => {
                let (id, c, z) = entries[i];
                proof {
                    lemma_count_present(entries@, prefix, s, i as int);
                }
                entries.set(i, (id, c + 1, z));
            },
            Err(p) => {
                proof {
                    lemma_count_absent(entries@, prefix, s, p as int);
                }
                entries.insert(p, (s, 1, 0));
            },
        }
        k = k + 1;
    }
    proof {
        assert(syms@.take(syms@.len() as int) == syms@);
    }
    entries
}

/// Fills in the cumulative starts: each is the sum of the counts before it.
/// Returns the sum of all counts.
fn lay_out_ranges(entries: &mut Vec<Entry>) -> (total: u64)
    requires
        sum_counts(old(entries)@) <= u64::MAX,
    ensures
        final(entries)@.len() == old(entries)@.len(),
        forall|j: int| 0 <= j < final(entries)@.len() ==> (#[trigger] final(entries)@[j]).0 == old(entries)@[j].0
            && final(entries)@[j].1 == old(entries)@[j].1,
        total == sum_counts(old(entries)@),
        forall|j: int| 0 <= j < final(entries)@.len() - 1 ==> #[trigger] final(entries)@[j + 1].2
            == final(entries)@[j].2 + final(entries)@[j].1,
        final(entries)@.len() > 0 ==> final(entries)@[0].2 == 0,
        final(entries)@.len() > 0 ==> final(entries)@.last().2 + final(entries)@.last().1 == total,
{
    let ghost counted_t = entries@;
    let mut running: u64 = 0;
    let mut i: usize = 0;
    proof {
        assert(counted_t.take(0) =~= Seq::<Entry>::empty());
    }
    while i < entries.len()
        invariant
            i <= entries@.len(),
            entries@.len() == counted_t.len(),
            sum_counts(counted_t) <= u64::MAX,
            running as int == sum_counts(counted_t.take(i as int)),
            forall|j: int| 0 <= j < entries@.len() ==> (#[trigger] entries@[j]).0 == counted_t[j].0
                && entries@[j].1 == counted_t[j].1,
            forall|j: int| 0 <= j < i ==> (#[trigger] entries@[j]).2 == sum_counts(counted_t.take(j)),
        decreases entries@.len() - i,
    {
        proof {
            lemma_sum_prefix_le(counted_t, i as int + 1);
            assert(counted_t.take(i as int + 1).drop_last() == counted_t.take(i as int));
        }
        let (id, c, _) = entries[i];
        entries.set(i, (id, c, running));
        running = running + c;
        i = i + 1;
    }
    proof {
        assert(counted_t.take(entries@.len() as int) == counted_t);
        let t = entries@;
        assert forall|j: int| 0 <= j < t.len() - 1 implies #[trigger] t[j + 1].2 == t[j].2 + t[j].1 by {
            assert(counted_t.take(j + 1).drop_last() == counted_t.take(j));
        }
        if t.len() > 0 {
            assert(counted_t.take(t.len() - 1) == counted_t.drop_last());
        }
    }
    running
}

/// Counts each distinct symbol, sorts the symbols ascending and lays out
/// their cumulative ranges.
pub fn analyze_symbolic_frequencies(syms: &[u32]) -> (r: FrequencyAnalysisWisdom)
    ensures
        is_table_of(r.frequency_entries@, syms@),
        r.total_frequency_mass == syms@.len(),
{
    let mut entries = count_symbols(syms);
    let ghost before = entries@;
    let n = syms.len();
    assert(n as int <= u64::MAX);
    let total = lay_out_ranges(&mut entries);
    proof {
        let t = entries@;
        assert forall|i: int, j: int| 0 <= i < j < t.len() implies t[i].0 < t[j].0 by {
            assert(t[i].0 == before[i].0 && t[j].0 == before[j].0);
        }
        assert forall|i: int| 0 <= i < t.len() implies t[i].1 > 0 && t[i].1 == count_of(syms@, t[i].0) by {
            assert(t[i].0 == before[i].0 && t[i].1 == before[i].1);
        }
        assert forall|s: u32| syms@.contains(s) implies exists|i: int| 0 <= i < t.len() && t[i].0 == s by {
            let i = choose|i: int| 0 <= i < before.len() && before[i].0 == s;
            assert(t[i].0 == before[i].0);
        }
        if t.len() == 0 {
            assert(before =~= Seq::<Entry>::empty());
        }
    }
    FrequencyAnalysisWisdom { frequency_entries: entries, total_frequency_mass: total }
}

/// The sum over a prefix is at most the sum over the whole.
proof fn lemma_sum_prefix_le(t: Seq<Entry>, i: int)
    requires
        0 <= i <= t.len(),
    ensures
        sum_counts(t.take(i)) <= sum_counts(t),
    decreases t.len(),
{
    if i < t.len() {
        assert(t.drop_last().take(i) == t.take(i));
        lemma_sum_prefix_le(t.drop_last(), i);
    } else {
        assert(t.take(i) == t);
    }
}

/// A valid table has no more entries than its total: every count is at
/// least one.
pub proof fn lemma_table_len(t: Seq<Entry>, total: int)
    requires
        cumulative_ok(t, total),
    ensures
        t.len() <= total,
{
    if t.len() > 0 {
        lemma_starts_grow(t, total, t.len() - 1);
    }
}

/// With positive counts, entry `i` starts at `i` or later.
proof fn lemma_starts_grow(t: Seq<Entry>, total: int, i: int)
    requires
        cumulative_ok(t, total),
        0 <= i < t.len(),
    ensures
        t[i].2 >= i,
    decreases i,
{
    if i > 0 {
        lemma_starts_grow(t, total, i - 1);
        assert(t[(i - 1) + 1].2 == t[i - 1].2 + t[i - 1].1);
    }
}

/// Table `t` has an entry for symbol `s`.
pub open spec fn has_id(t: Seq<Entry>, s: u32) -> bool {
    exists|k: int| 0 <= k < t.len() && t[k].0 == s
}

/// A symbol sequence has one frequency table.
pub proof fn lemma_table_unique(t1: Seq<Entry>, t2: Seq<Entry>, syms: Seq<u32>)
    requires
        is_table_of(t1, syms),
        is_table_of(t2, syms),
    ensures
        t1 == t2,
{
    // Ids: both ascend over the same set of symbols.
    assert forall|i: int| 0 <= i < t1.len() implies has_id(t2, #[trigger] t1[i].0) by {
        lemma_count_pos(syms, t1[i].0);
    }
    assert forall|i: int| 0 <= i < t2.len() implies has_id(t1, #[trigger] t2[i].0) by {
        lemma_count_pos(syms, t2[i].0);
    }
    let m = if t1.len() < t2.len() { t1.len() as int } else { t2.len() as int };
    lemma_ids_agree(t1, t2, m);
    if t1.len() < t2.len() {
        assert(has_id(t1, t2[m].0));
        let k = choose|k: int| 0 <= k < t1.len() && t1[k].0 == t2[m].0;
        assert(t2[k].0 < t2[m].0);
    } else if t2.len() < t1.len() {
        assert(has_id(t2, t1[m].0));
        let k = choose|k: int| 0 <= k < t2.len() && t2[k].0 == t1[m].0;
        assert(t1[k].0 < t1[m].0);
    }
    lemma_starts_agree(t1, t2, syms, t1.len() as int);
    assert(t1 =~= t2);
}

/// Two ascending tables over the same ids agree on them, index by index.
proof fn lemma_ids_agree(t1: Seq<Entry>, t2: Seq<Entry>, m: int)
    requires
        ids_increasing(t1),
        ids_increasing(t2),
        0 <= m <= t1.len(),
        m <= t2.len(),
        forall|i: int| 0 <= i < t1.len() ==> has_id(t2, #[trigger] t1[i].0),
        forall|i: int| 0 <= i < t2.len() ==> has_id(t1, #[trigger] t2[i].0),
    ensures
        forall|i: int| 0 <= i < m ==> (#[trigger] t1[i]).0 == t2[i].0,
    decreases m,
{
    if m > 0 {
        lemma_ids_agree(t1, t2, m - 1);
        let i = m - 1;
        let a = t1[i].0;
        let b = t2[i].0;
        if a < b {
            assert(has_id(t2, a));
            let k = choose|k: int| 0 <= k < t2.len() && t2[k].0 == a;
            assert(k < i);
            assert(t1[k].0 == t2[k].0);
        } else if b < a {
            assert(has_id(t1, b));
            let k = choose|k: int| 0 <= k < t1.len() && t1[k].0 == b;
            assert(k < i);
            assert(t1[k].0 == t2[k].0);
        }
    }
}

/// Two tables of one sequence with the same ids agree entry by entry.
proof fn lemma_starts_agree(t1: Seq<Entry>, t2: Seq<Entry>, syms: Seq<u32>, m: int)
    requires
        is_table_of(t1, syms),
        is_table_of(t2, syms),
        t1.len() == t2.len(),
        0 <= m <= t1.len(),
        forall|i: int| 0 <= i < t1.len() ==> (#[trigger] t1[i]).0 == t2[i].0,
    ensures
        forall|i: int| 0 <= i < m ==> (#[trigger] t1[i]) == t2[i],
    decreases m,
{
    if m > 0 {
        lemma_starts_agree(t1, t2, syms, m - 1);
        let i = m - 1;
        assert(t1[i].0 == t2[i].0);
        assert(t1[i].1 == t2[i].1);
        if i > 0 {
            assert(t1[(i - 1) + 1].2 == t1[i - 1].2 + t1[i - 1].1);
            assert(t2[(i - 1) + 1].2 == t2[i - 1].2 + t2[i - 1].1);
            assert(t1[i - 1] == t2[i - 1]);
        }
    }
}

} // verus!
