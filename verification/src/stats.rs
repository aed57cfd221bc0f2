use vstd::prelude::*;

verus! {

/// The number of positive entries of `s`.
pub open spec fn positives(s: Seq<usize>) -> nat
    decreases s.len(),
{
    if s.len() == 0 {
        0
    } else {
        positives(s.drop_last()) + if s.last() > 0 { 1nat } else { 0nat }
    }
}

/// The number of `true` entries of `s`.
pub open spec fn trues(s: Seq<bool>) -> nat
    decreases s.len(),
{
    if s.len() == 0 {
        0
    } else {
        trues(s.drop_last()) + if s.last() { 1nat } else { 0nat }
    }
}

/// `trues` counts every flag that is set, wherever it stands: it is the
/// length of the flags kept by `filter` on being set.
pub proof fn lemma_trues_counts_every_set_flag(s: Seq<bool>)
    ensures
        trues(s) == s.filter(|b: bool| b).len(),
        trues(s) <= s.len(),
    decreases s.len(),
{
    reveal(Seq::filter);
    if s.len() > 0 {
        lemma_trues_counts_every_set_flag(s.drop_last());
    }
}

/// `positives` counts every entry above zero, wherever it stands: it is the
/// length of the entries kept by `filter` on being positive.
pub proof fn lemma_positives_counts_every_positive_entry(s: Seq<usize>)
    ensures
        positives(s) == s.filter(|c: usize| c > 0).len(),
        positives(s) <= s.len(),
    decreases s.len(),
{
    reveal(Seq::filter);
    if s.len() > 0 {
        lemma_positives_counts_every_positive_entry(s.drop_last());
    }
}

/// The number of entries above zero: how many numbers were met at least
/// once.
pub fn count_positive(counts: &[usize]) -> (n: usize)
    ensures
        n == positives(counts@),
        n == counts@.filter(|c: usize| c > 0).len(),
{
    let mut n: usize = 0;
    let mut i: usize = 0;
    while i < counts.len()
        invariant
            i <= counts@.len(),
            n == positives(counts@.take(i as int)),
            n <= i,
        decreases counts@.len() - i,
    {
        assert(counts@.take(i + 1).drop_last() =~= counts@.take(i as int));
        if counts[i] > 0 {
            n += 1;
        }
        i += 1;
    }
    assert(counts@.take(i as int) =~= counts@);
    proof {
        lemma_positives_counts_every_positive_entry(counts@);
    }
    n
}

/// The number of flags set: how many numbers were met at least once.
pub fn count_true(flags: &[bool]) -> (n: usize)
    ensures
        n == trues(flags@),
        n == flags@.filter(|b: bool| b).len(),
{
    let mut n: usize = 0;
    let mut i: usize = 0;
    while i < flags.len()
        invariant
            i <= flags@.len(),
            n == trues(flags@.take(i as int)),
            n <= i,
        decreases flags@.len() - i,
    {
        assert(flags@.take(i + 1).drop_last() =~= flags@.take(i as int));
        if flags[i] {
            n += 1;
        }
        i += 1;
    }
    assert(flags@.take(i as int) =~= flags@);
    proof {
        lemma_trues_counts_every_set_flag(flags@);
    }
    n
}

/// The entry with the greatest count, as its index and count; of several
/// such entries, the last one, as `Iterator::max_by_key` picks it. `None`
/// when there is no entry.
pub fn last_max(counts: &[usize]) -> (best: Option<(usize, usize)>)
    ensures
        match best {
            None => counts@.len() == 0,
            Some((index, count)) => {
                &&& index < counts@.len()
                &&& count == counts@[index as int]
                &&& forall|j: int| 0 <= j < counts@.len() ==> #[trigger] counts@[j] <= count
                &&& forall|j: int| index < j < counts@.len() ==> #[trigger] counts@[j] < count
            },
        },
{
    if counts.len() == 0 {
        return None;
    }
    let mut index: usize = 0;
    let mut i: usize = 1;
    while i < counts.len()
        invariant
            1 <= i <= counts@.len(),
            index < i,
            forall|j: int| 0 <= j < i ==> #[trigger] counts@[j] <= counts@[index as int],
            forall|j: int| index < j < i ==> #[trigger] counts@[j] < counts@[index as int],
        decreases counts@.len() - i,
    {
        if counts[i] >= counts[index] {
            index = i;
        }
        i += 1;
    }
    Some((index, counts[index]))
}

/// `table` after one more count at each entry of `offsets`, in order.
pub open spec fn tallied(table: Seq<usize>, offsets: Seq<usize>) -> Seq<int>
    decreases offsets.len(),
{
    if offsets.len() == 0 {
        table.map_values(|c: usize| c as int)
    } else {
        let before = tallied(table, offsets.drop_last());
        before.update(offsets.last() as int, before[offsets.last() as int] + 1)
    }
}

/// After tallying, each entry of the table has grown by the number of times
/// its index occurs among the offsets, and its length is unchanged.
pub proof fn lemma_tallied_counts_each_offset(table: Seq<usize>, offsets: Seq<usize>)
    requires
        forall|k: int| 0 <= k < offsets.len() ==> (#[trigger] offsets[k]) < table.len(),
    ensures
        tallied(table, offsets).len() == table.len(),
        forall|j: int| 0 <= j < table.len() ==> #[trigger] tallied(table, offsets)[j]
            == table[j] + offsets.filter(|o: usize| o == j).len(),
    decreases offsets.len(),
{
    reveal(Seq::filter);
    if offsets.len() > 0 {
        let shorter = offsets.drop_last();
        assert forall|k: int| 0 <= k < shorter.len() implies (#[trigger] shorter[k]) < table.len() by {
            assert(shorter[k] == offsets[k]);
        }
        lemma_tallied_counts_each_offset(table, shorter);
        assert(offsets.last() < table.len()) by {
            assert(offsets[offsets.len() - 1] < table.len());
        }
        assert forall|j: int| 0 <= j < table.len() implies #[trigger] tallied(table, offsets)[j]
            == table[j] + offsets.filter(|o: usize| o == j).len() by {
            assert(offsets.filter(|o: usize| o == j) == if offsets.last() == j {
                shorter.filter(|o: usize| o == j).push(offsets.last())
            } else {
                shorter.filter(|o: usize| o == j)
            });
        }
    }
}

/// Adds one count at each entry of `offsets`, in order. Returns the index
/// into `offsets` of the first one that is past the end of `table` or whose
/// count is already `usize::MAX`, with the earlier ones added.
pub fn add_offsets(table: &mut Vec<usize>, offsets: &[usize]) -> (res: Result<(), usize>)
    ensures
        final(table)@.len() == old(table)@.len(),
        match res {
            Ok(()) => final(table)@.map_values(|c: usize| c as int) == tallied(old(table)@, offsets@),
            Err(i) => {
                &&& i < offsets@.len()
                &&& final(table)@.map_values(|c: usize| c as int) == tallied(old(table)@, offsets@.take(i as int))
                &&& (offsets@[i as int] >= old(table)@.len() || final(table)@[offsets@[i as int] as int] == usize::MAX)
            },
        },
{
    let mut i: usize = 0;
    while i < offsets.len()
        invariant
            i <= offsets@.len(),
            table@.len() == old(table)@.len(),
            table@.map_values(|c: usize| c as int) == tallied(old(table)@, offsets@.take(i as int)),
        decreases offsets@.len() - i,
    {
        let index = offsets[i];
        if index >= table.len() || table[index] == usize::MAX {
            return Err(i);
        }
        assert(offsets@.take(i + 1).drop_last() =~= offsets@.take(i as int));
        let count = table[index];
        table.set(index, count + 1);
        assert(table@.map_values(|c: usize| c as int) =~= tallied(old(table)@, offsets@.take(i + 1)));
        i += 1;
    }
    assert(offsets@.take(i as int) =~= offsets@);
    Ok(())
}

} // verus!
