use vstd::prelude::*;
use crate::file::{can_count, can_recount, counted, recounted};
use crate::keys::LimitKey;

verus! {

/// Whether the filtering of some row that all three have changed.
pub open spec fn filtering_changed(total: Seq<u32>, new: Seq<bool>, old: Seq<bool>) -> bool {
    exists|i: int| 0 <= i < total.len() && i < new.len() && i < old.len() && new[i] != old[i]
}

/// Counts the rows that a newly applied limit filters out: one more for
/// each row of `filtering` that is set.
pub fn count_filtering(total_filtering: &mut Vec<u32>, filtering: &[bool])
    requires
        can_count(old(total_filtering)@, filtering@),
    ensures
        final(total_filtering)@ == counted(old(total_filtering)@, filtering@),
{
    let ghost start = total_filtering@;
    let mut i: usize = 0;
    while i < total_filtering.len() && i < filtering.len()
        invariant
            total_filtering@.len() == start.len(),
            can_count(start, filtering@),
            i <= start.len(),
            forall|j: int| 0 <= j < i ==> total_filtering@[j] == counted(start, filtering@)[j],
            forall|j: int| i <= j < start.len() ==> total_filtering@[j] == start[j],
        decreases start.len() - i,
    {
        if filtering[i] {
            let t = total_filtering[i];
            total_filtering.set(i, t + 1);
        }
        i = i + 1;
    }
    proof {
        assert(total_filtering@ =~= counted(start, filtering@));
    }
}

/// Moves the counts of a file from the filtering `old_filtering` of a limit
/// to its new filtering `new_filtering`, which then takes the old one's
/// place; returns whether the filtering of a row changed.
pub fn compute_filters(
    total_filtering: &mut Vec<u32>,
    old_filtering: &mut Vec<bool>,
    new_filtering: Vec<bool>,
) -> (changed: bool)
    requires
        can_recount(old(total_filtering)@, new_filtering@, old(old_filtering)@),
    ensures
        final(total_filtering)@ == recounted(old(total_filtering)@, new_filtering@, old(old_filtering)@),
        final(old_filtering)@ == new_filtering@,
        changed == filtering_changed(old(total_filtering)@, new_filtering@, old(old_filtering)@),
{
    let ghost start = total_filtering@;
    let ghost previous = old_filtering@;
    let mut changed = false;
    let mut i: usize = 0;
    while i < total_filtering.len() && i < new_filtering.len() && i < old_filtering.len()
        invariant
            total_filtering@.len() == start.len(),
            old_filtering@ == previous,
            can_recount(start, new_filtering@, previous),
            i <= start.len(),
            forall|j: int| 0 <= j < i ==> total_filtering@[j] == recounted(start, new_filtering@, previous)[j],
            forall|j: int| i <= j < start.len() ==> total_filtering@[j] == start[j],
            changed == exists|j: int| 0 <= j < i && j < new_filtering@.len() && j < previous.len()
                && new_filtering@[j] != previous[j],
        decreases start.len() - i,
    {
        let t = total_filtering[i];
        if new_filtering[i] && !old_filtering[i] {
            changed = true;
            total_filtering.set(i, t + 1);
        } else if !new_filtering[i] && old_filtering[i] {
            changed = true;
            total_filtering.set(i, t - 1);
        }
        i = i + 1;
    }
    proof {
        assert(total_filtering@ =~= recounted(start, new_filtering@, previous));
    }
    *old_filtering = new_filtering;
    changed
}

/// The position that an entry at `from` moves to when it moves `steps`
/// places in a list of `len` entries; none when that leaves the list.
pub fn moved_index(from: usize, steps: isize, len: usize) -> (r: Option<usize>)
    requires
        from < len <= isize::MAX,
    ensures
        match r {
            Some(to) => to == from + steps && to < len,
            None => from + steps < 0 || from + steps >= len,
        },
{
    let from = from as isize;
    if steps >= 0 {
        if steps >= len as isize - from {
            None
        } else {
            Some((from + steps) as usize)
        }
    } else {
        if from + steps < 0 {
            None
        } else {
            Some((from + steps) as usize)
        }
    }
}

/// `summed` after counting each filtering of `filterings` in turn.
pub open spec fn counted_all(summed: Seq<u32>, filterings: Seq<Seq<bool>>) -> Seq<u32>
    decreases filterings.len(),
{
    if filterings.len() == 0 {
        summed
    } else {
        counted(counted_all(summed, filterings.drop_last()), filterings.last())
    }
}

/// No counter leaves `u32` while the filterings are counted in turn.
pub open spec fn can_count_all(summed: Seq<u32>, filterings: Seq<Seq<bool>>) -> bool
    decreases filterings.len(),
{
    filterings.len() == 0 || {
        &&& can_count_all(summed, filterings.drop_last())
        &&& can_count(counted_all(summed, filterings.drop_last()), filterings.last())
    }
}

proof fn lemma_can_count_all_prefix(summed: Seq<u32>, filterings: Seq<Seq<bool>>, n: int)
    requires
        0 <= n <= filterings.len(),
        can_count_all(summed, filterings),
    ensures
        can_count_all(summed, filterings.take(n)),
    decreases filterings.len() - n,
{
    if n < filterings.len() {
        lemma_can_count_all_prefix(summed, filterings, n + 1);
        assert(filterings.take(n + 1).drop_last() =~= filterings.take(n));
    } else {
        assert(filterings.take(n) =~= filterings);
    }
}

/// Counts the rows of a freshly loaded file that each of its limits filters
/// out, one filtering per column.
pub fn count_file_filterings(total_filtering: &mut Vec<u32>, filterings: &[Vec<bool>])
    requires
        can_count_all(old(total_filtering)@, filterings@.map_values(|f: Vec<bool>| f@)),
    ensures
        final(total_filtering)@ == counted_all(
            old(total_filtering)@,
            filterings@.map_values(|f: Vec<bool>| f@),
        ),
{
    let ghost start = total_filtering@;
    let ghost all = filterings@.map_values(|f: Vec<bool>| f@);
    let mut i: usize = 0;
    while i < filterings.len()
        invariant
            i <= filterings@.len(),
            all == filterings@.map_values(|f: Vec<bool>| f@),
            can_count_all(start, all),
            total_filtering@ == counted_all(start, all.take(i as int)),
        decreases filterings@.len() - i,
    {
        proof {
            lemma_can_count_all_prefix(start, all, i + 1);
            assert(all.take(i + 1).drop_last() =~= all.take(i as int));
            assert(all.take(i + 1).last() == filterings@[i as int]@);
        }
        count_filtering(total_filtering, filterings[i].as_slice());
        i = i + 1;
    }
    proof {
        assert(all.take(i as int) =~= all);
    }
}

/// The first limit that comes in becomes the locked limit that the views
/// show: a new limit is locked when no limit is locked yet.
pub fn lock_new_limit(locked_limits: &mut Vec<LimitKey>, is_new: bool, key: LimitKey)
    ensures
        final(locked_limits)@ == if is_new && old(locked_limits)@.len() == 0 {
            seq![key]
        } else {
            old(locked_limits)@
        },
{
    if is_new && locked_limits.len() == 0 {
        locked_limits.push(key);
        proof {
            assert(locked_limits@ =~= seq![key]);
        }
    }
}

/// A file's filtering changed exactly when its counts moved: the result of
/// `compute_filters` is true exactly when the recounted totals differ from
/// the totals before, so every row whose filtering flips, in either
/// direction, makes it true.
pub proof fn law_changed_iff_counts_move(total: Seq<u32>, new: Seq<bool>, old: Seq<bool>)
    requires
        can_recount(total, new, old),
    ensures
        filtering_changed(total, new, old) <==> recounted(total, new, old) != total,
        forall|i: int|
            0 <= i < total.len() && i < new.len() && i < old.len() && #[trigger] new[i] != #[trigger] old[i]
                ==> filtering_changed(total, new, old),
{
    let r = recounted(total, new, old);
    if filtering_changed(total, new, old) {
        let i = choose|i: int|
            0 <= i < total.len() && i < new.len() && i < old.len() && new[i] != old[i];
        assert(r[i] != total[i]);
    }
    if r != total {
        assert(r.len() == total.len());
        if !filtering_changed(total, new, old) {
            assert(r =~= total);
        }
    }
    assert forall|i: int|
        0 <= i < total.len() && i < new.len() && i < old.len() && #[trigger] new[i] != #[trigger] old[i]
            implies filtering_changed(total, new, old) by {}
}

} // verus!
