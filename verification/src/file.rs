use vstd::prelude::*;
use crate::event::HiddenOrShown;
use crate::keys::{clone_is_copy, eq_is_identity};
use crate::labels::{FileLabel, LimitLabel};
use crate::ordered_map::OrderedMap;

verus! {

/// A limit: a label with bounds that decide which rows of a column are
/// filtered out.
///
/// The data center relies on `has_same_label` and `label` agreeing with
/// `label_view`, and on `change_label` replacing the label exactly when it
/// differs.
pub trait LimitTrait: Sized {
    /// The text of the limit's label.
    spec fn label_view(&self) -> Seq<char>;

    /// The limit after its label was replaced by `label`.
    spec fn relabeled(&self, label: LimitLabel) -> Self;

    proof fn lemma_relabeled(l: Self, label: LimitLabel)
        ensures
            l.relabeled(label).label_view() == label@,
    ;

    fn has_same_label(&self, other: &Self) -> (r: bool)
        ensures
            r == (self.label_view() == other.label_view()),
    ;

    /// Replaces the label; returns whether it differed.
    fn change_label(&mut self, label: LimitLabel) -> (changed: bool)
        ensures
            changed == (old(self).label_view() != label@),
            changed ==> *final(self) == old(self).relabeled(label),
            !changed ==> *final(self) == *old(self),
    ;

    fn label(&self) -> (r: &LimitLabel)
        ensures
            r@ == self.label_view(),
    ;
}

/// The content of a loaded file: one column per limit, `row_count` rows.
///
/// `apply_limit` tells for each row of a column whether the limit filters
/// it out; it leaves the file as it is.
pub trait FileTrait: Sized {
    type Limit;

    spec fn limits_view(&self) -> Seq<Self::Limit>;

    spec fn row_count_view(&self) -> nat;

    /// For each row of the column at `limit_index`, whether `limit` filters it out.
    spec fn filtered_by(&self, limit_index: int, limit: Self::Limit) -> Seq<bool>;

    fn limits(&self) -> (r: &[Self::Limit])
        ensures
            r@ == self.limits_view(),
    ;

    fn row_count(&self) -> (r: usize)
        ensures
            r == self.row_count_view(),
    ;

    fn apply_limit(&mut self, limit_index: usize, limit: &Self::Limit) -> (r: Vec<bool>)
        requires
            limit_index < old(self).limits_view().len(),
        ensures
            r@ == old(self).filtered_by(limit_index as int, *limit),
            *final(self) == *old(self),
    ;
}

/// `summed` after adding one for every row that `filters` filters out
/// (rows beyond either sequence are left alone).
pub open spec fn counted(summed: Seq<u32>, filters: Seq<bool>) -> Seq<u32> {
    Seq::new(
        summed.len(),
        |i: int|
            if i < filters.len() && filters[i] {
                (summed[i] + 1) as u32
            } else {
                summed[i]
            },
    )
}

/// No counter that `counted` raises is at its maximum.
pub open spec fn can_count(summed: Seq<u32>, filters: Seq<bool>) -> bool {
    forall|i: int| 0 <= i < summed.len() && i < filters.len() && filters[i] ==> summed[i] < u32::MAX
}

/// `summed` after a limit changed its filtering from `old` to `new`: one more
/// for a row that is now filtered out and was not, one less for a row that
/// was filtered out and is not any more.
pub open spec fn recounted(summed: Seq<u32>, new: Seq<bool>, old: Seq<bool>) -> Seq<u32> {
    Seq::new(
        summed.len(),
        |i: int|
            if i < new.len() && i < old.len() {
                if new[i] && !old[i] {
                    (summed[i] + 1) as u32
                } else if !new[i] && old[i] {
                    (summed[i] - 1) as u32
                } else {
                    summed[i]
                }
            } else {
                summed[i]
            },
    )
}

/// No counter that `recounted` raises is at its maximum, and none that it
/// lowers is zero.
pub open spec fn can_recount(summed: Seq<u32>, new: Seq<bool>, old: Seq<bool>) -> bool {
    forall|i: int|
        0 <= i < summed.len() && i < new.len() && i < old.len() ==> {
            &&& (new[i] && !old[i] ==> summed[i] < u32::MAX)
            &&& (!new[i] && old[i] ==> summed[i] > 0)
        }
}

/// Counting one filtering and then recounting from it to a second one gives
/// the counts that counting the second one gives.
pub proof fn law_recount_replaces(summed: Seq<u32>, first: Seq<bool>, second: Seq<bool>)
    requires
        first.len() == summed.len(),
        second.len() == summed.len(),
        can_count(summed, first),
        can_count(summed, second),
    ensures
        can_recount(counted(summed, first), second, first),
        recounted(counted(summed, first), second, first) == counted(summed, second),
{
    assert(recounted(counted(summed, first), second, first) =~= counted(summed, second));
}

/// Recounting from `old` to `new` and then back from `new` to `old` gives
/// the counts back.
pub proof fn law_recount_back(summed: Seq<u32>, new: Seq<bool>, old: Seq<bool>)
    requires
        can_recount(summed, new, old),
    ensures
        can_recount(recounted(summed, new, old), old, new),
        recounted(recounted(summed, new, old), old, new) == summed,
{
    assert(recounted(recounted(summed, new, old), old, new) =~= summed);
}

/// The position in `keys` of the first key whose limit carries `label`.
pub open spec fn first_with_label<LimitKey, Limit: LimitTrait>(
    keys: Seq<LimitKey>,
    limits: Map<LimitKey, Limit>,
    label: Seq<char>,
) -> Option<int>
    decreases keys.len(),
{
    if keys.len() == 0 {
        None
    } else {
        match first_with_label(keys.drop_last(), limits, label) {
            Some(i) => Some(i),
            None => if limits[keys.last()].label_view() == label {
                Some(keys.len() - 1)
            } else {
                None
            },
        }
    }
}

/// A label found in a prefix of the keys is found at the same place in all of them.
pub proof fn lemma_first_with_label_prefix<LimitKey, Limit: LimitTrait>(
    keys: Seq<LimitKey>,
    limits: Map<LimitKey, Limit>,
    label: Seq<char>,
    n: int,
)
    requires
        0 <= n <= keys.len(),
        first_with_label(keys.take(n), limits, label) is Some,
    ensures
        first_with_label(keys, limits, label) == first_with_label(keys.take(n), limits, label),
    decreases keys.len() - n,
{
    if n < keys.len() {
        assert(keys.take(n + 1).drop_last() =~= keys.take(n));
        lemma_first_with_label_prefix(keys, limits, label, n + 1);
    } else {
        assert(keys.take(n) =~= keys);
    }
}

/// A found label is found at a position of the keys whose limit carries it.
pub proof fn lemma_first_with_label_in_range<LimitKey, Limit: LimitTrait>(
    keys: Seq<LimitKey>,
    limits: Map<LimitKey, Limit>,
    label: Seq<char>,
)
    ensures
        first_with_label(keys, limits, label) matches Some(i) ==> 0 <= i < keys.len()
            && limits[keys[i]].label_view() == label,
    decreases keys.len(),
{
    if keys.len() > 0 {
        lemma_first_with_label_in_range(keys.drop_last(), limits, label);
    }
}

/// A label that the limit of some key carries is found.
pub proof fn lemma_first_with_label_found<LimitKey, Limit: LimitTrait>(
    keys: Seq<LimitKey>,
    limits: Map<LimitKey, Limit>,
    label: Seq<char>,
    i: int,
)
    requires
        0 <= i < keys.len(),
        limits[keys[i]].label_view() == label,
    ensures
        first_with_label(keys, limits, label) is Some,
    decreases keys.len(),
{
    if i < keys.len() - 1 {
        lemma_first_with_label_found(keys.drop_last(), limits, label, i);
    }
}

/// The keys that `limit_indices_for` ties limits to are keys of `keys`,
/// and the positions are positions of the file's limits.
pub proof fn lemma_limit_indices_for_keys<LimitKey, Limit: LimitTrait>(
    file_limits: Seq<Limit>,
    keys: Seq<LimitKey>,
    limits: Map<LimitKey, Limit>,
)
    ensures
        forall|k: LimitKey| #[trigger] limit_indices_for(file_limits, keys, limits).contains_key(k)
            ==> keys.contains(k) && limit_indices_for(file_limits, keys, limits)[k] < file_limits.len(),
    decreases file_limits.len(),
{
    if file_limits.len() > 0 {
        lemma_limit_indices_for_keys(file_limits.drop_last(), keys, limits);
        lemma_first_with_label_in_range(keys, limits, file_limits.last().label_view());
        let rest = limit_indices_for(file_limits.drop_last(), keys, limits);
        let all = limit_indices_for(file_limits, keys, limits);
        assert forall|k: LimitKey| #[trigger] all.contains_key(k) implies keys.contains(k) && all[k]
            < file_limits.len() by {
            if let Some(i) = first_with_label(keys, limits, file_limits.last().label_view()) {
                assert(keys.contains(keys[i]));
                if k != keys[i] {
                    assert(rest.contains_key(k));
                }
            } else {
                assert(rest.contains_key(k));
            }
        }
    }
}

/// Which key stands for each limit of a file: the first key in `keys` whose
/// limit carries the same label, mapped to the limit's position in the file.
pub open spec fn limit_indices_for<LimitKey, Limit: LimitTrait>(
    file_limits: Seq<Limit>,
    keys: Seq<LimitKey>,
    limits: Map<LimitKey, Limit>,
) -> Map<LimitKey, usize>
    decreases file_limits.len(),
{
    if file_limits.len() == 0 {
        Map::empty()
    } else {
        let rest = limit_indices_for(file_limits.drop_last(), keys, limits);
        match first_with_label(keys, limits, file_limits.last().label_view()) {
            Some(i) => rest.insert(keys[i], (file_limits.len() - 1) as usize),
            None => rest,
        }
    }
}

/// The labels of a file's limits are pairwise different.
pub open spec fn labels_distinct<Limit: LimitTrait>(file_limits: Seq<Limit>) -> bool {
    forall|a: int, b: int|
        0 <= a < b < file_limits.len() ==> #[trigger] file_limits[a].label_view()
            != #[trigger] file_limits[b].label_view()
}

/// Every limit of a file has a limit with the same label in `limits`.
pub open spec fn labels_known<LimitKey, Limit: LimitTrait>(
    file_limits: Seq<Limit>,
    keys: Seq<LimitKey>,
    limits: Map<LimitKey, Limit>,
) -> bool {
    forall|j: int|
        0 <= j < file_limits.len() ==> #[trigger] first_with_label(
            keys,
            limits,
            file_limits[j].label_view(),
        ) is Some
}

/// What a file wrapper holds, as plain values.
#[verifier::reject_recursive_types(LimitKey)]
pub struct FileModel<File, LimitKey> {
    pub label: Seq<char>,
    pub hidden_or_shown: HiddenOrShown,
    pub content: File,
    pub limit_indices: Map<LimitKey, usize>,
    pub filters_summed: Seq<u32>,
}

/// A loaded file with its label, visibility, the column of each limit it
/// knows, and for each row the number of limits that filter the row out.
pub struct FileWrapper<File, LimitKey> {
    label: FileLabel,
    hidden_or_shown: HiddenOrShown,
    content: File,
    limit_indices: OrderedMap<LimitKey, usize>,
    filters_summed: Vec<u32>,
}

impl<File, LimitKey> View for FileWrapper<File, LimitKey> {
    type V = FileModel<File, LimitKey>;

    closed spec fn view(&self) -> FileModel<File, LimitKey> {
        FileModel {
            label: self.label@,
            hidden_or_shown: self.hidden_or_shown,
            content: self.content,
            limit_indices: self.limit_indices@,
            filters_summed: self.filters_summed@,
        }
    }
}

impl<File: FileTrait, LimitKey> FileWrapper<File, LimitKey> {
    /// Every column that a limit key points to exists in the content.
    pub closed spec fn wf(&self) -> bool {
        &&& self.limit_indices.wf()
        &&& forall|k: LimitKey| #[trigger] self.limit_indices@.contains_key(k)
            ==> self.limit_indices@[k] < self.content.limits_view().len()
    }

    /// Wraps a freshly loaded file, shown, with no row filtered out yet.
    /// Each limit of the file is tied to the first key in `limit_keys`
    /// whose limit carries the same label.
    #[verifier::rlimit(40)]
    pub fn new(label: FileLabel, content: File, limit_keys: &OrderedMap<LimitKey, File::Limit>) -> (r: Self)
        where LimitKey: PartialEq + Clone, File::Limit: LimitTrait
        requires
            limit_keys.wf(),
            eq_is_identity::<LimitKey>(),
            clone_is_copy::<LimitKey>(),
            labels_distinct(content.limits_view()),
            labels_known(content.limits_view(), limit_keys.keys_view(), limit_keys@),
        ensures
            r.wf(),
            r@ == (FileModel {
                label: label@,
                hidden_or_shown: HiddenOrShown::Shown,
                content,
                limit_indices: limit_indices_for(
                    content.limits_view(),
                    limit_keys.keys_view(),
                    limit_keys@,
                ),
                filters_summed: Seq::new(content.row_count_view(), |i: int| 0u32),
            }),
    {
        let ghost file_limits = content.limits_view();
        let ghost keys_seq = limit_keys.keys_view();
        let ghost map = limit_keys@;
        let mut limit_indices: OrderedMap<LimitKey, usize> = OrderedMap::new();
        let limits = content.limits();
        let (keys, values) = limit_keys.iter();
        proof { limit_keys.lemma_wf_lengths(); }
        let mut index: usize = 0;
        while index < limits.len()
            invariant
                limits@ == file_limits,
                keys@ == keys_seq,
                values@ == limit_keys.values_view(),
                values@.len() == keys@.len(),
                limit_keys.wf(),
                map == limit_keys@,
                keys_seq == limit_keys.keys_view(),
                eq_is_identity::<LimitKey>(),
                clone_is_copy::<LimitKey>(),
                labels_known(file_limits, keys_seq, map),
                index <= limits@.len(),
                limit_indices.wf(),
                limit_indices@ == limit_indices_for(file_limits.take(index as int), keys_seq, map),
                forall|k: LimitKey| #[trigger] limit_indices@.contains_key(k) ==> limit_indices@[k] < index,
            decreases limits@.len() - index,
        {
            let limit = &limits[index];
            let mut j: usize = 0;
            let mut found: Option<usize> = None;
            while j < keys.len()
                invariant_except_break
                    found is None,
                    first_with_label(keys_seq.take(j as int), map, limit.label_view()) is None,
                invariant
                    keys@ == keys_seq,
                    values@ == limit_keys.values_view(),
                    values@.len() == keys@.len(),
                    limit_keys.wf(),
                    map == limit_keys@,
                    keys_seq == limit_keys.keys_view(),
                    j <= keys@.len(),
                ensures
                    found is None ==> first_with_label(keys_seq.take(keys@.len() as int), map, limit.label_view()) is None,
                    found matches Some(jj) ==> jj < keys@.len() && map[keys_seq[jj as int]].label_view() == limit.label_view()
                        && first_with_label(keys_seq.take(jj as int), map, limit.label_view()) is None,
                decreases keys@.len() - j,
            {
                proof {
                    limit_keys.lemma_view_at(j as int);
                    assert(keys_seq.take(j as int + 1).drop_last() =~= keys_seq.take(j as int));
                }
                if values[j].has_same_label(limit) {
                    found = Some(j);
                    break;
                }
                j = j + 1;
            }
            proof {
                if found is None {
                    assert(keys_seq.take(keys_seq.len() as int) =~= keys_seq);
                }
                assert(first_with_label(keys_seq, map, file_limits[index as int].label_view()) is Some);
            }
            let ghost before = limit_indices@;
            match found {
                Some(j) => {
                    proof {
                        limit_keys.lemma_view_at(j as int);
                        assert(keys_seq.take(j as int + 1).drop_last() =~= keys_seq.take(j as int));
                        assert(first_with_label(keys_seq.take(j as int + 1), map, limit.label_view()) == Some(j as int));
                        lemma_first_with_label_prefix(keys_seq, map, limit.label_view(), j as int + 1);
                    }
                    let _ = limit_indices.insert(keys[j].clone(), index);
                },
                None => {},
            }
            proof {
                assert(file_limits.take(index as int + 1).drop_last() =~= file_limits.take(index as int));
            }
            index = index + 1;
        }
        proof {
            assert(file_limits.take(limits@.len() as int) =~= file_limits);
        }
        let filters_summed = vec![0u32; content.row_count()];
        assert(filters_summed@ =~= Seq::new(content.row_count_view(), |i: int| 0u32));
        FileWrapper {
            label,
            hidden_or_shown: HiddenOrShown::Shown,
            content,
            limit_indices,
            filters_summed,
        }
    }

    pub fn get_label(&self) -> (r: &FileLabel)
        ensures
            r@ == self@.label,
    {
        &self.label
    }

    pub fn get_mut_label(&mut self) -> (r: &mut FileLabel)
        ensures
            r@ == old(self)@.label,
            final(self)@ == (FileModel { label: final(r)@, ..old(self)@ }),
            final(self).wf() == old(self).wf(),
    {
        &mut self.label
    }

    pub fn is_shown(&self) -> (r: bool)
        ensures
            r == (self@.hidden_or_shown == HiddenOrShown::Shown),
    {
        self.hidden_or_shown == HiddenOrShown::Shown
    }

    pub fn change_shown(&mut self, hidden_or_shown: HiddenOrShown)
        ensures
            final(self)@ == (FileModel { hidden_or_shown, ..old(self)@ }),
            final(self).wf() == old(self).wf(),
    {
        self.hidden_or_shown = hidden_or_shown;
    }

    pub fn change_label(&mut self, label: FileLabel)
        ensures
            final(self)@ == (FileModel { label: label@, ..old(self)@ }),
            final(self).wf() == old(self).wf(),
    {
        self.label = label;
    }

    pub fn limits(&self) -> (r: &[File::Limit])
        ensures
            r@ == self@.content.limits_view(),
    {
        self.content.limits()
    }

    /// The filtering of the limit under `key` on this file, if the file has
    /// a column for it.
    pub fn apply_limit(&mut self, key: &LimitKey, limit: &File::Limit) -> (r: Option<Vec<bool>>)
        where LimitKey: PartialEq
        requires
            old(self).wf(),
            eq_is_identity::<LimitKey>(),
        ensures
            *final(self) == *old(self),
            old(self)@.limit_indices.contains_key(*key) ==> (r matches Some(f) && f@
                == old(self)@.content.filtered_by(
                old(self)@.limit_indices[*key] as int,
                *limit,
            )),
            !old(self)@.limit_indices.contains_key(*key) ==> r is None,
    {
        match self.limit_indices.get(key) {
            Some(index) => {
                let index = *index;
                Some(self.content.apply_limit(index, limit))
            },
            None => None,
        }
    }

    /// Counts the rows that a newly applied limit filters out.
    pub fn filters_new(&mut self, filters: &[bool])
        requires
            can_count(old(self)@.filters_summed, filters@),
        ensures
            final(self)@ == (FileModel {
                filters_summed: counted(old(self)@.filters_summed, filters@),
                ..old(self)@
            }),
            final(self).wf() == old(self).wf(),
    {
        let mut summed: Vec<u32> = Vec::new();
        std::mem::swap(&mut summed, &mut self.filters_summed);
        let ghost summed0 = summed@;
        let n = if summed.len() < filters.len() {
            summed.len()
        } else {
            filters.len()
        };
        let mut i: usize = 0;
        while i < n
            invariant
                n <= summed@.len(),
                n <= filters@.len(),
                n == summed@.len() || n == filters@.len(),
                i <= n,
                summed@.len() == summed0.len(),
                can_count(summed0, filters@),
                forall|j: int| 0 <= j < i ==> summed@[j] == counted(summed0, filters@)[j],
                forall|j: int| i <= j < summed0.len() ==> summed@[j] == summed0[j],
            decreases n - i,
        {
            if filters[i] {
                summed.set(i, summed[i] + 1);
            }
            i = i + 1;
        }
        assert(summed@ =~= counted(summed0, filters@));
        self.filters_summed = summed;
    }

    /// Updates the counts after a limit changed its filtering from
    /// `old_filters` to `new_filters`.
    pub fn filters_adjusted(&mut self, new_filters: &[bool], old_filters: &[bool])
        requires
            can_recount(old(self)@.filters_summed, new_filters@, old_filters@),
        ensures
            final(self)@ == (FileModel {
                filters_summed: recounted(old(self)@.filters_summed, new_filters@, old_filters@),
                ..old(self)@
            }),
            final(self).wf() == old(self).wf(),
    {
        let mut summed: Vec<u32> = Vec::new();
        std::mem::swap(&mut summed, &mut self.filters_summed);
        let ghost summed0 = summed@;
        let mut n = summed.len();
        if new_filters.len() < n {
            n = new_filters.len();
        }
        if old_filters.len() < n {
            n = old_filters.len();
        }
        let mut i: usize = 0;
        while i < n
            invariant
                n <= summed@.len(),
                n <= new_filters@.len(),
                n <= old_filters@.len(),
                n == summed@.len() || n == new_filters@.len() || n == old_filters@.len(),
                i <= n,
                summed@.len() == summed0.len(),
                can_recount(summed0, new_filters@, old_filters@),
                forall|j: int| 0 <= j < i ==> summed@[j] == recounted(summed0, new_filters@, old_filters@)[j],
                forall|j: int| i <= j < summed0.len() ==> summed@[j] == summed0[j],
            decreases n - i,
        {
            let x = summed[i];
            let updated = match (new_filters[i], old_filters[i]) {
                (true, true) => x,
                (true, false) => x + 1,
                (false, true) => x - 1,
                (false, false) => x,
            };
            summed.set(i, updated);
            i = i + 1;
        }
        assert(summed@ =~= recounted(summed0, new_filters@, old_filters@));
        self.filters_summed = summed;
    }

    /// For each row, whether at least one limit filters it out.
    pub fn get_to_befiltered(&self) -> (r: Vec<bool>)
        ensures
            r@ == self@.filters_summed.map_values(|x: u32| x > 0),
    {
        let mut r = Vec::new();
        let mut i: usize = 0;
        while i < self.filters_summed.len()
            invariant
                i <= self.filters_summed@.len(),
                r@ == self.filters_summed@.take(i as int).map_values(|x: u32| x > 0),
            decreases self.filters_summed@.len() - i,
        {
            r.push(self.filters_summed[i] > 0);
            i = i + 1;
            assert(r@ =~= self.filters_summed@.take(i as int).map_values(|x: u32| x > 0));
        }
        assert(self.filters_summed@.take(i as int) =~= self.filters_summed@);
        r
    }
}

} // verus!
