use vstd::prelude::*;
use crate::event::{
    DataEvent, FileEvent, HeatmapEvent, HiddenOrShown, LimitEvent, ShowHideEvent, ViolinEvent,
};
use crate::file::{
    can_count, can_recount, counted, first_with_label, labels_distinct, lemma_first_with_label_found,
    lemma_limit_indices_for_keys, limit_indices_for, recounted, FileModel, FileTrait, FileWrapper,
    LimitTrait,
};
use crate::keys::{clone_is_copy, eq_is_identity, lemma_eq_is_identity, Incrementable, KeyGenerator};
use crate::labels::{FileLabel, LimitLabel};
use crate::ordered_map::OrderedMap;

verus! {

/// Which parts of the user interface have to be drawn again.
#[derive(Debug, Clone, Copy, PartialEq, Eq, Structural)]
pub struct RedrawSelection {
    pub files: bool,
    pub limits: bool,
    pub heatmap: bool,
    pub violin: bool,
}

impl Default for RedrawSelection {
    fn default() -> (r: Self)
        ensures
            r == RedrawSelection::nothing(),
    {
        RedrawSelection { files: false, limits: false, heatmap: false, violin: false }
    }
}

impl std::ops::BitOrAssign for RedrawSelection {
    fn bitor_assign(&mut self, rhs: Self)
        ensures
            *final(self) == old(self).union(rhs),
    {
        self.files = self.files || rhs.files;
        self.limits = self.limits || rhs.limits;
        self.heatmap = self.heatmap || rhs.heatmap;
        self.violin = self.violin || rhs.violin;
    }
}

impl RedrawSelection {
    /// Nothing needs to be drawn again.
    pub open spec fn nothing() -> Self {
        RedrawSelection { files: false, limits: false, heatmap: false, violin: false }
    }

    /// Every part needs to be drawn again.
    pub open spec fn everything() -> Self {
        RedrawSelection { files: true, limits: true, heatmap: true, violin: true }
    }

    /// Everything that shows limits needs to be drawn again.
    pub open spec fn limit_views() -> Self {
        RedrawSelection { files: false, limits: true, heatmap: true, violin: true }
    }

    /// Everything that shows files needs to be drawn again.
    pub open spec fn file_views() -> Self {
        RedrawSelection { files: true, limits: false, heatmap: true, violin: true }
    }

    /// Each part that one of the two selections asks for.
    pub open spec fn union(self, other: Self) -> Self {
        RedrawSelection {
            files: self.files || other.files,
            limits: self.limits || other.limits,
            heatmap: self.heatmap || other.heatmap,
            violin: self.violin || other.violin,
        }
    }

    fn redraw() -> (r: Self)
        ensures
            r == RedrawSelection::everything(),
    {
        RedrawSelection { files: true, limits: true, heatmap: true, violin: true }
    }

    fn limit() -> (r: Self)
        ensures
            r == RedrawSelection::limit_views(),
    {
        RedrawSelection { files: false, limits: true, heatmap: true, violin: true }
    }
}

/// What the data center holds, as plain values.
#[verifier::reject_recursive_types(FileKey)]
#[verifier::reject_recursive_types(LimitKey)]
pub struct CenterModel<FileKey, LimitKey, File, Limit> {
    /// The files' keys, in the order in which the files are shown.
    pub file_keys: Seq<FileKey>,
    pub files: Map<FileKey, FileModel<File, LimitKey>>,
    /// The limits' keys, in the order in which the limits appeared.
    pub limit_keys: Seq<LimitKey>,
    pub limits: Map<LimitKey, Limit>,
    /// For a file and a limit, the rows that the limit filtered out when it
    /// was first applied to the file after loading it.
    pub filters: Map<(FileKey, LimitKey), Seq<bool>>,
    pub limit_to_plot: Option<LimitKey>,
    /// The key that the next call of `new_file_key` returns.
    pub next_file_key: FileKey,
    /// The key that the next new limit gets.
    pub next_limit_key: LimitKey,
}

/// Holds the loaded files and the limits, and keeps for each row of each
/// file the number of limits that filter the row out.
pub struct DataCenter<FileKey, LimitKey, File, Limit> {
    files: OrderedMap<FileKey, FileWrapper<File, LimitKey>>,
    limits: OrderedMap<LimitKey, Limit>,
    filters: OrderedMap<(FileKey, LimitKey), Vec<bool>>,
    limit_to_plot: Option<LimitKey>,
    file_key_generator: KeyGenerator<FileKey>,
    limit_key_generator: KeyGenerator<LimitKey>,
}

impl<FileKey, LimitKey, File, Limit> View for DataCenter<FileKey, LimitKey, File, Limit> {
    type V = CenterModel<FileKey, LimitKey, File, Limit>;

    closed spec fn view(&self) -> CenterModel<FileKey, LimitKey, File, Limit> {
        CenterModel {
            file_keys: self.files.keys_view(),
            files: self.files@.map_values(|w: FileWrapper<File, LimitKey>| w@),
            limit_keys: self.limits.keys_view(),
            limits: self.limits@,
            filters: self.filters@.map_values(|f: Vec<bool>| f@),
            limit_to_plot: self.limit_to_plot,
            next_file_key: self.file_key_generator.current,
            next_limit_key: self.limit_key_generator.current,
        }
    }
}

/// The keys, labels, files and limits behave as the data center needs:
/// keys compare by identity, and keys and limits copy faithfully.
pub open spec fn center_laws<FileKey: PartialEq + Clone, LimitKey: PartialEq + Clone, Limit: Clone>() -> bool {
    &&& eq_is_identity::<FileKey>()
    &&& clone_is_copy::<FileKey>()
    &&& eq_is_identity::<LimitKey>()
    &&& clone_is_copy::<LimitKey>()
    &&& clone_is_copy::<Limit>()
}

impl<FileKey: Incrementable, LimitKey: Incrementable, File: FileTrait<Limit = Limit>, Limit: LimitTrait> CenterModel<
    FileKey,
    LimitKey,
    File,
    Limit,
> {
    /// Every limit key that the center holds or that a file points to came
    /// before the next limit key.
    pub open spec fn limit_keys_fresh(self) -> bool {
        &&& forall|lk: LimitKey| #[trigger] self.limits.contains_key(lk) ==> lk.position()
            < self.next_limit_key.position()
        &&& forall|fk: FileKey, lk: LimitKey|
            self.files.contains_key(fk) && #[trigger] self.files[fk].limit_indices.contains_key(lk)
                ==> lk.position() < self.next_limit_key.position()
    }

    /// The center after hiding or showing one file or all of them.
    pub open spec fn shown_changed(self, event: ShowHideEvent<FileKey>) -> Self {
        let hs = event.hidden_or_shown;
        match event.single_or_all {
            Some(key) => if self.files.contains_key(key) {
                CenterModel {
                    files: self.files.insert(key, FileModel { hidden_or_shown: hs, ..self.files[key] }),
                    ..self
                }
            } else {
                self
            },
            None => CenterModel {
                files: self.files.map_values(
                    |f: FileModel<File, LimitKey>| FileModel { hidden_or_shown: hs, ..f },
                ),
                ..self
            },
        }
    }
}

impl<FileKey: Incrementable, LimitKey: Incrementable, File: FileTrait<Limit = Limit>, Limit: LimitTrait> CenterModel<
    FileKey,
    LimitKey,
    File,
    Limit,
> {
    /// Whether the file under `key` is present and shown.
    pub open spec fn is_shown(self, key: FileKey) -> bool {
        self.files.contains_key(key) && self.files[key].hidden_or_shown == HiddenOrShown::Shown
    }

    /// The center after the file under `key` got the label `label`.
    pub open spec fn retitled(self, key: FileKey, label: Seq<char>) -> Self {
        if self.files.contains_key(key) {
            CenterModel {
                files: self.files.insert(key, FileModel { label, ..self.files[key] }),
                ..self
            }
        } else {
            self
        }
    }

    /// The center after the files under `k1` and `k2` changed places.
    pub open spec fn switched(self, k1: FileKey, k2: FileKey) -> Self {
        if self.files.contains_key(k1) && self.files.contains_key(k2) {
            CenterModel {
                file_keys: self.file_keys.update(self.file_keys.index_of(k1), k2).update(
                    self.file_keys.index_of(k2),
                    k1,
                ),
                ..self
            }
        } else {
            self
        }
    }

    /// The center after the limit under `key` got the label `label`.
    pub open spec fn limit_relabeled(self, key: LimitKey, label: LimitLabel) -> Self {
        if self.limits.contains_key(key) && self.limits[key].label_view() != label@ {
            CenterModel {
                limits: self.limits.insert(key, self.limits[key].relabeled(label)),
                ..self
            }
        } else {
            self
        }
    }

    /// Whether the file under `fk` has a column for the limit under `key`.
    pub open spec fn has_column(self, fk: FileKey, key: LimitKey) -> bool {
        self.files.contains_key(fk) && self.files[fk].limit_indices.contains_key(key)
    }

    /// The rows of the file under `fk` that `limit` filters out of the
    /// column of the limit under `key`.
    pub open spec fn filtering(self, fk: FileKey, key: LimitKey, limit: Limit) -> Seq<bool> {
        self.files[fk].content.filtered_by(self.files[fk].limit_indices[key] as int, limit)
    }

    /// The file under `fk` after the limit under `key` became `limit`: the
    /// counts follow the new filtering, from the one first recorded for the
    /// file and limit, or from nothing if none was recorded.
    pub open spec fn value_changed_file(self, fk: FileKey, key: LimitKey, limit: Limit) -> FileModel<File, LimitKey> {
        let f = self.files[fk];
        if self.has_column(fk, key) {
            let new = self.filtering(fk, key, limit);
            FileModel {
                filters_summed: if self.filters.contains_key((fk, key)) {
                    recounted(f.filters_summed, new, self.filters[(fk, key)])
                } else {
                    counted(f.filters_summed, new)
                },
                ..f
            }
        } else {
            f
        }
    }

    /// The counts of the file under `fk` stay within `u32` when the limit
    /// under `key` becomes `limit`.
    pub open spec fn value_ok_file(self, fk: FileKey, key: LimitKey, limit: Limit) -> bool {
        self.has_column(fk, key) ==> if self.filters.contains_key((fk, key)) {
            can_recount(self.files[fk].filters_summed, self.filtering(fk, key, limit), self.filters[(fk, key)])
        } else {
            can_count(self.files[fk].filters_summed, self.filtering(fk, key, limit))
        }
    }

    /// Whether the new filtering of the file under `fk` differs from the
    /// recorded one, or, with none recorded, filters out some row.
    pub open spec fn value_changes_file(self, fk: FileKey, key: LimitKey, limit: Limit) -> bool {
        self.has_column(fk, key) && if self.filters.contains_key((fk, key)) {
            filterings_differ(self.filtering(fk, key, limit), self.filters[(fk, key)])
        } else {
            self.filtering(fk, key, limit).contains(true)
        }
    }

    /// The limit under `key` can become `limit` without a count leaving `u32`.
    pub open spec fn value_ok(self, key: LimitKey, limit: Limit) -> bool {
        self.limits.contains_key(key) ==> forall|fk: FileKey| #[trigger] self.files.contains_key(fk)
            ==> self.value_ok_file(fk, key, limit)
    }

    /// Whether the limit under `key` becoming `limit` changes a filtering.
    pub open spec fn value_changes(self, key: LimitKey, limit: Limit) -> bool {
        self.limits.contains_key(key) && exists|fk: FileKey| #[trigger] self.files.contains_key(fk)
            && self.value_changes_file(fk, key, limit)
    }

    /// The center after the limit under `key` became `limit`.  For each file
    /// with a column for it the counts are updated, and a filtering is
    /// recorded where none was.
    pub open spec fn value_changed(self, key: LimitKey, limit: Limit) -> Self {
        if self.limits.contains_key(key) {
            CenterModel {
                files: Map::new(
                    |fk: FileKey| self.files.contains_key(fk),
                    |fk: FileKey| self.value_changed_file(fk, key, limit),
                ),
                filters: Map::new(
                    |p: (FileKey, LimitKey)| self.filters.contains_key(p) || (p.1 == key && self.has_column(p.0, key)),
                    |p: (FileKey, LimitKey)|
                        if self.filters.contains_key(p) {
                            self.filters[p]
                        } else {
                            self.filtering(p.0, key, limit)
                        },
                ),
                limits: self.limits.insert(key, limit),
                ..self
            }
        } else {
            self
        }
    }

    /// Whether some limit of the center carries the label `label`.
    pub open spec fn has_limit_labeled(self, label: Seq<char>) -> bool {
        exists|k: LimitKey| #[trigger] self.limits.contains_key(k) && self.limits[k].label_view() == label
    }

    /// The center after the limits in `ls` were taken in one after the
    /// other: a limit whose label no limit of the center carries yet is
    /// added under the next limit key.
    pub open spec fn limits_added(self, ls: Seq<Limit>) -> Self
        decreases ls.len(),
    {
        if ls.len() == 0 {
            self
        } else {
            let pre = self.limits_added(ls.drop_last());
            let l = ls.last();
            if pre.has_limit_labeled(l.label_view()) {
                pre
            } else {
                CenterModel {
                    limit_keys: pre.limit_keys.push(pre.next_limit_key),
                    limits: pre.limits.insert(pre.next_limit_key, l),
                    next_limit_key: pre.next_limit_key.successor(),
                    ..pre
                }
            }
        }
    }

    /// A new key can be formed for every limit of `ls` that `limits_added`
    /// adds.
    pub open spec fn can_add_limits(self, ls: Seq<Limit>) -> bool
        decreases ls.len(),
    {
        ls.len() == 0 || {
            &&& self.can_add_limits(ls.drop_last())
            &&& (self.limits_added(ls.drop_last()).has_limit_labeled(ls.last().label_view())
                || self.limits_added(ls.drop_last()).next_limit_key.can_increment())
        }
    }

    /// The file `file` can arrive under `key`: the key is new, the labels
    /// of its limits differ, and keys can be formed for its new limits.
    pub open spec fn loaded_ok(self, key: FileKey, file: File) -> bool {
        &&& !self.files.contains_key(key)
        &&& labels_distinct(file.limits_view())
        &&& self.can_add_limits(file.limits_view())
    }

    /// The center after `file` arrived under `key` with the label `label`:
    /// its new limits are added, and the file is appended, shown, with each
    /// of its limits tied to the first limit key with the same label and no
    /// row counted as filtered.
    pub open spec fn loaded(self, key: FileKey, label: Seq<char>, file: File) -> Self {
        let s1 = self.limits_added(file.limits_view());
        CenterModel {
            file_keys: s1.file_keys.push(key),
            files: s1.files.insert(
                key,
                FileModel {
                    label,
                    hidden_or_shown: HiddenOrShown::Shown,
                    content: file,
                    limit_indices: limit_indices_for(file.limits_view(), s1.limit_keys, s1.limits),
                    filters_summed: Seq::new(file.row_count_view(), |i: int| 0u32),
                },
            ),
            ..s1
        }
    }

    /// The center after the limit under `key` became the one to plot.
    pub open spec fn plotting(self, key: LimitKey) -> Self {
        CenterModel { limit_to_plot: Some(key), ..self }
    }

    /// Whether the center can take the event: files that are still to be
    /// read or parsed are not for the data center, a loaded file needs a new
    /// key and distinct limit labels, and the counts have to stay in `u32`.
    pub open spec fn step_ok(self, event: DataEvent<FileKey, LimitKey, File, Limit>) -> bool {
        match event {
            DataEvent::File(e) => match e {
                FileEvent::Loaded { key, label, file } => self.loaded_ok(key, file),
                FileEvent::LoadFromContent { .. } => false,
                FileEvent::LoadFromPath { .. } => false,
                _ => true,
            },
            DataEvent::Limit(LimitEvent::Value(k, l)) => self.value_ok(k, l),
            DataEvent::Violin(ViolinEvent::Value(k, l)) => self.value_ok(k, l),
            _ => true,
        }
    }

    /// The center after the event.
    pub open spec fn step(self, event: DataEvent<FileKey, LimitKey, File, Limit>) -> Self {
        match event {
            DataEvent::File(e) => match e {
                FileEvent::Loaded { key, label, file } => self.loaded(key, label@, file),
                FileEvent::Removed(key) => self.file_removed(key),
                FileEvent::Title(key, label) => self.retitled(key, label@),
                FileEvent::ShowHide(e) => self.shown_changed(e),
                FileEvent::OrderSwitched(k1, k2) => self.switched(k1, k2),
                _ => self,
            },
            DataEvent::Limit(e) => match e {
                LimitEvent::Value(k, l) => self.value_changed(k, l),
                LimitEvent::Label(k, l) => self.limit_relabeled(k, l),
                LimitEvent::ToPlot(k) => self.plotting(k),
            },
            DataEvent::Heatmap(HeatmapEvent::ShowHide(e)) => self.shown_changed(e),
            DataEvent::Violin(e) => match e {
                ViolinEvent::ShowHide(e) => self.shown_changed(e),
                ViolinEvent::Value(k, l) => self.value_changed(k, l),
                ViolinEvent::Label(k, l) => self.limit_relabeled(k, l),
            },
        }
    }

    /// What has to be drawn again after a new value of the limit under `key`.
    pub open spec fn value_redraw(self, key: LimitKey, limit: Limit) -> Option<RedrawSelection> {
        if self.value_changes(key, limit) {
            Some(RedrawSelection::limit_views())
        } else {
            None
        }
    }

    /// What has to be drawn again after a new label of the limit under `key`.
    pub open spec fn label_redraw(self, key: LimitKey, label: Seq<char>) -> Option<RedrawSelection> {
        if self.limits.contains_key(key) && self.limits[key].label_view() != label
            && self.limit_to_plot == Some(key) {
            Some(RedrawSelection::limit_views())
        } else {
            None
        }
    }

    /// What has to be drawn again after the event, if anything.
    pub open spec fn step_redraw(self, event: DataEvent<FileKey, LimitKey, File, Limit>) -> Option<RedrawSelection> {
        match event {
            DataEvent::File(e) => match e {
                FileEvent::Loaded { .. } => Some(RedrawSelection::everything()),
                FileEvent::Removed(key) => if self.files.contains_key(key) {
                    Some(RedrawSelection::everything())
                } else {
                    None
                },
                FileEvent::Title(key, _) => if self.is_shown(key) {
                    Some(RedrawSelection::file_views())
                } else {
                    None
                },
                FileEvent::ShowHide(_) => Some(RedrawSelection::file_views()),
                FileEvent::OrderSwitched(k1, k2) => if self.is_shown(k1) || self.is_shown(k2) {
                    Some(RedrawSelection::file_views())
                } else {
                    None
                },
                _ => None,
            },
            DataEvent::Limit(e) => match e {
                LimitEvent::Value(k, l) => self.value_redraw(k, l),
                LimitEvent::Label(k, l) => self.label_redraw(k, l@),
                LimitEvent::ToPlot(k) => if self.limit_to_plot != Some(k) {
                    Some(RedrawSelection::limit_views())
                } else {
                    None
                },
            },
            DataEvent::Heatmap(_) => Some(RedrawSelection::file_views()),
            DataEvent::Violin(e) => match e {
                ViolinEvent::ShowHide(_) => Some(RedrawSelection::file_views()),
                ViolinEvent::Value(k, l) => self.value_redraw(k, l),
                ViolinEvent::Label(k, l) => self.label_redraw(k, l@),
            },
        }
    }

    /// The center after the events, one after the other.
    pub open spec fn after_events(self, events: Seq<DataEvent<FileKey, LimitKey, File, Limit>>) -> Self
        decreases events.len(),
    {
        if events.len() == 0 {
            self
        } else {
            self.after_events(events.drop_last()).step(events.last())
        }
    }

    /// Whether the center can take the events, one after the other.
    pub open spec fn events_ok(self, events: Seq<DataEvent<FileKey, LimitKey, File, Limit>>) -> bool
        decreases events.len(),
    {
        events.len() == 0 || {
            &&& self.events_ok(events.drop_last())
            &&& self.after_events(events.drop_last()).step_ok(events.last())
        }
    }

    /// Every part that one of the events asks to draw again.
    pub open spec fn redraw_after(self, events: Seq<DataEvent<FileKey, LimitKey, File, Limit>>) -> RedrawSelection
        decreases events.len(),
    {
        if events.len() == 0 {
            RedrawSelection::nothing()
        } else {
            let before = self.redraw_after(events.drop_last());
            match self.after_events(events.drop_last()).step_redraw(events.last()) {
                Some(a) => before.union(a),
                None => before,
            }
        }
    }

    /// Whether some file has a limit with the label `label`.
    pub open spec fn label_in_use(self, label: Seq<char>) -> bool {
        exists|fk: FileKey, j: int|
            #![trigger self.files[fk].content.limits_view()[j]]
            self.files.contains_key(fk) && 0 <= j < self.files[fk].content.limits_view().len()
                && self.files[fk].content.limits_view()[j].label_view() == label
    }

    /// Whether some file has the label of the limit under the key.
    pub open spec fn limit_in_use(self) -> spec_fn(LimitKey) -> bool {
        |k: LimitKey| self.label_in_use(self.limits[k].label_view())
    }

    /// The keys of the limits whose label some file still has.
    pub open spec fn limit_keys_in_use(self) -> Seq<LimitKey> {
        self.limit_keys.filter(self.limit_in_use())
    }

    /// The center without the limits whose label no file has any more.
    pub open spec fn unused_limits_removed(self) -> Self {
        CenterModel {
            limit_keys: self.limit_keys_in_use(),
            limits: self.limits.restrict(self.limit_keys_in_use().to_set()),
            ..self
        }
    }

    /// The center after the file under `key` was removed, together with the
    /// limits whose label no remaining file has.
    pub open spec fn file_removed(self, key: FileKey) -> Self {
        if self.files.contains_key(key) {
            CenterModel {
                file_keys: self.file_keys.remove(self.file_keys.index_of(key)),
                files: self.files.remove(key),
                ..self
            }.unused_limits_removed()
        } else {
            self
        }
    }
}

/// Limits that can all be added can be added up to any point.
pub proof fn lemma_can_add_prefix<FileKey: Incrementable, LimitKey: Incrementable, File: FileTrait<Limit = Limit>, Limit: LimitTrait>(
    s: CenterModel<FileKey, LimitKey, File, Limit>,
    ls: Seq<Limit>,
    n: int,
)
    requires
        0 <= n <= ls.len(),
        s.can_add_limits(ls),
    ensures
        s.can_add_limits(ls.take(n)),
    decreases ls.len() - n,
{
    if n < ls.len() {
        lemma_can_add_prefix(s, ls, n + 1);
        assert(ls.take(n + 1).drop_last() =~= ls.take(n));
    } else {
        assert(ls.take(n) =~= ls);
    }
}

/// Adding limits keeps the limits there were, and every limit key stays
/// before the next one.
pub proof fn lemma_limits_added_keeps<FileKey: Incrementable, LimitKey: Incrementable, File: FileTrait<Limit = Limit>, Limit: LimitTrait>(
    s: CenterModel<FileKey, LimitKey, File, Limit>,
    ls: Seq<Limit>,
)
    requires
        s.can_add_limits(ls),
        forall|k: LimitKey| #[trigger] s.limits.contains_key(k) ==> k.position() < s.next_limit_key.position(),
    ensures
        forall|k: LimitKey| #[trigger] s.limits.contains_key(k) ==> s.limits_added(ls).limits.contains_key(k)
            && s.limits_added(ls).limits[k] == s.limits[k],
        forall|k: LimitKey| #[trigger] s.limits_added(ls).limits.contains_key(k) ==> k.position()
            < s.limits_added(ls).next_limit_key.position(),
        s.limits_added(ls).files == s.files,
        s.limits_added(ls).file_keys == s.file_keys,
    decreases ls.len(),
{
    if ls.len() > 0 {
        lemma_limits_added_keeps(s, ls.drop_last());
        let pre = s.limits_added(ls.drop_last());
        if !pre.has_limit_labeled(ls.last().label_view()) {
            LimitKey::lemma_successor_position(pre.next_limit_key);
            assert(!pre.limits.contains_key(pre.next_limit_key));
        }
    }
}

/// After adding limits, each of their labels is carried by some limit.
pub proof fn lemma_limits_added_labeled<FileKey: Incrementable, LimitKey: Incrementable, File: FileTrait<Limit = Limit>, Limit: LimitTrait>(
    s: CenterModel<FileKey, LimitKey, File, Limit>,
    ls: Seq<Limit>,
    j: int,
)
    requires
        s.can_add_limits(ls),
        forall|k: LimitKey| #[trigger] s.limits.contains_key(k) ==> k.position() < s.next_limit_key.position(),
        0 <= j < ls.len(),
    ensures
        s.limits_added(ls).has_limit_labeled(ls[j].label_view()),
    decreases ls.len(),
{
    let pre = s.limits_added(ls.drop_last());
    lemma_limits_added_keeps(s, ls.drop_last());
    if j < ls.len() - 1 {
        lemma_limits_added_labeled(s, ls.drop_last(), j);
        let k = choose|k: LimitKey| #[trigger] pre.limits.contains_key(k) && pre.limits[k].label_view() == ls[j].label_view();
        if !pre.has_limit_labeled(ls.last().label_view()) {
            assert(k != pre.next_limit_key);
            assert(s.limits_added(ls).limits.contains_key(k));
        }
    } else {
        if !pre.has_limit_labeled(ls.last().label_view()) {
            assert(s.limits_added(ls).limits.contains_key(pre.next_limit_key));
        }
    }
}

/// Events that can all be taken can be taken up to any point.
pub proof fn lemma_events_ok_prefix<FileKey: Incrementable, LimitKey: Incrementable, File: FileTrait<Limit = Limit>, Limit: LimitTrait>(
    s: CenterModel<FileKey, LimitKey, File, Limit>,
    events: Seq<DataEvent<FileKey, LimitKey, File, Limit>>,
    n: int,
)
    requires
        0 <= n <= events.len(),
        s.events_ok(events),
    ensures
        s.events_ok(events.take(n)),
    decreases events.len() - n,
{
    if n < events.len() {
        lemma_events_ok_prefix(s, events, n + 1);
        assert(events.take(n + 1).drop_last() =~= events.take(n));
    } else {
        assert(events.take(n) =~= events);
    }
}

/// Two filterings differ in a row that both have.
pub open spec fn filterings_differ(a: Seq<bool>, b: Seq<bool>) -> bool {
    exists|i: int| 0 <= i < a.len() && i < b.len() && a[i] != b[i]
}

/// Whether two filterings differ in a row that both have.
fn differ(a: &[bool], b: &[bool]) -> (r: bool)
    ensures
        r == filterings_differ(a@, b@),
{
    let mut i: usize = 0;
    while i < a.len() && i < b.len()
        invariant
            i <= a@.len(),
            i <= b@.len(),
            forall|j: int| 0 <= j < i ==> a@[j] == b@[j],
        decreases a@.len() - i,
    {
        if a[i] != b[i] {
            return true;
        }
        i = i + 1;
    }
    false
}

/// Whether a filtering filters out some row.
fn any_filtered(a: &[bool]) -> (r: bool)
    ensures
        r == a@.contains(true),
{
    let mut i: usize = 0;
    while i < a.len()
        invariant
            i <= a@.len(),
            forall|j: int| 0 <= j < i ==> !a@[j],
        decreases a@.len() - i,
    {
        if a[i] {
            return true;
        }
        i = i + 1;
    }
    false
}

impl<FileKey, LimitKey, File, Limit> Default for DataCenter<FileKey, LimitKey, File, Limit> where
    FileKey: Default + std::hash::Hash + Eq + Clone + Incrementable,
    LimitKey: Default + std::hash::Hash + Eq + Clone + Incrementable,
    File: FileTrait<Limit = Limit>,
    Limit: LimitTrait + Clone,
 {
    /// An empty center; the key generators start at the keys' defaults.
    fn default() -> (r: Self)
        ensures
            r.wf(),
            r@.file_keys == Seq::<FileKey>::empty(),
            r@.files == Map::<FileKey, FileModel<File, LimitKey>>::empty(),
            r@.limit_keys == Seq::<LimitKey>::empty(),
            r@.limits == Map::<LimitKey, Limit>::empty(),
            r@.filters == Map::<(FileKey, LimitKey), Seq<bool>>::empty(),
            r@.limit_to_plot == None::<LimitKey>,
            call_ensures(FileKey::default, (), r@.next_file_key),
            call_ensures(LimitKey::default, (), r@.next_limit_key),
    {
        let r = DataCenter {
            files: OrderedMap::new(),
            limits: OrderedMap::new(),
            filters: OrderedMap::new(),
            limit_to_plot: None,
            file_key_generator: KeyGenerator { current: FileKey::default() },
            limit_key_generator: KeyGenerator { current: LimitKey::default() },
        };
        proof {
            assert(r@.files =~= Map::<FileKey, FileModel<File, LimitKey>>::empty());
            assert(r@.limits =~= Map::<LimitKey, Limit>::empty());
            assert(r@.filters =~= Map::<(FileKey, LimitKey), Seq<bool>>::empty());
        }
        r
    }
}

/// Filtering one more element of a sequence adds it at the end if it is kept.
pub proof fn lemma_filter_take_step<A>(s: Seq<A>, p: spec_fn(A) -> bool, pos: int)
    requires
        0 <= pos < s.len(),
    ensures
        s.take(pos + 1).filter(p) == (if p(s[pos]) {
            s.take(pos).filter(p).push(s[pos])
        } else {
            s.take(pos).filter(p)
        }),
{
    reveal_with_fuel(Seq::filter, 1);
    assert(s.take(pos + 1).drop_last() =~= s.take(pos));
}

impl<FileKey, LimitKey, File, Limit> DataCenter<FileKey, LimitKey, File, Limit> where
    FileKey: std::hash::Hash + Eq + Clone + Incrementable,
    LimitKey: std::hash::Hash + Eq + Clone + Incrementable,
    File: FileTrait<Limit = Limit>,
    Limit: LimitTrait + Clone,
 {
    /// The maps are well formed, every file's columns exist, and the limit
    /// keys in use all came before the next limit key.
    pub closed spec fn wf(&self) -> bool {
        &&& self.files.wf()
        &&& self.limits.wf()
        &&& self.filters.wf()
        &&& forall|fk: FileKey| #[trigger] self.files@.contains_key(fk) ==> self.files@[fk].wf()
        &&& self@.limit_keys_fresh()
    }

    /// A center whose files changed, each keeping its columns, stays well
    /// formed when the files do.
    proof fn lemma_wf_files_changed(pre: &Self, post: &Self)
        requires
            pre.wf(),
            post.files.wf(),
            post.limits == pre.limits,
            post.filters == pre.filters,
            post.limit_key_generator == pre.limit_key_generator,
            forall|fk: FileKey| #[trigger] post.files@.contains_key(fk) ==> pre.files@.contains_key(fk)
                && post.files@[fk].wf() && post.files@[fk]@.limit_indices == pre.files@[fk]@.limit_indices,
        ensures
            post.wf(),
    {
        assert(post@.limits == pre@.limits);
        assert(post@.next_limit_key == pre@.next_limit_key);
        assert forall|fk: FileKey| #[trigger] post.files@.contains_key(fk) implies post.files@[fk].wf() by {}
        assert forall|fk: FileKey, lk: LimitKey|
            post@.files.contains_key(fk) && #[trigger] post@.files[fk].limit_indices.contains_key(lk)
                implies lk.position() < post@.next_limit_key.position() by {
            assert(pre@.files.contains_key(fk));
            assert(pre@.files[fk].limit_indices.contains_key(lk));
        }
    }

    /// Returns a fresh key for a file to load.
    #[must_use]
    pub fn new_file_key(&mut self) -> (key: FileKey)
        requires
            old(self)@.next_file_key.can_increment(),
        ensures
            key == old(self)@.next_file_key,
            final(self)@ == (CenterModel { next_file_key: key.successor(), ..old(self)@ }),
            final(self).wf() == old(self).wf(),
    {
        let key = self.file_key_generator.generate();
        proof {
            assert(self.files == old(self).files);
            assert(self.limits == old(self).limits);
            assert(self.limit_key_generator == old(self).limit_key_generator);
            assert(self@.limits == old(self)@.limits);
            assert(self@.files == old(self)@.files);
            assert(self@.limit_keys_fresh() == old(self)@.limit_keys_fresh());
        }
        key
    }

    #[must_use]
    fn new_limit_key(&mut self) -> (key: LimitKey)
        requires
            old(self)@.next_limit_key.can_increment(),
        ensures
            key == old(self)@.next_limit_key,
            final(self)@ == (CenterModel { next_limit_key: key.successor(), ..old(self)@ }),
            final(self).files == old(self).files,
            final(self).limits == old(self).limits,
            final(self).filters == old(self).filters,
    {
        self.limit_key_generator.generate()
    }

    /// Hides or shows one file or all of them; the views of files have to be
    /// drawn again.
    #[must_use]
    fn show_hide_event(&mut self, show_hide_event: ShowHideEvent<FileKey>) -> (r: Option<RedrawSelection>)
        requires
            old(self).wf(),
            center_laws::<FileKey, LimitKey, Limit>(),
        ensures
            final(self).wf(),
            final(self)@ == old(self)@.shown_changed(show_hide_event),
            r == Some(RedrawSelection::file_views()),
    {
        let ghost event = show_hide_event;
        let ShowHideEvent { hidden_or_shown, single_or_all } = show_hide_event;
        if let Some(key) = single_or_all {
            if let Some(file) = self.files.get_mut(&key) {
                file.change_shown(hidden_or_shown);
            }
            proof {
                let target = old(self)@.shown_changed(event);
                assert forall|k: FileKey| #[trigger] self.files@.contains_key(k) implies self.files@[k].wf()
                    && self.files@[k]@ == target.files[k] by {
                    assert(old(self).files@.contains_key(k));
                }
                assert(self@.files =~= target.files);
                assert(self@ == target);
                Self::lemma_wf_files_changed(old(self), self);
            }
        } else {
            let n = self.files.len();
            proof {
                self.files.lemma_wf_lengths();
                assert forall|j: int| 0 <= j < n implies #[trigger] self.files.values_view()[j].wf() by {
                    self.files.lemma_view_at(j);
                }
            }
            let mut i: usize = 0;
            while i < n
                invariant
                    n == self.files.keys_view().len(),
                    n == self.files.values_view().len(),
                    n == old(self).files.values_view().len(),
                    self.limits == old(self).limits,
                    self.filters == old(self).filters,
                    self.limit_to_plot == old(self).limit_to_plot,
                    self.file_key_generator == old(self).file_key_generator,
                    self.limit_key_generator == old(self).limit_key_generator,
                    i <= n,
                    self.files.wf(),
                    self.files.keys_view() == old(self).files.keys_view(),
                    forall|j: int| 0 <= j < i ==> #[trigger] self.files.values_view()[j]@ == (FileModel {
                        hidden_or_shown,
                        ..old(self).files.values_view()[j]@
                    }),
                    forall|j: int| i <= j < n ==> #[trigger] self.files.values_view()[j] == old(self).files.values_view()[j],
                    forall|j: int| 0 <= j < n ==> #[trigger] self.files.values_view()[j].wf(),
                decreases n - i,
            {
                let file = self.files.value_at_mut(i);
                file.change_shown(hidden_or_shown);
                i = i + 1;
            }
            proof {
                assert forall|k: FileKey| #[trigger] self.files@.contains_key(k) implies self.files@[k].wf()
                    && self.files@[k]@ == old(self)@.shown_changed(event).files[k] by {
                    let j = self.files.keys_view().index_of(k);
                    self.files.lemma_view_at(j);
                    old(self).files.lemma_view_at(j);
                }
                assert(self@.files =~= old(self)@.shown_changed(event).files);
                assert(self@ == old(self)@.shown_changed(event));
                Self::lemma_wf_files_changed(old(self), self);
            }
        }
        Some(RedrawSelection { files: true, limits: false, heatmap: true, violin: true })
    }

    /// Gives the file under `key` a new label; the views of files have to be
    /// drawn again if the file is shown.
    #[must_use]
    fn file_title(&mut self, key: FileKey, label: FileLabel) -> (r: Option<RedrawSelection>)
        requires
            old(self).wf(),
            center_laws::<FileKey, LimitKey, Limit>(),
        ensures
            final(self).wf(),
            final(self)@ == old(self)@.retitled(key, label@),
            r == (if old(self)@.is_shown(key) {
                Some(RedrawSelection::file_views())
            } else {
                None
            }),
    {
        let ghost label_view = label@;
        let r = if let Some(file) = self.files.get_mut(&key) {
            file.change_label(label);
            if file.is_shown() {
                Some(RedrawSelection { files: true, limits: false, heatmap: true, violin: true })
            } else {
                None
            }
        } else {
            None
        };
        proof {
            let target = old(self)@.retitled(key, label_view);
            assert forall|k: FileKey| #[trigger] self.files@.contains_key(k) implies self.files@[k].wf()
                && self.files@[k]@ == target.files[k] by {
                assert(old(self).files@.contains_key(k));
            }
            assert(self@.files =~= target.files);
            assert(self@ == target);
            Self::lemma_wf_files_changed(old(self), self);
        }
        r
    }

    /// Lets the files under `k1` and `k2` change places; the views of files
    /// have to be drawn again if one of the two is shown.
    #[must_use]
    fn order_switched(&mut self, k1: FileKey, k2: FileKey) -> (r: Option<RedrawSelection>)
        requires
            old(self).wf(),
            center_laws::<FileKey, LimitKey, Limit>(),
        ensures
            final(self).wf(),
            final(self)@ == old(self)@.switched(k1, k2),
            r == (if old(self)@.is_shown(k1) || old(self)@.is_shown(k2) {
                Some(RedrawSelection::file_views())
            } else {
                None
            }),
    {
        self.files.swap(&k1, &k2);
        let v1 = match self.files.get(&k1) {
            Some(f) => f.is_shown(),
            None => false,
        };
        let v2 = match self.files.get(&k2) {
            Some(f) => f.is_shown(),
            None => false,
        };
        proof {
            assert(self@.files =~= old(self)@.files);
            assert(self@ == old(self)@.switched(k1, k2));
        }
        if v1 || v2 {
            Some(RedrawSelection { files: true, limits: false, heatmap: true, violin: true })
        } else {
            None
        }
    }

    /// Gives the limit under `key` a new label; the views of limits have to
    /// be drawn again if the label changed and the limit is the one to plot.
    #[must_use]
    fn limit_label(&mut self, key: LimitKey, label: LimitLabel) -> (r: Option<RedrawSelection>)
        requires
            old(self).wf(),
            center_laws::<FileKey, LimitKey, Limit>(),
        ensures
            final(self).wf(),
            final(self)@ == old(self)@.limit_relabeled(key, label),
            r == (if old(self)@.limits.contains_key(key) && old(self)@.limits[key].label_view() != label@
                && old(self)@.limit_to_plot == Some(key) {
                Some(RedrawSelection::limit_views())
            } else {
                None
            }),
    {
        let ghost label0 = label;
        let mut result = None;
        if let Some(limit) = self.limits.get_mut(&key) {
            if limit.change_label(label) && self.is_limit_to_plot(&key) {
                result = Some(RedrawSelection::limit());
            }
        }
        proof {
            assert(self@.limits =~= old(self)@.limit_relabeled(key, label0).limits);
            assert(self@ == old(self)@.limit_relabeled(key, label0));
        }
        result
    }

    /// Removes the file under `key` and the limits that no remaining file
    /// has; everything has to be drawn again if the file was present.
    #[must_use]
    fn file_removed(&mut self, key: FileKey) -> (r: Option<RedrawSelection>)
        requires
            old(self).wf(),
            center_laws::<FileKey, LimitKey, Limit>(),
        ensures
            final(self).wf(),
            final(self)@ == old(self)@.file_removed(key),
            r == (if old(self)@.files.contains_key(key) {
                Some(RedrawSelection::everything())
            } else {
                None
            }),
    {
        if self.files.remove(&key).is_some() {
            proof {
                assert(self@.files =~= old(self)@.files.remove(key));
                Self::lemma_wf_files_changed(old(self), self);
            }
            self.remove_unnecessary_limits();
            Some(RedrawSelection::redraw())
        } else {
            proof {
                assert(self@.files =~= old(self)@.files);
            }
            None
        }
    }

    /// Whether some file has a limit with the label of `limit`.
    fn label_used(&self, limit: &Limit) -> (r: bool)
        requires
            self.wf(),
        ensures
            r == self@.label_in_use(limit.label_view()),
    {
        let (keys, files) = self.files.iter();
        proof { self.files.lemma_wf_lengths(); }
        let mut i: usize = 0;
        while i < files.len()
            invariant
                keys@ == self.files.keys_view(),
                files@ == self.files.values_view(),
                files@.len() == keys@.len(),
                self.files.wf(),
                i <= files@.len(),
                forall|a: int, b: int|
                    #![trigger files@[a]@.content.limits_view()[b]]
                    0 <= a < i && 0 <= b < files@[a]@.content.limits_view().len()
                        ==> files@[a]@.content.limits_view()[b].label_view() != limit.label_view(),
            decreases files@.len() - i,
        {
            let lims = files[i].limits();
            let mut j: usize = 0;
            proof {
                assert forall|a: int, b: int|
                    #![trigger files@[a]@.content.limits_view()[b]]
                    0 <= a < i && 0 <= b < files@[a]@.content.limits_view().len()
                        implies files@[a]@.content.limits_view()[b].label_view() != limit.label_view() by {}
            }
            while j < lims.len()
                invariant
                    keys@ == self.files.keys_view(),
                    files@ == self.files.values_view(),
                    files@.len() == keys@.len(),
                    self.files.wf(),
                    i < files@.len(),
                    lims@ == files@[i as int]@.content.limits_view(),
                    j <= lims@.len(),
                    forall|b: int| 0 <= b < j ==> #[trigger] lims@[b].label_view() != limit.label_view(),
                decreases lims@.len() - j,
            {
                if lims[j].has_same_label(limit) {
                    proof {
                        self.files.lemma_view_at(i as int);
                        let fk = keys@[i as int];
                        assert(self@.files[fk].content.limits_view()[j as int].label_view() == limit.label_view());
                    }
                    return true;
                }
                j = j + 1;
            }
            i = i + 1;
        }
        proof {
            assert forall|fk: FileKey, b: int|
                self@.files.contains_key(fk) && 0 <= b < self@.files[fk].content.limits_view().len()
                implies #[trigger] self@.files[fk].content.limits_view()[b].label_view() != limit.label_view() by {
                let a = keys@.index_of(fk);
                self.files.lemma_view_at(a);
                assert(files@[a]@.content.limits_view()[b].label_view() != limit.label_view());
            }
        }
        false
    }

    /// Removes the limits whose label no file has.
    fn remove_unnecessary_limits(&mut self)
        requires
            old(self).wf(),
        ensures
            final(self).wf(),
            final(self)@ == old(self)@.unused_limits_removed(),
    {
        let ghost orig = old(self)@;
        let ghost in_use = orig.limit_in_use();
        let ghost mut pos: int = 0;
        let mut i: usize = 0;
        proof {
            self.limits.lemma_wf_lengths();
            assert(orig.limit_keys.take(0).filter(in_use) =~= Seq::<LimitKey>::empty());
            assert(orig.limit_keys.skip(0) =~= orig.limit_keys);
        }
        while i < self.limits.len()
            invariant
                self.wf(),
                self.files == old(self).files,
                self.filters == old(self).filters,
                self.limit_to_plot == old(self).limit_to_plot,
                self.file_key_generator == old(self).file_key_generator,
                self.limit_key_generator == old(self).limit_key_generator,
                orig == old(self)@,
                in_use == orig.limit_in_use(),
                orig.limit_keys_fresh(),
                0 <= pos <= orig.limit_keys.len(),
                i == orig.limit_keys.take(pos).filter(in_use).len(),
                self.limits.keys_view() == orig.limit_keys.take(pos).filter(in_use) + orig.limit_keys.skip(pos),
                forall|k: LimitKey| #[trigger] self.limits@.contains_key(k) ==> self.limits@[k] == orig.limits[k]
                    && orig.limits.contains_key(k),
            decreases self.limits.keys_view().len() - i,
        {
            proof {
                self.limits.lemma_wf_lengths();
                self.limits.lemma_view_at(i as int);
                assert(self.limits.keys_view()[i as int] == orig.limit_keys[pos]);
                lemma_filter_take_step(orig.limit_keys, in_use, pos);
                assert(orig.limit_keys.skip(pos) =~= seq![orig.limit_keys[pos]] + orig.limit_keys.skip(pos + 1));
            }
            let used = {
                let (_, values) = self.limits.iter();
                let used = self.label_used(&values[i]);
                proof {
                    let x = orig.limit_keys[pos];
                    assert(self@.files == orig.files);
                    assert(values@[i as int] == self.limits@[x]);
                    assert(self.limits@.contains_key(x));
                    assert(values@[i as int] == orig.limits[x]);
                    assert(used == self@.label_in_use(orig.limits[x].label_view()));
                    assert(self@.label_in_use(orig.limits[x].label_view()) == orig.label_in_use(orig.limits[x].label_view()));
                    assert(used == in_use(x));
                }
                used
            };
            if used {
                proof {
                    assert(self.limits.keys_view() =~= orig.limit_keys.take(pos + 1).filter(in_use) + orig.limit_keys.skip(pos + 1));
                    pos = pos + 1;
                }
                i = i + 1;
            } else {
                let _ = self.limits.remove_at(i);
                proof {
                    assert forall|lk: LimitKey| #[trigger] self.limits@.contains_key(lk) implies lk.position()
                        < self@.next_limit_key.position() by {
                        assert(orig.limits.contains_key(lk));
                    }
                    assert(self.limits.keys_view() =~= orig.limit_keys.take(pos + 1).filter(in_use) + orig.limit_keys.skip(pos + 1));
                    pos = pos + 1;
                }
            }
        }
        proof {
            broadcast use vstd::seq_lib::group_filter_ensures;
            self.limits.lemma_wf_lengths();
            assert(pos == orig.limit_keys.len()) by {
                assert(self.limits.keys_view().len() == i);
            }
            assert(orig.limit_keys.take(pos) =~= orig.limit_keys);
            assert(orig.limit_keys.skip(pos) =~= Seq::<LimitKey>::empty());
            assert(self.limits.keys_view() =~= orig.limit_keys_in_use());
            assert forall|k: LimitKey| #[trigger] self.limits@.contains_key(k) == orig.limits.restrict(orig.limit_keys_in_use().to_set()).contains_key(k) by {
                if orig.limit_keys_in_use().contains(k) {
                    orig.limit_keys.lemma_filter_contains_rev(in_use, k);
                    assert(orig.limit_keys.contains(k));
                    assert(orig.limits.contains_key(k));
                }
            }
            assert(self.limits@ =~= orig.limits.restrict(orig.limit_keys_in_use().to_set()));
            assert(self@ == orig.unused_limits_removed());
        }
    }

    /// The limit under `limit_key` gets the new value `new`: each file with a
    /// column for it applies it, its counts follow, and the views of limits
    /// have to be drawn again if a filtering changed.
    #[must_use]
    fn limit_value(&mut self, limit_key: LimitKey, new: Limit) -> (r: Option<RedrawSelection>)
        requires
            old(self).wf(),
            center_laws::<FileKey, LimitKey, Limit>(),
            old(self)@.value_ok(limit_key, new),
        ensures
            final(self).wf(),
            final(self)@ == old(self)@.value_changed(limit_key, new),
            r == (if old(self)@.value_changes(limit_key, new) {
                Some(RedrawSelection::limit_views())
            } else {
                None
            }),
    {
        let ghost orig = old(self)@;
        proof {
            lemma_eq_is_identity::<LimitKey>();
            crate::keys::lemma_pair_eq_is_identity::<FileKey, LimitKey>();
        }
        if self.limits.position(&limit_key).is_none() {
            proof {
                assert(!orig.limits.contains_key(limit_key));
            }
            return None;
        }
        let mut changed = false;
        let n = self.files.len();
        proof {
            self.files.lemma_wf_lengths();
            assert forall|j: int| 0 <= j < n implies #[trigger] self.files.values_view()[j].wf() by {
                self.files.lemma_view_at(j);
            }
        }
        let mut i: usize = 0;
        while i < n
            invariant
                orig == old(self)@,
                old(self).wf(),
                orig.limits.contains_key(limit_key),
                orig.value_ok(limit_key, new),
                center_laws::<FileKey, LimitKey, Limit>(),
                eq_is_identity::<(FileKey, LimitKey)>(),
                n == self.files.keys_view().len(),
                n == self.files.values_view().len(),
                i <= n,
                self.files.wf(),
                self.filters.wf(),
                self.limits == old(self).limits,
                self.limit_to_plot == old(self).limit_to_plot,
                self.file_key_generator == old(self).file_key_generator,
                self.limit_key_generator == old(self).limit_key_generator,
                self.files.keys_view() == orig.file_keys,
                forall|j: int| 0 <= j < n ==> #[trigger] self.files.values_view()[j].wf(),
                forall|j: int| #![trigger self.files.values_view()[j]]
                    0 <= j < i ==> self.files.values_view()[j]@ == orig.value_changed_file(
                        orig.file_keys[j],
                        limit_key,
                        new,
                    ),
                forall|j: int| #![trigger self.files.values_view()[j]]
                    i <= j < n ==> self.files.values_view()[j]@ == orig.files[orig.file_keys[j]],
                forall|p: (FileKey, LimitKey)| #[trigger] self.filters@.contains_key(p) == (orig.filters.contains_key(p)
                    || (p.1 == limit_key && orig.has_column(p.0, limit_key) && orig.file_keys.take(i as int).contains(p.0))),
                forall|p: (FileKey, LimitKey)| #[trigger] self.filters@.contains_key(p) ==> self.filters@[p]@ == (if orig.filters.contains_key(p) {
                    orig.filters[p]
                } else {
                    orig.filtering(p.0, limit_key, new)
                }),
                changed == exists|j: int| 0 <= j < i && #[trigger] orig.value_changes_file(orig.file_keys[j], limit_key, new),
            decreases n - i,
        {
            let file_key = {
                let (keys, _) = self.files.iter();
                keys[i].clone()
            };
            proof {
                old(self).files.lemma_view_at(i as int);
                old(self).files.lemma_wf_lengths();
                assert(orig.files.contains_key(file_key));
                assert(orig.value_ok_file(file_key, limit_key, new));
                assert(!orig.file_keys.take(i as int).contains(file_key)) by {
                    if orig.file_keys.take(i as int).contains(file_key) {
                        let t = orig.file_keys.take(i as int).index_of(file_key);
                        assert(orig.file_keys[t] == file_key);
                    }
                }
            }
            let ghost pair = (file_key, limit_key);
            let ghost changed_before = changed;
            proof {
                assert(orig.file_keys.take(i as int + 1)[i as int] == file_key);
                assert(self.filters@.contains_key(pair) == orig.filters.contains_key(pair));
            }
            let file = self.files.value_at_mut(i);
            if let Some(new_filters) = file.apply_limit(&limit_key, &new) {
                let filter_key = (file_key.clone(), limit_key.clone());
                assert(filter_key == pair);
                match self.filters.get(&filter_key) {
                    Some(old_filters) => {
                        changed = changed || differ(&new_filters, old_filters);
                        file.filters_adjusted(&new_filters, old_filters);
                    },
                    None => {
                        changed = changed || any_filtered(&new_filters);
                        file.filters_new(&new_filters);
                        let _ = self.filters.insert(filter_key, new_filters);
                    },
                }
            }
            proof {
                assert(changed == (changed_before || orig.value_changes_file(file_key, limit_key, new)));
                if changed {
                    if !changed_before {
                        assert(orig.value_changes_file(orig.file_keys[i as int], limit_key, new));
                    }
                }
                assert(orig.file_keys.take(i as int + 1) =~= orig.file_keys.take(i as int).push(file_key));
                assert forall|p: (FileKey, LimitKey)| #[trigger] self.filters@.contains_key(p) == (orig.filters.contains_key(p)
                    || (p.1 == limit_key && orig.has_column(p.0, limit_key) && orig.file_keys.take(i as int + 1).contains(p.0))) by {
                    if p.0 == file_key && p.1 == limit_key {
                        assert(p == pair);
                    }
                    if orig.file_keys.take(i as int + 1).contains(p.0) && p.0 != file_key {
                        let t = orig.file_keys.take(i as int + 1).index_of(p.0);
                        assert(t < i);
                        assert(orig.file_keys.take(i as int)[t] == p.0);
                    }
                }
            }
            i = i + 1;
        }
        match self.limits.get_mut(&limit_key) {
            Some(previous) => {
                *previous = new;
            },
            None => {},
        }
        proof {
            let target = orig.value_changed(limit_key, new);
            assert(orig.file_keys.take(n as int) =~= orig.file_keys);
            assert forall|fk: FileKey| #[trigger] self.files@.contains_key(fk) implies self.files@[fk].wf()
                && self.files@[fk]@ == target.files[fk] by {
                let j = self.files.keys_view().index_of(fk);
                self.files.lemma_view_at(j);
            }
            assert(self@.files =~= target.files);
            assert forall|p: (FileKey, LimitKey)| #[trigger] self@.filters.contains_key(p) == target.filters.contains_key(p) by {
                if orig.has_column(p.0, limit_key) {
                    let j = orig.file_keys.index_of(p.0);
                    assert(orig.file_keys[j] == p.0);
                }
            }
            assert(self@.filters =~= target.filters);
            assert(self@.limits =~= target.limits);
            assert(self@ == target);
            if changed {
                let j = choose|j: int| 0 <= j < n && #[trigger] orig.value_changes_file(orig.file_keys[j], limit_key, new);
                old(self).files.lemma_view_at(j);
            }
            if orig.value_changes(limit_key, new) {
                let fk = choose|fk: FileKey| #[trigger] orig.files.contains_key(fk) && orig.value_changes_file(fk, limit_key, new);
                let j = orig.file_keys.index_of(fk);
                old(self).files.lemma_view_at(j);
            }
            assert(self@.limit_keys_fresh());
        }
        if changed {
            Some(RedrawSelection::limit())
        } else {
            None
        }
    }

    /// Whether some limit carries the label of `limit`.
    fn has_limit(&self, limit: &Limit) -> (r: bool)
        requires
            self.wf(),
        ensures
            r == self@.has_limit_labeled(limit.label_view()),
    {
        let (keys, values) = self.limits.iter();
        proof { self.limits.lemma_wf_lengths(); }
        let mut i: usize = 0;
        while i < values.len()
            invariant
                keys@ == self.limits.keys_view(),
                values@ == self.limits.values_view(),
                values@.len() == keys@.len(),
                self.limits.wf(),
                i <= values@.len(),
                forall|j: int| 0 <= j < i ==> #[trigger] values@[j].label_view() != limit.label_view(),
            decreases values@.len() - i,
        {
            if values[i].has_same_label(limit) {
                proof {
                    self.limits.lemma_view_at(i as int);
                    assert(self@.limits.contains_key(keys@[i as int]));
                }
                return true;
            }
            i = i + 1;
        }
        proof {
            assert forall|k: LimitKey| #[trigger] self@.limits.contains_key(k) implies self@.limits[k].label_view()
                != limit.label_view() by {
                let j = keys@.index_of(k);
                self.limits.lemma_view_at(j);
            }
        }
        false
    }

    /// Adds each limit whose label no limit carries yet, under a new key.
    fn add_limits(&mut self, limits: &[Limit])
        requires
            old(self).wf(),
            center_laws::<FileKey, LimitKey, Limit>(),
            old(self)@.can_add_limits(limits@),
        ensures
            final(self).wf(),
            final(self)@ == old(self)@.limits_added(limits@),
    {
        let ghost orig = old(self)@;
        let mut t: usize = 0;
        while t < limits.len()
            invariant
                self.wf(),
                center_laws::<FileKey, LimitKey, Limit>(),
                orig == old(self)@,
                orig.can_add_limits(limits@),
                t <= limits@.len(),
                self@ == orig.limits_added(limits@.take(t as int)),
            decreases limits@.len() - t,
        {
            let limit = &limits[t];
            proof {
                assert(limits@.take(t as int + 1).drop_last() =~= limits@.take(t as int));
                lemma_can_add_prefix(orig, limits@, t as int + 1);
            }
            let has_limit = self.has_limit(limit);
            if !has_limit {
                let ghost before = self@;
                proof {
                    LimitKey::lemma_successor_position(before.next_limit_key);
                }
                let key = self.new_limit_key();
                proof {
                    lemma_eq_is_identity::<LimitKey>();
                    crate::keys::lemma_pair_eq_is_identity::<FileKey, LimitKey>();
                    assert(self@.limit_keys_fresh());
                }
                let ghost mid = self@;
                let ghost mid_self = *self;
                // A new key cannot be a column of a file that is already loaded.
                let n = self.files.len();
                let mut i: usize = 0;
                while i < n
                    invariant
                        center_laws::<FileKey, LimitKey, Limit>(),
                        eq_is_identity::<(FileKey, LimitKey)>(),
                        n == self.files.keys_view().len(),
                        i <= n,
                        mid == mid_self@,
                        mid_self.wf(),
                        self.limits == mid_self.limits,
                        self.filters == mid_self.filters,
                        self.limit_to_plot == mid_self.limit_to_plot,
                        self.file_key_generator == mid_self.file_key_generator,
                        self.limit_key_generator == mid_self.limit_key_generator,
                        self.files.wf(),
                        self.files.keys_view() == mid_self.files.keys_view(),
                        self.files.values_view() == mid_self.files.values_view(),
                        forall|fk: FileKey, lk: LimitKey|
                            mid.files.contains_key(fk) && #[trigger] mid.files[fk].limit_indices.contains_key(lk)
                                ==> lk.position() < key.position(),
                    decreases n - i,
                {
                    let file_key = {
                        let (keys, _) = self.files.iter();
                        keys[i].clone()
                    };
                    proof {
                        self.files.lemma_view_at(i as int);
                        self.files.lemma_wf_lengths();
                    }
                    let file = self.files.value_at_mut(i);
                    if let Some(filters) = file.apply_limit(&key, limit) {
                        proof {
                            assert(mid.files[file_key].limit_indices.contains_key(key));
                            assert(false);
                        }
                        file.filters_new(&filters);
                        let _ = self.filters.insert((file_key, key.clone()), filters);
                    }
                    assert(*file == mid_self.files.values_view()[i as int]);
                    proof {
                        assert(self.files.values_view() =~= mid_self.files.values_view());
                    }
                    i = i + 1;
                }
                proof {
                    assert(self@.files =~= mid.files);
                    assert(self@ == mid);
                    assert(!self.limits@.contains_key(key));
                }
                let _ = self.limits.insert(key, limit.clone());
                proof {
                    assert(self@ == orig.limits_added(limits@.take(t as int + 1)));
                    assert(self@.limit_keys_fresh());
                }
            }
            t = t + 1;
        }
        proof {
            assert(limits@.take(limits@.len() as int) =~= limits@);
        }
    }

    /// A parsed file arrives under `key`: its new limits are added, it is
    /// wrapped and appended; everything has to be drawn again.
    #[must_use]
    fn file_loaded(&mut self, key: FileKey, label: FileLabel, file: File) -> (r: Option<RedrawSelection>)
        requires
            old(self).wf(),
            center_laws::<FileKey, LimitKey, Limit>(),
            old(self)@.loaded_ok(key, file),
        ensures
            final(self).wf(),
            final(self)@ == old(self)@.loaded(key, label@, file),
            r == Some(RedrawSelection::everything()),
    {
        let ghost orig = old(self)@;
        let ghost ls = file.limits_view();
        self.add_limits(file.limits());
        proof {
            lemma_eq_is_identity::<FileKey>();
            lemma_eq_is_identity::<LimitKey>();
            self.limits.lemma_wf_lengths();
            lemma_limits_added_keeps(orig, ls);
            assert forall|j: int| 0 <= j < ls.len() implies #[trigger] first_with_label(
                self.limits.keys_view(),
                self.limits@,
                ls[j].label_view(),
            ) is Some by {
                lemma_limits_added_labeled(orig, ls, j);
                let k = choose|k: LimitKey| #[trigger] self@.limits.contains_key(k) && self@.limits[k].label_view()
                    == ls[j].label_view();
                let i = self.limits.keys_view().index_of(k);
                self.limits.lemma_view_at(i);
                lemma_first_with_label_found(self.limits.keys_view(), self.limits@, ls[j].label_view(), i);
            }
        }
        let ghost s1 = self@;
        assert(s1.limit_keys_fresh());
        let mut wrapper = FileWrapper::new(label, file, &self.limits);
        let ghost fresh_wrapper = wrapper;
        let n = self.limits.len();
        let mut j: usize = 0;
        while j < n
            invariant
                self.limits.wf(),
                n == self.limits.keys_view().len(),
                j <= n,
                wrapper == fresh_wrapper,
                wrapper.wf(),
                eq_is_identity::<LimitKey>(),
            decreases n - j,
        {
            let (keys, values) = self.limits.iter();
            proof { self.limits.lemma_wf_lengths(); }
            let _ = wrapper.apply_limit(&keys[j], &values[j]);
            j = j + 1;
        }
        proof {
            lemma_limit_indices_for_keys(ls, s1.limit_keys, s1.limits);
            assert(!self.files@.contains_key(key));
        }
        let _ = self.files.insert(key, wrapper);
        proof {
            let target = orig.loaded(key, label@, file);
            assert forall|fk: FileKey| #[trigger] self.files@.contains_key(fk) implies self.files@[fk].wf() by {
                if fk != key {
                    assert(s1.files.contains_key(fk));
                }
            }
            assert(self@.files =~= target.files);
            assert(self@ == target);
            assert forall|fk: FileKey, lk: LimitKey|
                self@.files.contains_key(fk) && #[trigger] self@.files[fk].limit_indices.contains_key(lk)
                    implies lk.position() < self@.next_limit_key.position() by {
                if fk == key {
                    assert(s1.limit_keys.contains(lk));
                    let i = s1.limit_keys.index_of(lk);
                    assert(s1.limits.contains_key(lk));
                    assert(orig.limits_added(ls).limits.contains_key(lk));
                    assert(lk.position() < orig.limits_added(ls).next_limit_key.position());
                } else {
                    assert(s1.files.contains_key(fk));
                    assert(s1.files[fk].limit_indices.contains_key(lk));
                }
            }
            assert(self@.limit_keys_fresh());
        }
        Some(RedrawSelection::redraw())
    }

    /// Takes one event and says what has to be drawn again, if anything.
    #[must_use]
    pub fn process_event(&mut self, event: DataEvent<FileKey, LimitKey, File, Limit>) -> (r: Option<RedrawSelection>)
        requires
            old(self).wf(),
            center_laws::<FileKey, LimitKey, Limit>(),
            old(self)@.step_ok(event),
        ensures
            final(self).wf(),
            final(self)@ == old(self)@.step(event),
            r == old(self)@.step_redraw(event),
    {
        match event {
            DataEvent::File(event) => match event {
                FileEvent::Loaded { key, label, file } => self.file_loaded(key, label, file),
                FileEvent::Removed(key) => self.file_removed(key),
                FileEvent::Title(key, label) => self.file_title(key, label),
                FileEvent::ShowHide(show_hide_event) => self.show_hide_event(show_hide_event),
                FileEvent::OrderSwitched(k1, k2) => self.order_switched(k1, k2),
                FileEvent::LoadFromContent { .. } => {
                    proof {
                        assert(false);
                    }
                    None
                },
                FileEvent::LoadFromPath { .. } => {
                    proof {
                        assert(false);
                    }
                    None
                },
            },
            DataEvent::Limit(event) => match event {
                LimitEvent::Value(limit_key, new) => self.limit_value(limit_key, new),
                LimitEvent::Label(key, label) => self.limit_label(key, label),
                LimitEvent::ToPlot(key) => {
                    if !self.is_limit_to_plot(&key) {
                        self.limit_to_plot = Some(key);
                        Some(RedrawSelection::limit())
                    } else {
                        None
                    }
                },
            },
            DataEvent::Heatmap(event) => match event {
                HeatmapEvent::ShowHide(show_hide_event) => self.show_hide_event(show_hide_event),
            },
            DataEvent::Violin(event) => match event {
                ViolinEvent::ShowHide(show_hide_event) => self.show_hide_event(show_hide_event),
                ViolinEvent::Value(key, limit) => self.limit_value(key, limit),
                ViolinEvent::Label(key, label) => self.limit_label(key, label),
            },
        }
    }

    /// Takes the events one after the other and says which parts of the
    /// user interface have to be drawn again.
    #[must_use]
    pub fn progress(&mut self, events: Vec<DataEvent<FileKey, LimitKey, File, Limit>>) -> (r: RedrawSelection)
        requires
            old(self).wf(),
            center_laws::<FileKey, LimitKey, Limit>(),
            old(self)@.events_ok(events@),
        ensures
            final(self).wf(),
            final(self)@ == old(self)@.after_events(events@),
            r == old(self)@.redraw_after(events@),
    {
        let ghost orig = old(self)@;
        let ghost all = events@;
        let mut events = events;
        let mut action = RedrawSelection::default();
        let ghost mut t: int = 0;
        while events.len() > 0
            invariant
                self.wf(),
                center_laws::<FileKey, LimitKey, Limit>(),
                orig.events_ok(all),
                0 <= t <= all.len(),
                events@ == all.skip(t),
                self@ == orig.after_events(all.take(t)),
                action == orig.redraw_after(all.take(t)),
            decreases events@.len(),
        {
            proof {
                assert(all.take(t + 1).drop_last() =~= all.take(t));
                assert(all.take(t + 1).last() == all[t]);
                lemma_events_ok_prefix(orig, all, t + 1);
            }
            let event = events.remove(0);
            if let Some(a) = self.process_event(event) {
                std::ops::BitOrAssign::bitor_assign(&mut action, a);
            }
            proof {
                assert(events@ =~= all.skip(t + 1));
                t = t + 1;
            }
        }
        proof {
            assert(all.take(t) =~= all);
        }
        action
    }

    /// Whether the limit under `key` is the one to plot.
    fn is_limit_to_plot(&self, key: &LimitKey) -> (r: bool)
        requires
            center_laws::<FileKey, LimitKey, Limit>(),
        ensures
            r == (self.limit_to_plot == Some(*key)),
    {
        proof { lemma_eq_is_identity::<LimitKey>(); }
        match &self.limit_to_plot {
            Some(k) => *k == *key,
            None => false,
        }
    }
}


/// Asking twice for the same limit to be plotted changes nothing the second
/// time and draws nothing again.
pub proof fn law_to_plot_idempotent<FileKey: Incrementable, LimitKey: Incrementable, File: FileTrait<Limit = Limit>, Limit: LimitTrait>(
    c: CenterModel<FileKey, LimitKey, File, Limit>,
    key: LimitKey,
)
    ensures
        ({
            let event = DataEvent::<FileKey, LimitKey, File, Limit>::Limit(LimitEvent::ToPlot(key));
            &&& c.step(event).step(event) == c.step(event)
            &&& c.step(event).step_redraw(event) is None
        }),
{
}

/// Giving a limit the same label twice changes nothing the second time and
/// draws nothing again.
pub proof fn law_relabel_idempotent<FileKey: Incrementable, LimitKey: Incrementable, File: FileTrait<Limit = Limit>, Limit: LimitTrait>(
    c: CenterModel<FileKey, LimitKey, File, Limit>,
    key: LimitKey,
    label: LimitLabel,
)
    ensures
        c.limit_relabeled(key, label).limit_relabeled(key, label) == c.limit_relabeled(key, label),
        c.limit_relabeled(key, label).label_redraw(key, label@) is None,
{
    if c.limits.contains_key(key) && c.limits[key].label_view() != label@ {
        Limit::lemma_relabeled(c.limits[key], label);
        let once = c.limit_relabeled(key, label);
        assert(once.limits[key].label_view() == label@);
    }
}

/// Hiding or showing the same files a second time changes nothing.
pub proof fn law_show_hide_idempotent<FileKey: Incrementable, LimitKey: Incrementable, File: FileTrait<Limit = Limit>, Limit: LimitTrait>(
    c: CenterModel<FileKey, LimitKey, File, Limit>,
    event: ShowHideEvent<FileKey>,
)
    ensures
        c.shown_changed(event).shown_changed(event) == c.shown_changed(event),
{
    let once = c.shown_changed(event);
    match event.single_or_all {
        Some(key) => {
            if c.files.contains_key(key) {
                assert(once.files.insert(key, FileModel { hidden_or_shown: event.hidden_or_shown, ..once.files[key] }) =~= once.files);
            }
        },
        None => {
            assert(once.files.map_values(
                |f: FileModel<File, LimitKey>| FileModel { hidden_or_shown: event.hidden_or_shown, ..f },
            ) =~= once.files);
        },
    }
}

/// Each part that either selection asks for, in either order; asking twice
/// for the same parts asks for them once.
pub proof fn law_redraw_union(a: RedrawSelection, b: RedrawSelection)
    ensures
        a.union(b) == b.union(a),
        a.union(a) == a,
        a.union(RedrawSelection::nothing()) == a,
        a.union(RedrawSelection::everything()) == RedrawSelection::everything(),
{
}

/// Switching the same two files twice gives back the order of the files.
pub proof fn law_switch_twice<FileKey, LimitKey, File, Limit>(
    center: DataCenter<FileKey, LimitKey, File, Limit>,
    k1: FileKey,
    k2: FileKey,
) where
    FileKey: std::hash::Hash + Eq + Clone + Incrementable,
    LimitKey: std::hash::Hash + Eq + Clone + Incrementable,
    File: FileTrait<Limit = Limit>,
    Limit: LimitTrait + Clone,

    requires
        center.wf(),
    ensures
        center@.switched(k1, k2).switched(k1, k2) == center@,
{
    let c = center@;
    center.files.lemma_wf_lengths();
    if c.files.contains_key(k1) && c.files.contains_key(k2) {
        assert(center.files@.contains_key(k1));
        assert(center.files@.contains_key(k2));
        crate::ordered_map::law_swap_twice(c.file_keys, k1, k2);
        let once = c.switched(k1, k2);
        assert(once.files == c.files);
        assert(once.switched(k1, k2) =~= c);
    }
}


/// Removing a file right after it was loaded gives back the files and their
/// order as they were before the load.
pub proof fn law_remove_undoes_load<FileKey, LimitKey, File, Limit>(
    center: DataCenter<FileKey, LimitKey, File, Limit>,
    key: FileKey,
    label: Seq<char>,
    file: File,
) where
    FileKey: std::hash::Hash + Eq + Clone + Incrementable,
    LimitKey: std::hash::Hash + Eq + Clone + Incrementable,
    File: FileTrait<Limit = Limit>,
    Limit: LimitTrait + Clone,

    requires
        center.wf(),
        center@.loaded_ok(key, file),
    ensures
        center@.loaded(key, label, file).file_removed(key).file_keys == center@.file_keys,
        center@.loaded(key, label, file).file_removed(key).files == center@.files,
{
    let c = center@;
    center.files.lemma_wf_lengths();
    assert forall|k: LimitKey| #[trigger] c.limits.contains_key(k) implies k.position()
        < c.next_limit_key.position() by {}
    lemma_limits_added_keeps(c, file.limits_view());
    let l = c.loaded(key, label, file);
    let n = c.file_keys.len() as int;
    assert(!c.file_keys.contains(key));
    assert(l.file_keys[n] == key);
    assert(l.file_keys.index_of(key) == n) by {
        let t = l.file_keys.index_of(key);
        assert(l.file_keys.contains(key));
        if t < n {
            assert(c.file_keys[t] == key);
        }
    }
    assert(l.file_keys.remove(n) =~= c.file_keys);
    assert(l.files.remove(key) =~= c.files);
}


/// Taking events in two batches, one after the other, leaves the center as
/// taking them in one batch does, asks to draw again what either batch asks
/// for, and is possible exactly when the one batch is.
pub proof fn law_batches_compose<FileKey: Incrementable, LimitKey: Incrementable, File: FileTrait<Limit = Limit>, Limit: LimitTrait>(
    c: CenterModel<FileKey, LimitKey, File, Limit>,
    first: Seq<DataEvent<FileKey, LimitKey, File, Limit>>,
    second: Seq<DataEvent<FileKey, LimitKey, File, Limit>>,
)
    ensures
        c.after_events(first + second) == c.after_events(first).after_events(second),
        c.redraw_after(first + second) == c.redraw_after(first).union(
            c.after_events(first).redraw_after(second),
        ),
        c.events_ok(first + second) == (c.events_ok(first) && c.after_events(first).events_ok(second)),
    decreases second.len(),
{
    if second.len() == 0 {
        assert(first + second =~= first);
        law_redraw_union(c.redraw_after(first), RedrawSelection::nothing());
    } else {
        law_batches_compose(c, first, second.drop_last());
        assert((first + second).drop_last() =~= first + second.drop_last());
        assert((first + second).last() == second.last());
    }
}

/// Only loading, removing and switching files change the order of the
/// files, and only loading and removing files change the order of the
/// limits; every other event keeps both.
pub proof fn law_order_kept<FileKey: Incrementable, LimitKey: Incrementable, File: FileTrait<Limit = Limit>, Limit: LimitTrait>(
    c: CenterModel<FileKey, LimitKey, File, Limit>,
    event: DataEvent<FileKey, LimitKey, File, Limit>,
)
    ensures
        !(event matches DataEvent::File(FileEvent::Loaded { .. }))
            && !(event matches DataEvent::File(FileEvent::Removed(_))) ==> c.step(event).limit_keys
            == c.limit_keys,
        !(event matches DataEvent::File(FileEvent::Loaded { .. }))
            && !(event matches DataEvent::File(FileEvent::Removed(_)))
            && !(event matches DataEvent::File(FileEvent::OrderSwitched(_, _))) ==> c.step(event).file_keys
            == c.file_keys,
{
}

/// Hiding or showing one file changes only that file's visibility: every
/// other file keeps its state, and the file itself, when present, is hidden
/// or shown as asked.  Hiding or showing all files does that to each.
pub proof fn law_show_hide_touches_only_its_files<FileKey: Incrementable, LimitKey: Incrementable, File: FileTrait<Limit = Limit>, Limit: LimitTrait>(
    c: CenterModel<FileKey, LimitKey, File, Limit>,
    event: ShowHideEvent<FileKey>,
)
    ensures
        ({
            let after = c.shown_changed(event);
            &&& after.files.dom() == c.files.dom()
            &&& after == (CenterModel { files: after.files, ..c })
            &&& forall|k: FileKey|
                #[trigger] c.files.contains_key(k) && (event.single_or_all matches Some(j) && j != k)
                    ==> after.files[k] == c.files[k]
            &&& forall|k: FileKey|
                #[trigger] c.files.contains_key(k) && (event.single_or_all is None
                    || event.single_or_all == Some(k)) ==> after.files[k].hidden_or_shown
                    == event.hidden_or_shown && after.files[k].label == c.files[k].label
                    && after.files[k].content == c.files[k].content && after.files[k].limit_indices
                    == c.files[k].limit_indices && after.files[k].filters_summed
                    == c.files[k].filters_summed
        }),
{
    let after = c.shown_changed(event);
    match event.single_or_all {
        Some(key) => {
            if c.files.contains_key(key) {
                assert(after.files.dom() =~= c.files.dom());
            }
        },
        None => {
            assert(after.files.dom() =~= c.files.dom());
        },
    }
}

} // verus!
