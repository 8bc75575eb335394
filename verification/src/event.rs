use vstd::prelude::*;
use crate::labels::{FileLabel, LimitLabel};

verus! {

/// A path on disk; carried through the events unchanged.
#[verifier::external_type_specification]
#[verifier::external_body]
pub struct ExPathBuf(std::path::PathBuf);

/// Whether a file is drawn.
#[derive(Clone, Copy, PartialEq, Eq, Structural, Debug)]
pub enum HiddenOrShown {
    Hidden,
    Shown,
}

/// Hide or show one file (`single_or_all` is `Some`) or all of them.
pub struct ShowHideEvent<Key> {
    pub hidden_or_shown: HiddenOrShown,
    pub single_or_all: Option<Key>,
}

/// What can happen to the data of the data center.
pub enum DataEvent<FileKey, LimitKey, File, Limit> {
    File(FileEvent<FileKey, File>),
    Limit(LimitEvent<LimitKey, Limit>),
    Heatmap(HeatmapEvent<FileKey>),
    Violin(ViolinEvent<FileKey, LimitKey, Limit>),
}

/// What can happen to the files.
pub enum FileEvent<Key, File> {
    /// A parsed file arrives under a new key.
    Loaded { key: Key, label: FileLabel, file: File },
    /// Raw content that still has to be parsed (not handled by the data center).
    LoadFromContent { label: String, content: Vec<u8> },
    /// A path that still has to be read (not handled by the data center).
    LoadFromPath { path: std::path::PathBuf },
    Removed(Key),
    Title(Key, FileLabel),
    /// The two files change their places in the order.
    OrderSwitched(Key, Key),
    ShowHide(ShowHideEvent<Key>),
}

/// What can happen to the limits.
pub enum LimitEvent<Key, LimitData> {
    /// The limit under the key gets new bounds.
    Value(Key, LimitData),
    Label(Key, LimitLabel),
    /// The limit under the key is the one to plot.
    ToPlot(Key),
}

/// What the heatmap view asks for.
pub enum HeatmapEvent<FileKey> {
    ShowHide(ShowHideEvent<FileKey>),
}

/// What the violin view asks for.
pub enum ViolinEvent<FileKey, LimitKey, LimitData> {
    ShowHide(ShowHideEvent<FileKey>),
    Value(LimitKey, LimitData),
    Label(LimitKey, LimitLabel),
}

} // verus!
