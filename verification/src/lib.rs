//! Data bookkeeping of a visualizer for measurement files with limits.
//!
//! Files carry columns of data, each column belongs to a limit (a label with
//! an optional lower and upper bound).  The library keeps the loaded files and
//! the limits in a stable order, counts per row how many limits filter it, and
//! decides which parts of a user interface need to be redrawn after an event.
//! Around that sit the smaller decisions of the application: which limit a
//! view shows, what kind of data a limit's column holds, how the counts of
//! filtered rows follow a changed limit, and whether the application may close.

pub mod labels;
pub mod keys;
pub mod ordered_map;
pub mod event;
pub mod file;
pub mod center;
pub mod localization;
pub mod lockable_key;
pub mod tabs;
pub mod confirm_exit;
pub mod limit_kind;
pub mod filtering;
pub mod grid;
pub mod text;
pub mod number_text;
pub mod table;

pub use center::{DataCenter, RedrawSelection};
pub use event::{
    DataEvent, FileEvent, HeatmapEvent, HiddenOrShown, LimitEvent, ShowHideEvent, ViolinEvent,
};
pub use file::{FileTrait, LimitTrait};
pub use keys::{Incrementable, SimpleFileKey, SimpleLimitKey};
pub use labels::{FileLabel, LimitLabel};
pub use localization::{Language, LocalizableStr, LocalizableString};
pub use ordered_map::OrderedMap;
pub mod simple_file;
