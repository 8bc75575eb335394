use vstd::prelude::*;
use crate::keys::{FileKey, LimitKey};

verus! {

/// The kinds of tab that the application offers.
#[derive(Clone, Copy, PartialEq, Eq, Structural, Debug)]
pub enum TabKind {
    Dummy,
    Limit,
    Files,
    Heatmap,
    Violinplot,
    Selection,
}

/// Every kind of tab, in the order in which the tabs are first opened.
pub open spec fn all_kinds() -> Seq<TabKind> {
    seq![
        TabKind::Dummy,
        TabKind::Limit,
        TabKind::Files,
        TabKind::Heatmap,
        TabKind::Violinplot,
        TabKind::Selection,
    ]
}

impl TabKind {
    /// Every kind of tab, each once.
    pub fn kinds() -> (r: Vec<TabKind>)
        ensures
            r@ == all_kinds(),
    {
        vec![
            TabKind::Dummy,
            TabKind::Limit,
            TabKind::Files,
            TabKind::Heatmap,
            TabKind::Violinplot,
            TabKind::Selection,
        ]
    }
}

/// The kinds of tab that are not open yet, in the order of `kinds`: the
/// tabs to open so that each kind has one.
pub fn missing_kinds(open: &[TabKind]) -> (r: Vec<TabKind>)
    ensures
        r@ == all_kinds().filter(|k: TabKind| !open@.contains(k)),
{
    let kinds = TabKind::kinds();
    let mut r: Vec<TabKind> = Vec::new();
    let mut i: usize = 0;
    while i < kinds.len()
        invariant
            kinds@ == all_kinds(),
            i <= kinds@.len(),
            r@ == kinds@.take(i as int).filter(|k: TabKind| !open@.contains(k)),
        decreases kinds@.len() - i,
    {
        let kind = kinds[i];
        let mut found = false;
        let mut j: usize = 0;
        while j < open.len()
            invariant
                j <= open@.len(),
                found == open@.take(j as int).contains(kind),
            decreases open@.len() - j,
        {
            let ghost before = open@.take(j as int);
            let ghost after = open@.take(j + 1);
            proof {
                assert(after =~= before.push(open@[j as int]));
                if before.contains(kind) {
                    let t = choose|t: int| 0 <= t < before.len() && before[t] == kind;
                    assert(after[t] == kind);
                }
                if open@[j as int] == kind {
                    assert(after[j as int] == kind);
                }
                if after.contains(kind) {
                    let t = choose|t: int| 0 <= t < after.len() && after[t] == kind;
                    if t < j {
                        assert(before[t] == kind);
                    }
                }
            }
            if open[j] == kind {
                found = true;
            }
            j = j + 1;
        }
        proof {
            assert(open@.take(j as int) =~= open@);
            crate::center::lemma_filter_take_step(kinds@, |k: TabKind| !open@.contains(k), i as int);
        }
        if !found {
            r.push(kind);
        }
        i = i + 1;
    }
    proof {
        assert(kinds@.take(i as int) =~= kinds@);
    }
    r
}

/// The list of kinds names every kind of tab exactly once.
pub proof fn law_kinds_complete(kind: TabKind)
    ensures
        all_kinds().contains(kind),
        all_kinds().no_duplicates(),
{
    let s = all_kinds();
    match kind {
        TabKind::Dummy => assert(s[0] == kind),
        TabKind::Limit => assert(s[1] == kind),
        TabKind::Files => assert(s[2] == kind),
        TabKind::Heatmap => assert(s[3] == kind),
        TabKind::Violinplot => assert(s[4] == kind),
        TabKind::Selection => assert(s[5] == kind),
    }
}

/// The identity of an open tab.
#[derive(PartialEq, Eq, Hash, Structural, Debug)]
pub struct TabId(pub usize);

impl TabId {
    pub fn new(id: usize) -> (r: Self)
        ensures
            r.0 == id,
    {
        TabId(id)
    }
}

/// The tab that lists the files.
#[derive(Debug)]
pub struct FileTab {}

/// The tab that lists the limits.
#[derive(Debug)]
pub struct LimitTab {}

/// The tab that shows the selected points.
#[derive(Debug)]
pub struct SelectionTab {
    pub transpose: bool,
}

impl Default for FileTab {
    fn default() -> (r: Self) {
        FileTab {}
    }
}

impl Default for LimitTab {
    fn default() -> (r: Self) {
        LimitTab {}
    }
}

impl Default for SelectionTab {
    fn default() -> (r: Self)
        ensures
            !r.transpose,
    {
        SelectionTab { transpose: false }
    }
}

/// What a view asks of the files.
pub enum FileRequest {
    /// Hide the file under the key.
    Hide(FileKey),
    /// Show every file.
    ShowAll,
}

/// A cell of a heatmap grid.
#[derive(Clone, Copy, PartialEq, Eq, Structural, Debug)]
pub struct CoordinatePoint {
    pub x: i32,
    pub y: i32,
}

/// The part of a heatmap grid on screen: from its left top cell up to,
/// not including, its right bottom corner.
#[derive(Clone, Copy, PartialEq, Eq, Structural, Debug)]
pub struct Rectangle {
    pub left_top: CoordinatePoint,
    pub right_bottom: CoordinatePoint,
}

impl Rectangle {
    /// The first and the last column on screen: the bounds that the limit
    /// of the horizontal axis takes.
    pub fn x_range(&self) -> (r: (i32, i32))
        requires
            self.right_bottom.x > i32::MIN,
        ensures
            r == (self.left_top.x, (self.right_bottom.x - 1) as i32),
    {
        (self.left_top.x, self.right_bottom.x - 1)
    }

    /// The first and the last row on screen: the bounds that the limit of
    /// the vertical axis takes.
    pub fn y_range(&self) -> (r: (i32, i32))
        requires
            self.right_bottom.y > i32::MIN,
        ensures
            r == (self.left_top.y, (self.right_bottom.y - 1) as i32),
    {
        (self.left_top.y, self.right_bottom.y - 1)
    }
}

/// What a view asks of the limits.
pub enum LimitRequest {
    /// Give the limit under the key the label.
    RequestLabel(LimitKey, String),
    /// Bound the limits of the two axes of a heatmap to the part on screen.
    ShowRectangle { x_key: LimitKey, y_key: LimitKey, rectangle: Rectangle },
}

} // verus!
