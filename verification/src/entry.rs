//! Discovered filesystem entries, in the form the tree builder consumes.

use vstd::prelude::*;

verus! {

/// A discovered filesystem object: the directory segments that lead to it, its
/// own name, and whether it is a directory.
#[derive(Debug, PartialEq, Eq)]
pub struct PathEntry {
    /// The segments before the final one, outermost first.
    pub dirs: Vec<String>,
    /// The final segment: the raw name of the file or directory itself.
    pub last: String,
    /// Whether the walker reported the object as a directory.
    pub is_directory: bool,
}

/// The mathematical value of a [`PathEntry`].
pub struct PathEntryView {
    pub dirs: Seq<Seq<char>>,
    pub last: Seq<char>,
    pub is_directory: bool,
}

impl PathEntryView {
    /// The whole path, segment by segment.
    pub open spec fn segments(self) -> Seq<Seq<char>> {
        self.dirs.push(self.last)
    }
}

impl View for PathEntry {
    type V = PathEntryView;

    open spec fn view(&self) -> PathEntryView {
        PathEntryView {
            dirs: self.dirs.deep_view(),
            last: self.last@,
            is_directory: self.is_directory,
        }
    }
}

/// One item of the walker's output: an entry, or a failure that the walker
/// reported in place of one.
#[derive(Debug, PartialEq, Eq)]
pub enum WalkItem {
    Found(PathEntry),
    Failed,
}

impl View for WalkItem {
    type V = Option<PathEntryView>;

    open spec fn view(&self) -> Option<PathEntryView> {
        match self {
            WalkItem::Found(entry) => Some(entry@),
            WalkItem::Failed => None,
        }
    }
}

/// The mathematical value of a list of walker items.
pub open spec fn items_view(items: Seq<WalkItem>) -> Seq<Option<PathEntryView>> {
    Seq::new(items.len(), |i: int| items[i]@)
}

/// Copies a list of segments.
pub fn copy_segments(segments: &Vec<String>) -> (copy: Vec<String>)
    ensures
        copy.deep_view() == segments.deep_view(),
{
    let mut copy: Vec<String> = Vec::new();
    let mut i: usize = 0;
    while i < segments.len()
        invariant
            i <= segments.len(),
            copy.len() == i,
            forall|k: int| 0 <= k < i ==> copy[k]@ == segments[k]@,
        decreases segments.len() - i,
    {
        copy.push(segments[i].clone());
        i = i + 1;
    }
    assert(copy.deep_view() =~= segments.deep_view());
    copy
}

impl PathEntry {
    /// Splits a path into its directory segments and its final segment. A path
    /// without segments names nothing, and gives no entry.
    pub fn new(segments: Vec<String>, is_directory: bool) -> (entry: Option<PathEntry>)
        ensures
            entry is None <==> segments.len() == 0,
            entry matches Some(e) ==> e@.segments() == segments.deep_view() && e@.is_directory
                == is_directory,
    {
        let mut dirs = segments;
        match dirs.pop() {
            None => None,
            Some(last) => {
                let entry = PathEntry { dirs, last, is_directory };
                assert(entry@.segments() =~= segments.deep_view());
                Some(entry)
            },
        }
    }

    /// The whole path, segment by segment.
    pub fn segments(&self) -> (segments: Vec<String>)
        ensures
            segments.deep_view() == self@.segments(),
    {
        let mut segments = copy_segments(&self.dirs);
        segments.push(self.last.clone());
        assert(segments.deep_view() =~= self@.segments());
        segments
    }
}

} // verus!
