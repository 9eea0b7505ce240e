//! The mathematical model of the namespace tree: what a tree is, and what
//! folding an entry into it means.

use crate::entry::PathEntryView;
use vstd::prelude::*;

verus! {

/// The mathematical value of a namespace node. Children and files are kept in
/// the order in which their names first arrived.
pub struct NodeView {
    /// The raw segment that the node stands for; empty for a root without an
    /// enclosing declaration.
    pub name: Seq<char>,
    /// The export qualifier given for the node; `None` means fully exported.
    pub visibility: Option<Seq<char>>,
    /// The nested namespaces.
    pub children: Seq<NodeView>,
    /// The files directly inside the node, each under its final segment.
    pub entries: Seq<PathEntryView>,
}

/// The mathematical value of a text that may be absent.
pub open spec fn optional_text(text: Option<String>) -> Option<Seq<char>> {
    match text {
        Some(text) => Some(text@),
        None => None,
    }
}

/// The segment that denotes the current directory.
pub open spec fn current_dir() -> Seq<char> {
    seq!['.']
}

/// The first index at which `key` occurs in `keys`, if it occurs at all.
pub open spec fn position(keys: Seq<Seq<char>>, key: Seq<char>) -> Option<int>
    decreases keys.len(),
{
    if keys.len() == 0 {
        None
    } else {
        match position(keys.drop_last(), key) {
            Some(i) => Some(i),
            None => if keys.last() == key {
                Some(keys.len() - 1)
            } else {
                None
            },
        }
    }
}

/// The directory segments of a path that name a namespace: all but those that
/// denote the current directory.
pub open spec fn effective_dirs(dirs: Seq<Seq<char>>) -> Seq<Seq<char>>
    decreases dirs.len(),
{
    if dirs.len() == 0 {
        seq![]
    } else if dirs[0] == current_dir() {
        effective_dirs(dirs.drop_first())
    } else {
        seq![dirs[0]] + effective_dirs(dirs.drop_first())
    }
}

impl PathEntryView {
    /// The place of the entry in the tree: the namespaces to go through, then
    /// the entry's own name.
    pub open spec fn slot(self) -> Seq<Seq<char>> {
        effective_dirs(self.dirs).push(self.last)
    }
}

impl NodeView {
    /// A namespace that holds nothing yet.
    pub open spec fn empty(name: Seq<char>) -> NodeView {
        NodeView { name, visibility: None, children: seq![], entries: seq![] }
    }

    /// A root: a namespace that holds nothing yet and carries the qualifier of
    /// the enclosing declaration.
    pub open spec fn root(name: Seq<char>, visibility: Option<Seq<char>>) -> NodeView {
        NodeView { name, visibility, children: seq![], entries: seq![] }
    }

    /// The names of the nested namespaces, in order.
    pub open spec fn child_names(self) -> Seq<Seq<char>> {
        Seq::new(self.children.len(), |i: int| self.children[i].name)
    }

    /// The names of the files, in order.
    pub open spec fn entry_names(self) -> Seq<Seq<char>> {
        Seq::new(self.entries.len(), |i: int| self.entries[i].last)
    }

    /// Where the nested namespace called `name` stands.
    pub open spec fn child_index(self, name: Seq<char>) -> Option<int> {
        position(self.child_names(), name)
    }

    /// Where the file called `name` stands.
    pub open spec fn entry_index(self, name: Seq<char>) -> Option<int> {
        position(self.entry_names(), name)
    }

    /// The nested namespace called `name`.
    pub open spec fn child(self, name: Seq<char>) -> Option<NodeView> {
        match self.child_index(name) {
            Some(i) => Some(self.children[i]),
            None => None,
        }
    }

    /// The file called `name`.
    pub open spec fn file(self, name: Seq<char>) -> Option<PathEntryView> {
        match self.entry_index(name) {
            Some(i) => Some(self.entries[i]),
            None => None,
        }
    }

    /// The node without the file called `name`.
    pub open spec fn without_entry(self, name: Seq<char>) -> NodeView {
        match self.entry_index(name) {
            Some(i) => NodeView { entries: self.entries.remove(i), ..self },
            None => self,
        }
    }

    /// The node once a path has gone through the segment `name`: the namespace
    /// of that name is kept if there is one; otherwise an empty one takes the
    /// name, and a file that held it leaves.
    pub open spec fn with_child(self, name: Seq<char>) -> NodeView {
        if self.child_index(name) is Some {
            self
        } else {
            let cleared = self.without_entry(name);
            NodeView { children: cleared.children.push(NodeView::empty(name)), ..cleared }
        }
    }

    /// The node once a directory called `name` has arrived: an empty namespace
    /// takes the name, in place of the namespace or the file that held it.
    pub open spec fn put_directory(self, name: Seq<char>) -> NodeView {
        match self.child_index(name) {
            Some(i) => NodeView { children: self.children.update(i, NodeView::empty(name)), ..self },
            None => {
                let cleared = self.without_entry(name);
                NodeView { children: cleared.children.push(NodeView::empty(name)), ..cleared }
            },
        }
    }

    /// The node once the file `entry` has arrived. Directories take
    /// precedence: where a namespace holds the file's name, the namespace
    /// stays with all that it holds, and the file is passed over. Otherwise
    /// the file takes its name, in place of a file that held it.
    pub open spec fn put_file(self, entry: PathEntryView) -> NodeView {
        if self.child_index(entry.last) is Some {
            self
        } else {
            match self.entry_index(entry.last) {
                Some(i) => NodeView { entries: self.entries.update(i, entry), ..self },
                None => NodeView { entries: self.entries.push(entry), ..self },
            }
        }
    }

    /// The node once `entry` has arrived at it, with nowhere further to go.
    pub open spec fn put(self, entry: PathEntryView) -> NodeView {
        if entry.is_directory {
            self.put_directory(entry.last)
        } else {
            self.put_file(entry)
        }
    }

    /// The node with its `i`-th nested namespace replaced.
    pub open spec fn with_child_at(self, i: int, child: NodeView) -> NodeView {
        NodeView { children: self.children.update(i, child), ..self }
    }

    /// The node once `entry` has been folded in, `dirs` being the directory
    /// segments still to go through.
    pub open spec fn insert_at(self, dirs: Seq<Seq<char>>, entry: PathEntryView) -> NodeView
        decreases dirs.len(),
    {
        if dirs.len() == 0 {
            self.put(entry)
        } else if dirs[0] == current_dir() {
            self.insert_at(dirs.drop_first(), entry)
        } else {
            let entered = self.with_child(dirs[0]);
            match entered.child_index(dirs[0]) {
                Some(i) => entered.with_child_at(
                    i,
                    entered.children[i].insert_at(dirs.drop_first(), entry),
                ),
                None => entered,
            }
        }
    }

    /// The node once `entry` has been folded in.
    pub open spec fn insert(self, entry: PathEntryView) -> NodeView {
        self.insert_at(entry.dirs, entry)
    }

    /// The node once the walker's items have been folded in, in arrival order.
    /// An item that stands for a failure is passed over.
    pub open spec fn build(self, items: Seq<Option<PathEntryView>>) -> NodeView
        decreases items.len(),
    {
        if items.len() == 0 {
            self
        } else {
            let before = self.build(items.drop_last());
            match items.last() {
                Some(entry) => before.insert(entry),
                None => before,
            }
        }
    }

    /// No name is held twice under one node, by two namespaces, by two files,
    /// or by a namespace and a file; no nested namespace carries a qualifier of
    /// its own; and the same holds all the way down.
    pub open spec fn wf(self) -> bool
        decreases self,
    {
        &&& self.child_names().no_duplicates()
        &&& self.entry_names().no_duplicates()
        &&& forall|i: int, j: int|
            0 <= i < self.children.len() && 0 <= j < self.entries.len()
                ==> self.children[i].name != self.entries[j].last
        &&& forall|i: int|
            0 <= i < self.children.len() ==> (#[trigger] self.children[i]).visibility is None
                && self.children[i].wf()
    }

    /// The namespace reached from the node by going through `path`.
    pub open spec fn descend(self, path: Seq<Seq<char>>) -> Option<NodeView>
        decreases path.len(),
    {
        if path.len() == 0 {
            Some(self)
        } else {
            match self.child(path[0]) {
                Some(next) => next.descend(path.drop_first()),
                None => None,
            }
        }
    }

    /// The file that stands at `path`, counted from the node.
    pub open spec fn file_at(self, path: Seq<Seq<char>>) -> Option<PathEntryView> {
        if path.len() == 0 {
            None
        } else {
            match self.descend(path.drop_last()) {
                Some(node) => node.file(path.last()),
                None => None,
            }
        }
    }

    /// Whether a namespace stands at `path`, counted from the node.
    pub open spec fn has_namespace(self, path: Seq<Seq<char>>) -> bool {
        self.descend(path) is Some
    }
}

/// What `position` finds: the first occurrence, or nothing where the key does
/// not occur.
pub proof fn lemma_position(keys: Seq<Seq<char>>, key: Seq<char>)
    ensures
        match position(keys, key) {
            Some(i) => 0 <= i < keys.len() && keys[i] == key && forall|j: int|
                0 <= j < i ==> keys[j] != key,
            None => forall|j: int| 0 <= j < keys.len() ==> keys[j] != key,
        },
    decreases keys.len(),
{
    if keys.len() > 0 {
        let front = keys.drop_last();
        lemma_position(front, key);
        assert(forall|j: int| 0 <= j < front.len() ==> front[j] == keys[j]);
        match position(front, key) {
            Some(i) => {
                assert(front[i] == key);
            },
            None => {
                assert forall|j: int| 0 <= j < keys.len() - 1 implies keys[j] != key by {
                    assert(front[j] != key);
                }
            },
        }
    }
}

/// An index at which `key` occurs, with no occurrence before it, is what
/// `position` finds.
pub proof fn lemma_position_is(keys: Seq<Seq<char>>, key: Seq<char>, i: int)
    requires
        0 <= i < keys.len(),
        keys[i] == key,
        forall|j: int| 0 <= j < i ==> keys[j] != key,
    ensures
        position(keys, key) == Some(i),
{
    lemma_position(keys, key);
}

/// A key that does not occur is not found.
pub proof fn lemma_position_none(keys: Seq<Seq<char>>, key: Seq<char>)
    requires
        forall|j: int| 0 <= j < keys.len() ==> keys[j] != key,
    ensures
        position(keys, key) is None,
{
    lemma_position(keys, key);
}

} // verus!
