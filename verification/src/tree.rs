//! The tree builder: namespace nodes, and folding discovered entries into them.

use crate::entry::{items_view, PathEntry, WalkItem};
use crate::laws::{lemma_build_wf, lemma_insert_wf};
use crate::model::{
    current_dir, lemma_position, lemma_position_is, lemma_position_none, optional_text, NodeView,
};
use vstd::prelude::*;

verus! {

/// One directory level of the bundle: it owns its nested namespaces and the
/// files found directly inside it.
#[derive(Debug, PartialEq, Eq)]
pub struct NamespaceNode {
    pub(crate) name: String,
    pub(crate) visibility: Option<String>,
    pub(crate) children: Vec<NamespaceNode>,
    pub(crate) entries: Vec<PathEntry>,
}

impl NamespaceNode {
    /// The mathematical value of the node, nested namespaces included.
    pub closed spec fn model(self) -> NodeView
        decreases self,
    {
        NodeView {
            name: self.name@,
            visibility: optional_text(self.visibility),
            children: Seq::new(
                self.children.len() as nat,
                |i: int|
                    if 0 <= i < self.children.len() {
                        self.children[i].model()
                    } else {
                        arbitrary()
                    },
            ),
            entries: Seq::new(self.entries.len() as nat, |i: int| self.entries[i]@),
        }
    }
}

impl View for NamespaceNode {
    type V = NodeView;

    open spec fn view(&self) -> NodeView {
        self.model()
    }
}

impl NamespaceNode {
    /// What the node's value is made of.
    pub(crate) proof fn lemma_model(self)
        ensures
            self@.name == self.name@,
            self@.visibility == optional_text(self.visibility),
            self@.children.len() == self.children.len(),
            forall|i: int| 0 <= i < self.children.len() ==> self@.children[i] == self.children[i]@,
            self@.entries.len() == self.entries.len(),
            forall|i: int| 0 <= i < self.entries.len() ==> self@.entries[i] == self.entries[i]@,
    {
    }

    /// A namespace that holds nothing yet, with the name and the export
    /// qualifier of the declaration that encloses the bundle. Without a
    /// qualifier the namespace is fully exported.
    pub fn new(name: String, visibility: Option<String>) -> (node: Self)
        ensures
            node@ == NodeView::root(name@, optional_text(visibility)),
            node@.wf(),
    {
        let node = NamespaceNode { name, visibility, children: Vec::new(), entries: Vec::new() };
        proof {
            node.lemma_model();
            assert(node@.children =~= Seq::empty());
            assert(node@.entries =~= Seq::empty());
            assert(node@.wf());
        }
        node
    }

    /// The name of the node: the raw segment that it stands for.
    pub fn name(&self) -> (name: &String)
        ensures
            name@ == self@.name,
    {
        proof {
            self.lemma_model();
        }
        &self.name
    }

    /// The export qualifier given for the node; `None` means fully exported.
    pub fn visibility(&self) -> (visibility: &Option<String>)
        ensures
            optional_text(*visibility) == self@.visibility,
    {
        proof {
            self.lemma_model();
        }
        &self.visibility
    }

    /// The nested namespaces, in the order in which their names first
    /// arrived.
    pub fn children(&self) -> (children: &Vec<NamespaceNode>)
        ensures
            children.len() == self@.children.len(),
            forall|i: int| 0 <= i < children.len() ==> children[i]@ == self@.children[i],
    {
        proof {
            self.lemma_model();
        }
        &self.children
    }

    /// The files directly inside the node, in the order in which their names
    /// first arrived.
    pub fn entries(&self) -> (entries: &Vec<PathEntry>)
        ensures
            entries.len() == self@.entries.len(),
            forall|i: int| 0 <= i < entries.len() ==> entries[i]@ == self@.entries[i],
    {
        proof {
            self.lemma_model();
        }
        &self.entries
    }

    /// The nested namespace that stands under the raw name `name`.
    pub fn child(&self, name: &str) -> (child: Option<&NamespaceNode>)
        ensures
            match child {
                Some(node) => self@.child(name@) == Some(node@),
                None => self@.child(name@) is None,
            },
    {
        proof {
            self.lemma_model();
        }
        let key = name.to_owned();
        match self.find_child(&key) {
            Some(i) => Some(&self.children[i]),
            None => None,
        }
    }

    /// The file that stands under the raw name `name`.
    pub fn file(&self, name: &str) -> (file: Option<&PathEntry>)
        ensures
            match file {
                Some(entry) => self@.file(name@) == Some(entry@),
                None => self@.file(name@) is None,
            },
    {
        proof {
            self.lemma_model();
        }
        let key = name.to_owned();
        match self.find_entry(&key) {
            Some(i) => Some(&self.entries[i]),
            None => None,
        }
    }

    fn find_child(&self, name: &String) -> (found: Option<usize>)
        ensures
            found matches Some(i) ==> i < self.children.len() && self@.child_index(name@) == Some(
                i as int,
            ),
            found is None ==> self@.child_index(name@) is None,
    {
        proof {
            self.lemma_model();
        }
        let mut i: usize = 0;
        while i < self.children.len()
            invariant
                i <= self.children.len(),
                self@.children.len() == self.children.len(),
                forall|j: int| 0 <= j < self.children.len() ==> self@.children[j] == self.children[j]@,
                forall|j: int| 0 <= j < i ==> self@.child_names()[j] != name@,
            decreases self.children.len() - i,
        {
            proof {
                self.children[i as int].lemma_model();
            }
            if self.children[i].name == *name {
                proof {
                    lemma_position_is(self@.child_names(), name@, i as int);
                }
                return Some(i);
            }
            i = i + 1;
        }
        proof {
            lemma_position_none(self@.child_names(), name@);
        }
        None
    }

    fn find_entry(&self, name: &String) -> (found: Option<usize>)
        ensures
            found matches Some(i) ==> i < self.entries.len() && self@.entry_index(name@) == Some(
                i as int,
            ),
            found is None ==> self@.entry_index(name@) is None,
    {
        proof {
            self.lemma_model();
        }
        let mut i: usize = 0;
        while i < self.entries.len()
            invariant
                i <= self.entries.len(),
                self@.entries.len() == self.entries.len(),
                forall|j: int| 0 <= j < self.entries.len() ==> self@.entries[j] == self.entries[j]@,
                forall|j: int| 0 <= j < i ==> self@.entry_names()[j] != name@,
            decreases self.entries.len() - i,
        {
            if self.entries[i].last == *name {
                proof {
                    lemma_position_is(self@.entry_names(), name@, i as int);
                }
                return Some(i);
            }
            i = i + 1;
        }
        proof {
            lemma_position_none(self@.entry_names(), name@);
        }
        None
    }

    fn remove_entry(&mut self, name: &String)
        ensures
            final(self)@ == old(self)@.without_entry(name@),
    {
        match self.find_entry(name) {
            Some(i) => {
                self.entries.remove(i);
                proof {
                    old(self).lemma_model();
                    self.lemma_model();
                    assert(self@.children =~= old(self)@.children);
                    assert(self@.entries =~= old(self)@.entries.remove(i as int));
                }
            },
            None => {},
        }
    }

    fn push_child(&mut self, name: String)
        ensures
            final(self)@ == (NodeView {
                children: old(self)@.children.push(NodeView::empty(name@)),
                ..old(self)@
            }),
            final(self).children.len() == old(self).children.len() + 1,
    {
        let child = NamespaceNode::new(name, None);
        self.children.push(child);
        proof {
            old(self).lemma_model();
            self.lemma_model();
            assert(self@.entries =~= old(self)@.entries);
            assert(self@.children =~= old(self)@.children.push(NodeView::empty(name@)));
        }
    }

    /// Looks the nested namespace `name` up, making it first where it is not
    /// there yet, and says where it stands.
    fn enter(&mut self, name: &String) -> (i: usize)
        ensures
            final(self)@ == old(self)@.with_child(name@),
            final(self)@.child_index(name@) == Some(i as int),
            i < final(self).children.len(),
    {
        match self.find_child(name) {
            Some(i) => i,
            None => {
                self.remove_entry(name);
                let ghost cleared = self@;
                self.push_child(name.clone());
                proof {
                    let names = self@.child_names();
                    let i = names.len() - 1;
                    assert(cleared.child_names() =~= old(self)@.child_names());
                    lemma_position(old(self)@.child_names(), name@);
                    assert forall|j: int| 0 <= j < i implies names[j] != name@ by {
                        assert(names[j] == old(self)@.child_names()[j]);
                    }
                    lemma_position_is(names, name@, i);
                }
                self.children.len() - 1
            },
        }
    }

    fn put_directory(&mut self, name: String)
        ensures
            final(self)@ == old(self)@.put_directory(name@),
    {
        match self.find_child(&name) {
            Some(i) => {
                let child = NamespaceNode::new(name, None);
                self.children.set(i, child);
                proof {
                    old(self).lemma_model();
                    self.lemma_model();
                    assert(self@.entries =~= old(self)@.entries);
                    assert(self@.children =~= old(self)@.children.update(
                        i as int,
                        NodeView::empty(name@),
                    ));
                }
            },
            None => {
                self.remove_entry(&name);
                let ghost cleared = self@;
                self.push_child(name);
                proof {
                    assert(cleared.child_names() =~= old(self)@.child_names());
                }
            },
        }
    }

    fn put_file(&mut self, entry: PathEntry)
        ensures
            final(self)@ == old(self)@.put_file(entry@),
    {
        if self.find_child(&entry.last).is_some() {
            return ;
        }
        match self.find_entry(&entry.last) {
            Some(i) => {
                self.entries.set(i, entry);
                proof {
                    old(self).lemma_model();
                    self.lemma_model();
                    assert(self@.children =~= old(self)@.children);
                    assert(self@.entries =~= old(self)@.entries.update(i as int, entry@));
                }
            },
            None => {
                self.entries.push(entry);
                proof {
                    old(self).lemma_model();
                    self.lemma_model();
                    assert(self@.children =~= old(self)@.children);
                    assert(self@.entries =~= old(self)@.entries.push(entry@));
                }
            },
        }
    }

    fn insert_from(&mut self, entry: PathEntry, from: usize)
        requires
            from <= entry.dirs.len(),
        ensures
            final(self)@ == old(self)@.insert_at(entry@.dirs.skip(from as int), entry@),
        decreases entry.dirs.len() - from,
    {
        let ghost rest = entry@.dirs.skip(from as int);
        if from == entry.dirs.len() {
            if entry.is_directory {
                self.put_directory(entry.last);
            } else {
                self.put_file(entry);
            }
        } else {
            proof {
                assert(rest[0] == entry.dirs[from as int]@);
                assert(rest.drop_first() =~= entry@.dirs.skip(from + 1));
            }
            if is_current_dir(&entry.dirs[from]) {
                self.insert_from(entry, from + 1);
            } else {
                let i = self.enter(&entry.dirs[from]);
                let ghost entered = self@;
                let ghost before = *self;
                let child = &mut self.children[i];
                child.insert_from(entry, from + 1);
                proof {
                    before.lemma_model();
                    self.lemma_model();
                    assert(self@.entries =~= entered.entries);
                    assert(self@.children =~= entered.children.update(
                        i as int,
                        entered.children[i as int].insert_at(rest.drop_first(), entry@),
                    ));
                }
            }
        }
    }

    /// Folds one discovered entry into the tree: goes through its directory
    /// segments, making namespaces where none stands yet, and puts the entry
    /// under its final segment. A directory always takes its name, as an
    /// empty namespace; a file takes its name unless a namespace holds it.
    pub fn insert(&mut self, entry: PathEntry)
        ensures
            final(self)@ == old(self)@.insert(entry@),
            old(self)@.wf() ==> final(self)@.wf(),
    {
        proof {
            assert(entry@.dirs.skip(0) =~= entry@.dirs);
            if old(self)@.wf() {
                lemma_insert_wf(old(self)@, entry@);
            }
        }
        self.insert_from(entry, 0);
    }
}

/// Builds the tree of one invocation: starts from an empty root that carries
/// the name and the qualifier of the enclosing declaration, and folds the
/// walker's items into it in arrival order. An item that stands for a failure
/// is passed over; the entries around it are folded in as if it were not there.
pub fn build(name: String, visibility: Option<String>, items: Vec<WalkItem>) -> (tree:
    NamespaceNode)
    ensures
        tree@ == NodeView::root(name@, optional_text(visibility)).build(items_view(items@)),
        tree@.wf(),
{
    let ghost root = NodeView::root(name@, optional_text(visibility));
    let ghost all = items_view(items@);
    proof {
        lemma_build_wf(root, all);
    }
    let mut tree = NamespaceNode::new(name, visibility);
    for item in it: items
        invariant
            it.seq() == items@,
            all == items_view(items@),
            tree@ == root.build(all.take(it.index())),
    {
        proof {
            let done = all.take(it.index() + 1);
            assert(done.drop_last() =~= all.take(it.index()));
            assert(done.last() == item@);
        }
        match item {
            WalkItem::Found(entry) => {
                tree.insert(entry);
            },
            WalkItem::Failed => {},
        }
    }
    proof {
        assert(all.take(items@.len() as int) =~= all);
    }
    tree
}

/// Whether a segment denotes the current directory.
fn is_current_dir(segment: &String) -> (yes: bool)
    ensures
        yes == (segment@ == current_dir()),
{
    let text = segment.as_str();
    if text.unicode_len() == 1 {
        let yes = text.get_char(0) == '.';
        proof {
            if yes {
                assert(segment@ =~= current_dir());
            }
        }
        yes
    } else {
        false
    }
}

} // verus!
