//! What holds of whole trees of the model: folding entries in keeps a tree
//! well-formed, and an entry changes what stands on the line of its place and
//! nothing else.

use crate::entry::PathEntryView;
use crate::model::{current_dir, effective_dirs, NodeView};
use crate::node_laws::{
    lemma_child_absent, lemma_child_lookup, lemma_file_absent, lemma_put, lemma_put_directory,
    lemma_put_file, lemma_same_children, lemma_same_entries, lemma_with_child,
    lemma_with_child_at,
};
use vstd::prelude::*;

verus! {

/// Whether two paths lie on one line from the root: they agree segment by
/// segment for as long as both go on, so that one is the beginning of the
/// other, or they are the same.
pub open spec fn related(a: Seq<Seq<char>>, b: Seq<Seq<char>>) -> bool
    decreases a.len(),
{
    a.len() == 0 || b.len() == 0 || (a[0] == b[0] && related(a.drop_first(), b.drop_first()))
}

/// Whether a namespace stands at `path` once `entry`, whose place is related
/// to the path, has been folded in: on the way to the entry there are
/// namespaces, at its place there is one if the entry is a directory, and
/// beyond its place there is nothing.
pub open spec fn namespace_after(entry: PathEntryView, path: Seq<Seq<char>>) -> bool {
    path.len() < entry.slot().len() || (path.len() == entry.slot().len() && entry.is_directory)
}

/// The file that stands at `path` once `entry`, whose place is related to the
/// path, has been folded in: the entry itself at its own place if it is a
/// file, and nothing anywhere else on the line.
pub open spec fn file_after(entry: PathEntryView, path: Seq<Seq<char>>) -> Option<PathEntryView> {
    if path.len() == entry.slot().len() && !entry.is_directory {
        Some(entry)
    } else {
        None
    }
}

/// Folding an entry into a well-formed tree leaves a well-formed tree with
/// the same name and qualifier at its root.
pub proof fn lemma_insert_at_wf(node: NodeView, dirs: Seq<Seq<char>>, entry: PathEntryView)
    requires
        node.wf(),
    ensures
        node.insert_at(dirs, entry).wf(),
        node.insert_at(dirs, entry).name == node.name,
        node.insert_at(dirs, entry).visibility == node.visibility,
    decreases dirs.len(),
{
    if dirs.len() == 0 {
        lemma_put(node, entry);
    } else if dirs[0] == current_dir() {
        lemma_insert_at_wf(node, dirs.drop_first(), entry);
    } else {
        let entered = node.with_child(dirs[0]);
        lemma_with_child(node, dirs[0]);
        let i = entered.child_index(dirs[0])->0;
        lemma_child_lookup(entered, dirs[0]);
        let child = entered.children[i];
        assert(child.wf() && child.visibility is None);
        lemma_insert_at_wf(child, dirs.drop_first(), entry);
        lemma_with_child_at(entered, i, child.insert_at(dirs.drop_first(), entry));
    }
}

/// Folding an entry into a well-formed tree leaves a well-formed tree: no
/// name is held twice under any node, however often a directory was gone
/// through.
pub proof fn lemma_insert_wf(node: NodeView, entry: PathEntryView)
    requires
        node.wf(),
    ensures
        node.insert(entry).wf(),
        node.insert(entry).name == node.name,
        node.insert(entry).visibility == node.visibility,
{
    lemma_insert_at_wf(node, entry.dirs, entry);
}

/// Folding any items into a well-formed tree leaves a well-formed tree with
/// the same name and qualifier at its root.
pub proof fn lemma_build_wf(node: NodeView, items: Seq<Option<PathEntryView>>)
    requires
        node.wf(),
    ensures
        node.build(items).wf(),
        node.build(items).name == node.name,
        node.build(items).visibility == node.visibility,
    decreases items.len(),
{
    if items.len() > 0 {
        lemma_build_wf(node, items.drop_last());
        match items.last() {
            Some(entry) => lemma_insert_wf(node.build(items.drop_last()), entry),
            None => {},
        }
    }
}

/// An empty namespace has nothing below it.
pub proof fn lemma_empty_lookup(name: Seq<char>, path: Seq<Seq<char>>)
    ensures
        NodeView::empty(name).has_namespace(path) == (path.len() == 0),
        NodeView::empty(name).file_at(path) is None,
{
    let node = NodeView::empty(name);
    assert forall|key: Seq<char>| node.child(key) is None && node.file(key) is None by {
        lemma_child_absent(node, key);
        lemma_file_absent(node, key);
    }
    if path.len() > 0 {
        assert(node.child(path[0]) is None);
        if path.len() > 1 {
            assert(node.child(path.drop_last()[0]) is None);
        } else {
            assert(node.file(path.last()) is None);
        }
    }
}

/// Looking a file up two or more segments down goes through the namespace
/// that the first segment finds.
pub proof fn lemma_file_at_step(node: NodeView, path: Seq<Seq<char>>)
    requires
        path.len() >= 2,
    ensures
        node.file_at(path) == match node.child(path[0]) {
            Some(next) => next.file_at(path.drop_first()),
            None => None,
        },
{
    let front = path.drop_last();
    assert(front[0] == path[0]);
    assert(front.drop_first() =~= path.drop_first().drop_last());
    assert(path.drop_first().last() == path.last());
}

/// What folding an entry into a well-formed tree does. A file whose place a
/// namespace holds changes nothing at all. Any other entry decides what
/// stands on the line of its place, and off that line nothing changes: the
/// same namespace, with all that it holds, and the same file.
pub proof fn lemma_insert_at_lookup(
    node: NodeView,
    dirs: Seq<Seq<char>>,
    entry: PathEntryView,
    path: Seq<Seq<char>>,
)
    requires
        node.wf(),
    ensures
        ({
            let place = effective_dirs(dirs).push(entry.last);
            let next = node.insert_at(dirs, entry);
            if !entry.is_directory && node.has_namespace(place) {
                next == node
            } else if related(place, path) {
                &&& next.has_namespace(path) == (path.len() < place.len() || (path.len()
                    == place.len() && entry.is_directory))
                &&& next.file_at(path) == (if path.len() == place.len() && !entry.is_directory {
                    Some(entry)
                } else {
                    None
                })
            } else {
                &&& next.descend(path) == node.descend(path)
                &&& next.file_at(path) == node.file_at(path)
            }
        }),
    decreases dirs.len(),
{
    let place = effective_dirs(dirs).push(entry.last);
    let next = node.insert_at(dirs, entry);
    if dirs.len() == 0 {
        assert(place =~= seq![entry.last]);
        assert(place.drop_first().len() == 0);
        assert(place[0] == entry.last);
        if node.child(entry.last) is Some {
            let held = node.child(entry.last)->0;
            assert(held.descend(place.drop_first()) == Some(held));
        }
        assert(node.has_namespace(place) == (node.child(entry.last) is Some));
        if entry.is_directory {
            lemma_put_directory(node, entry.last);
        } else {
            lemma_put_file(node, entry);
        }
        if path.len() > 0 && (entry.is_directory || node.child(entry.last) is None) {
            let rest = path.drop_first();
            if path[0] == entry.last {
                assert(related(place.drop_first(), rest));
                assert(related(place, path));
                lemma_empty_lookup(entry.last, rest);
                if path.len() >= 2 {
                    lemma_file_at_step(next, path);
                } else {
                    assert(path.drop_last().len() == 0);
                    assert(path.last() == entry.last);
                }
            } else {
                assert(!related(place, path));
                assert(next.child(path[0]) == node.child(path[0]));
                if path.len() >= 2 {
                    lemma_file_at_step(next, path);
                    lemma_file_at_step(node, path);
                } else {
                    assert(path.drop_last().len() == 0);
                    assert(path.last() == path[0]);
                    assert(next.file(path[0]) == node.file(path[0]));
                }
            }
        }
    } else if dirs[0] == current_dir() {
        lemma_insert_at_lookup(node, dirs.drop_first(), entry, path);
    } else {
        let name = dirs[0];
        let entered = node.with_child(name);
        lemma_with_child(node, name);
        lemma_child_lookup(entered, name);
        let i = entered.child_index(name)->0;
        let child = entered.children[i];
        let grown = child.insert_at(dirs.drop_first(), entry);
        assert(child.wf() && child.visibility is None);
        lemma_insert_at_wf(child, dirs.drop_first(), entry);
        lemma_with_child_at(entered, i, grown);
        let inner = effective_dirs(dirs.drop_first()).push(entry.last);
        assert(place[0] == name);
        assert(place.drop_first() =~= inner);
        if node.child(name) is None {
            lemma_empty_lookup(name, inner);
        }
        assert(node.has_namespace(place) == (node.child(name) is Some && child.has_namespace(
            inner,
        )));
        lemma_insert_at_lookup(
            child,
            dirs.drop_first(),
            entry,
            if path.len() > 0 {
                path.drop_first()
            } else {
                path
            },
        );
        if !entry.is_directory && node.has_namespace(place) {
            assert(entered == node);
            assert(grown == child);
            assert(node.children.update(i, child) =~= node.children);
        } else if path.len() > 0 {
            let rest = path.drop_first();
            if path[0] == name {
                assert(related(place, path) == related(inner, rest));
                assert(next.child(name) == Some(grown));
                if node.child(name) is None {
                    lemma_empty_lookup(name, rest);
                }
                if path.len() >= 2 {
                    lemma_file_at_step(next, path);
                    lemma_file_at_step(node, path);
                } else {
                    assert(path.drop_last().len() == 0);
                    assert(path.last() == name);
                    assert(rest.len() == 0);
                }
            } else {
                assert(!related(place, path));
                assert(next.child(path[0]) == node.child(path[0]));
                if path.len() >= 2 {
                    lemma_file_at_step(next, path);
                    lemma_file_at_step(node, path);
                } else {
                    assert(path.drop_last().len() == 0);
                    assert(path.last() == path[0]);
                    assert(next.file(path[0]) == node.file(path[0]));
                }
            }
        }
    }
}

/// What folding an entry into a well-formed tree does. A file whose place a
/// namespace holds changes nothing at all. Any other entry decides what
/// stands on the line of its place, and off that line nothing changes.
pub proof fn lemma_insert_lookup(node: NodeView, entry: PathEntryView, path: Seq<Seq<char>>)
    requires
        node.wf(),
    ensures
        !entry.is_directory && node.has_namespace(entry.slot()) ==> node.insert(entry) == node,
        (entry.is_directory || !node.has_namespace(entry.slot())) && related(entry.slot(), path)
            ==> node.insert(entry).has_namespace(path) == namespace_after(entry, path)
            && node.insert(entry).file_at(path) == file_after(entry, path),
        (entry.is_directory || !node.has_namespace(entry.slot())) && !related(
            entry.slot(),
            path,
        ) ==> node.insert(entry).descend(path) == node.descend(path) && node.insert(
            entry,
        ).file_at(path) == node.file_at(path),
{
    lemma_insert_at_lookup(node, entry.dirs, entry, path);
}

/// Every path lies on its own line.
pub proof fn lemma_related_self(path: Seq<Seq<char>>)
    ensures
        related(path, path),
    decreases path.len(),
{
    if path.len() > 0 {
        lemma_related_self(path.drop_first());
    }
}

/// Lying on one line does not depend on which path is named first.
pub proof fn lemma_related_symmetric(a: Seq<Seq<char>>, b: Seq<Seq<char>>)
    ensures
        related(a, b) == related(b, a),
    decreases a.len(),
{
    if a.len() > 0 && b.len() > 0 {
        lemma_related_symmetric(a.drop_first(), b.drop_first());
    }
}

/// Two paths that part only in their final segment lie on different lines.
pub proof fn lemma_siblings_unrelated(dirs: Seq<Seq<char>>, a: Seq<char>, b: Seq<char>)
    requires
        a != b,
    ensures
        !related(dirs.push(a), dirs.push(b)),
    decreases dirs.len(),
{
    if dirs.len() > 0 {
        lemma_siblings_unrelated(dirs.drop_first(), a, b);
        assert(dirs.push(a).drop_first() =~= dirs.drop_first().push(a));
        assert(dirs.push(b).drop_first() =~= dirs.drop_first().push(b));
    } else {
        assert(dirs.push(a)[0] == a);
        assert(dirs.push(b)[0] == b);
    }
}

/// Two paths on one line that are equally long are the same path.
pub proof fn lemma_related_same_length(a: Seq<Seq<char>>, b: Seq<Seq<char>>)
    requires
        related(a, b),
        a.len() == b.len(),
    ensures
        a == b,
    decreases a.len(),
{
    if a.len() > 0 {
        lemma_related_same_length(a.drop_first(), b.drop_first());
        assert(a =~= seq![a[0]] + a.drop_first());
        assert(b =~= seq![b[0]] + b.drop_first());
    } else {
        assert(a =~= b);
    }
}

/// A path lies on the line of every path that goes on from it.
pub proof fn lemma_related_longer(path: Seq<Seq<char>>, name: Seq<char>)
    ensures
        related(path, path.push(name)),
    decreases path.len(),
{
    if path.len() > 0 {
        lemma_related_longer(path.drop_first(), name);
        assert(path.push(name).drop_first() =~= path.drop_first().push(name));
    }
}

/// Where a namespace stands, a namespace stands one segment above it.
pub proof fn lemma_namespace_above(node: NodeView, path: Seq<Seq<char>>)
    requires
        path.len() > 0,
        node.has_namespace(path),
    ensures
        node.has_namespace(path.drop_last()),
    decreases path.len(),
{
    if path.len() > 1 {
        let next = node.child(path[0])->0;
        lemma_namespace_above(next, path.drop_first());
        assert(path.drop_last()[0] == path[0]);
        assert(path.drop_last().drop_first() =~= path.drop_first().drop_last());
    }
}

/// Revisiting a directory makes no second namespace: two files that arrive
/// through the same directories, whatever had arrived before them, leave one
/// namespace for those directories, and the tree stays well-formed, so that
/// no other namespace carries that directory's name beside it. Each of the
/// two files stands in that namespace, unless a namespace held its name, or
/// the other file, arriving later, took it.
pub proof fn lemma_shared_directory(tree: NodeView, a: PathEntryView, b: PathEntryView)
    requires
        tree.wf(),
        !a.is_directory,
        !b.is_directory,
        effective_dirs(a.dirs) == effective_dirs(b.dirs),
    ensures
        tree.insert(a).insert(b).wf(),
        tree.insert(a).insert(b).descend(effective_dirs(a.dirs)) matches Some(namespace) && (
        !tree.has_namespace(b.slot()) ==> namespace.file(b.last) == Some(b)) && (a.last != b.last
            && !tree.has_namespace(a.slot()) ==> namespace.file(a.last) == Some(a)),
{
    let dirs = effective_dirs(a.dirs);
    let first = tree.insert(a);
    let both = first.insert(b);
    lemma_insert_wf(tree, a);
    lemma_insert_wf(first, b);
    lemma_related_self(a.slot());
    lemma_related_self(b.slot());
    assert(a.slot().drop_last() =~= dirs);
    assert(b.slot().drop_last() =~= dirs);
    assert(a.slot().last() == a.last);
    assert(b.slot().last() == b.last);
    lemma_related_longer(dirs, b.last);
    lemma_related_symmetric(dirs, b.slot());
    lemma_insert_lookup(first, b, dirs);
    if first.has_namespace(b.slot()) {
        lemma_namespace_above(first, b.slot());
    }
    assert(both.has_namespace(dirs));
    lemma_insert_lookup(tree, a, a.slot());
    lemma_insert_lookup(tree, a, b.slot());
    lemma_insert_lookup(first, b, a.slot());
    lemma_insert_lookup(first, b, b.slot());
    if a.last != b.last {
        lemma_siblings_unrelated(dirs, b.last, a.last);
        lemma_siblings_unrelated(dirs, a.last, b.last);
    } else {
        lemma_related_same_length(a.slot(), b.slot());
    }
}

/// A directory and a file that claim the same place: the directory takes
/// precedence, whichever arrives first. A directory that arrives after the
/// file takes the place from it and stands there as an empty namespace. A
/// file that arrives after the directory is passed over, and the tree stays
/// as it was.
pub proof fn lemma_same_place(tree: NodeView, file: PathEntryView, directory: PathEntryView)
    requires
        tree.wf(),
        !file.is_directory,
        directory.is_directory,
        file.slot() == directory.slot(),
    ensures
        tree.insert(file).insert(directory).has_namespace(file.slot()),
        tree.insert(file).insert(directory).file_at(file.slot()) is None,
        forall|name: Seq<char>|
            !(#[trigger] tree.insert(file).insert(directory).has_namespace(file.slot().push(name))),
        forall|name: Seq<char>|
            #[trigger] tree.insert(file).insert(directory).file_at(file.slot().push(name)) is None,
        tree.insert(directory).insert(file) == tree.insert(directory),
        tree.insert(directory).insert(file).has_namespace(file.slot()),
        tree.insert(directory).insert(file).file_at(file.slot()) is None,
{
    let place = file.slot();
    lemma_related_self(place);
    lemma_insert_wf(tree, file);
    lemma_insert_wf(tree, directory);
    lemma_insert_lookup(tree, directory, place);
    lemma_insert_lookup(tree.insert(file), directory, place);
    lemma_insert_lookup(tree.insert(directory), file, place);
    let last = tree.insert(file).insert(directory);
    assert forall|name: Seq<char>| !(#[trigger] last.has_namespace(place.push(name))) by {
        lemma_related_longer(place, name);
        lemma_insert_lookup(tree.insert(file), directory, place.push(name));
    }
    assert forall|name: Seq<char>| #[trigger] last.file_at(place.push(name)) is None by {
        lemma_related_longer(place, name);
        lemma_insert_lookup(tree.insert(file), directory, place.push(name));
    }
}

/// A failure among the walker's items changes nothing: the tree is the one
/// that the items around it give.
pub proof fn lemma_failure_skipped(
    root: NodeView,
    before: Seq<Option<PathEntryView>>,
    after: Seq<Option<PathEntryView>>,
)
    ensures
        root.build(before + seq![None] + after) == root.build(before + after),
    decreases after.len(),
{
    let with = before + seq![None] + after;
    let without = before + after;
    if after.len() == 0 {
        assert(with.drop_last() =~= before);
        assert(without =~= before);
    } else {
        assert(with.drop_last() =~= before + seq![None] + after.drop_last());
        assert(without.drop_last() =~= before + after.drop_last());
        assert(with.last() == after.last());
        assert(without.last() == after.last());
        lemma_failure_skipped(root, before, after.drop_last());
    }
}

/// Nothing stands in a tree that no entry put there: below a root that began
/// empty, a namespace or a file at a path is owed to an item on the line of
/// that path whose place is at least as deep. So the tree is no deeper than
/// the longest path that arrived, whatever the items and their order.
pub proof fn lemma_owed_to_an_entry(
    name: Seq<char>,
    visibility: Option<Seq<char>>,
    items: Seq<Option<PathEntryView>>,
    path: Seq<Seq<char>>,
)
    requires
        path.len() > 0,
    ensures
        ({
            let tree = NodeView::root(name, visibility).build(items);
            tree.has_namespace(path) || tree.file_at(path) is Some ==> exists|i: int|
                0 <= i < items.len() && (#[trigger] items[i] matches Some(entry) && related(
                    entry.slot(),
                    path,
                ) && path.len() <= entry.slot().len())
        }),
    decreases items.len(),
{
    let root = NodeView::root(name, visibility);
    let tree = root.build(items);
    assert(root.wf());
    if items.len() == 0 {
        lemma_same_children(root, NodeView::empty(name));
        lemma_same_entries(root, NodeView::empty(name));
        lemma_empty_lookup(name, path);
        assert(root.child(path[0]) is None);
        if path.len() > 1 {
            assert(path.drop_last()[0] == path[0]);
        } else {
            assert(path.drop_last().len() == 0);
            assert(root.file(path.last()) is None);
        }
    } else {
        let front = items.drop_last();
        let last = items.len() - 1;
        let before = root.build(front);
        lemma_build_wf(root, front);
        lemma_owed_to_an_entry(name, visibility, front, path);
        if tree.has_namespace(path) || tree.file_at(path) is Some {
            match items[last] {
                Some(entry) => {
                    lemma_insert_lookup(before, entry, path);
                },
                None => {},
            }
            if before.has_namespace(path) || before.file_at(path) is Some {
                let i = choose|i: int|
                    0 <= i < front.len() && (#[trigger] front[i] matches Some(entry) && related(
                        entry.slot(),
                        path,
                    ) && path.len() <= entry.slot().len());
                assert(items[i] == front[i]);
            } else {
                assert(items[last] matches Some(entry) && related(entry.slot(), path)
                    && path.len() <= entry.slot().len());
            }
        }
    }
}

} // verus!
