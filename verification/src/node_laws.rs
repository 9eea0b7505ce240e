//! What holds of a single node of the model when a name under it is looked up,
//! taken, or given up.

use crate::entry::PathEntryView;
use crate::model::{lemma_position, lemma_position_is, lemma_position_none, NodeView};
use vstd::prelude::*;

verus! {

/// In a well-formed node, the nested namespace at index `i` is the one that
/// its name finds.
pub proof fn lemma_child_found(node: NodeView, i: int)
    requires
        node.child_names().no_duplicates(),
        0 <= i < node.children.len(),
    ensures
        node.child_index(node.children[i].name) == Some(i),
        node.child(node.children[i].name) == Some(node.children[i]),
{
    let names = node.child_names();
    assert forall|j: int| 0 <= j < i implies names[j] != names[i] by {}
    lemma_position_is(names, names[i], i);
}

/// A name that no nested namespace carries finds none.
pub proof fn lemma_child_absent(node: NodeView, name: Seq<char>)
    requires
        forall|i: int| 0 <= i < node.children.len() ==> (#[trigger] node.children[i]).name != name,
    ensures
        node.child(name) is None,
{
    let names = node.child_names();
    assert forall|j: int| 0 <= j < names.len() implies names[j] != name by {
        assert(node.children[j].name != name);
    }
    lemma_position_none(names, name);
}

/// What looking a nested namespace up gives: one that carries the name, or
/// none where no nested namespace carries it.
pub proof fn lemma_child_lookup(node: NodeView, name: Seq<char>)
    ensures
        match node.child_index(name) {
            Some(i) => 0 <= i < node.children.len() && node.children[i].name == name,
            None => forall|i: int|
                0 <= i < node.children.len() ==> (#[trigger] node.children[i]).name != name,
        },
{
    let names = node.child_names();
    lemma_position(names, name);
    if node.child_index(name) is None {
        assert forall|i: int| 0 <= i < node.children.len() implies (
        #[trigger] node.children[i]).name != name by {
            assert(names[i] != name);
        }
    }
}

/// In a well-formed node, the file at index `i` is the one that its name
/// finds.
pub proof fn lemma_file_found(node: NodeView, i: int)
    requires
        node.entry_names().no_duplicates(),
        0 <= i < node.entries.len(),
    ensures
        node.entry_index(node.entries[i].last) == Some(i),
        node.file(node.entries[i].last) == Some(node.entries[i]),
{
    let names = node.entry_names();
    assert forall|j: int| 0 <= j < i implies names[j] != names[i] by {}
    lemma_position_is(names, names[i], i);
}

/// A name that no file carries finds none.
pub proof fn lemma_file_absent(node: NodeView, name: Seq<char>)
    requires
        forall|i: int| 0 <= i < node.entries.len() ==> (#[trigger] node.entries[i]).last != name,
    ensures
        node.file(name) is None,
{
    let names = node.entry_names();
    assert forall|j: int| 0 <= j < names.len() implies names[j] != name by {
        assert(node.entries[j].last != name);
    }
    lemma_position_none(names, name);
}

/// What looking a file up gives: one that carries the name, or none where no
/// file carries it.
pub proof fn lemma_file_lookup(node: NodeView, name: Seq<char>)
    ensures
        match node.entry_index(name) {
            Some(i) => 0 <= i < node.entries.len() && node.entries[i].last == name,
            None => forall|i: int|
                0 <= i < node.entries.len() ==> (#[trigger] node.entries[i]).last != name,
        },
{
    let names = node.entry_names();
    lemma_position(names, name);
    if node.entry_index(name) is None {
        assert forall|i: int| 0 <= i < node.entries.len() implies (
        #[trigger] node.entries[i]).last != name by {
            assert(names[i] != name);
        }
    }
}

/// In a well-formed node a name is held by a namespace or by a file, never by
/// both.
pub proof fn lemma_one_holder(node: NodeView, name: Seq<char>)
    requires
        node.wf(),
    ensures
        node.child(name) is None || node.file(name) is None,
{
    lemma_child_lookup(node, name);
    lemma_file_lookup(node, name);
}

/// Taking the file called `name` out of a well-formed node leaves a
/// well-formed node in which the name finds no file, and every other name
/// finds what it found before.
pub proof fn lemma_without_entry(node: NodeView, name: Seq<char>)
    requires
        node.wf(),
    ensures
        ({
            let rest = node.without_entry(name);
            &&& rest.wf()
            &&& rest.name == node.name
            &&& rest.visibility == node.visibility
            &&& rest.children == node.children
            &&& rest.file(name) is None
            &&& forall|other: Seq<char>| other != name ==> #[trigger] rest.file(other) == node.file(other)
        }),
{
    let rest = node.without_entry(name);
    lemma_file_lookup(node, name);
    match node.entry_index(name) {
        Some(i) => {
            assert forall|k: int| 0 <= k < rest.entries.len() implies #[trigger] rest.entries[k]
                == node.entries[if k < i { k } else { k + 1 }] by {}
            assert forall|a: int, b: int|
                0 <= a < rest.entries.len() && 0 <= b < rest.entries.len() && a != b implies rest.entry_names()[a]
                != rest.entry_names()[b] by {
                let a0 = if a < i { a } else { a + 1 };
                let b0 = if b < i { b } else { b + 1 };
                assert(node.entry_names()[a0] != node.entry_names()[b0]);
            }
            assert forall|k: int| 0 <= k < rest.entries.len() implies (
            #[trigger] rest.entries[k]).last != name by {
                let k0 = if k < i { k } else { k + 1 };
                assert(node.entry_names()[k0] != node.entry_names()[i]);
            }
            lemma_file_absent(rest, name);
            assert forall|other: Seq<char>| other != name implies #[trigger] rest.file(other)
                == node.file(other) by {
                lemma_file_lookup(node, other);
                match node.entry_index(other) {
                    Some(j) => {
                        let j1 = if j < i { j } else { j - 1 };
                        assert(rest.entries[j1] == node.entries[j]);
                        lemma_file_found(rest, j1);
                    },
                    None => {
                        assert forall|k: int| 0 <= k < rest.entries.len() implies (
                        #[trigger] rest.entries[k]).last != other by {
                            let k0 = if k < i { k } else { k + 1 };
                            assert(node.entries[k0].last != other);
                        }
                        lemma_file_absent(rest, other);
                    },
                }
            }
        },
        None => {
            lemma_file_absent(node, name);
        },
    }
}

/// Nodes with the same nested namespaces find the same namespace under every
/// name.
pub proof fn lemma_same_children(a: NodeView, b: NodeView)
    requires
        a.children == b.children,
    ensures
        a.child_names() == b.child_names(),
        forall|name: Seq<char>| #[trigger] a.child(name) == b.child(name),
{
    assert(a.child_names() =~= b.child_names());
}

/// Nodes with the same files find the same file under every name.
pub proof fn lemma_same_entries(a: NodeView, b: NodeView)
    requires
        a.entries == b.entries,
    ensures
        a.entry_names() == b.entry_names(),
        forall|name: Seq<char>| #[trigger] a.file(name) == b.file(name),
{
    assert(a.entry_names() =~= b.entry_names());
}

/// Putting an empty namespace called `name` after the namespaces of a
/// well-formed node that holds the name nowhere leaves a well-formed node in
/// which the name finds that namespace, and every other name finds what it
/// found before.
proof fn lemma_push_child(node: NodeView, name: Seq<char>)
    requires
        node.wf(),
        node.child(name) is None,
        node.file(name) is None,
    ensures
        ({
            let more = NodeView { children: node.children.push(NodeView::empty(name)), ..node };
            &&& more.wf()
            &&& more.child_index(name) == Some(node.children.len() as int)
            &&& more.child(name) == Some(NodeView::empty(name))
            &&& forall|other: Seq<char>|
                other != name ==> #[trigger] more.child(other) == node.child(other)
            &&& forall|other: Seq<char>| #[trigger] more.file(other) == node.file(other)
        }),
{
    let fresh = NodeView::empty(name);
    let more = NodeView { children: node.children.push(fresh), ..node };
    let n = node.children.len() as int;
    lemma_child_lookup(node, name);
    lemma_file_lookup(node, name);
    assert(fresh.wf());
    assert forall|k: int| 0 <= k < n implies #[trigger] more.children[k] == node.children[k] by {}
    assert(more.children[n] == fresh);
    assert forall|a: int, b: int|
        0 <= a < more.children.len() && 0 <= b < more.children.len() && a != b implies more.child_names()[a]
        != more.child_names()[b] by {
        if a < n && b < n {
            assert(node.child_names()[a] != node.child_names()[b]);
        } else if a < n {
            assert(node.children[a].name != name);
        } else {
            assert(node.children[b].name != name);
        }
    }
    assert forall|a: int, b: int|
        0 <= a < more.children.len() && 0 <= b < more.entries.len() implies more.children[a].name
        != more.entries[b].last by {
        if a < n {
            assert(node.children[a].name != node.entries[b].last);
        } else {
            assert(node.entries[b].last != name);
        }
    }
    assert forall|k: int| 0 <= k < more.children.len() implies (
    #[trigger] more.children[k]).visibility is None && more.children[k].wf() by {
        if k < n {
            assert(node.children[k].wf());
        }
    }
    lemma_child_found(more, n);
    lemma_same_entries(more, node);
    assert forall|other: Seq<char>| other != name implies #[trigger] more.child(other)
        == node.child(other) by {
        lemma_child_lookup(node, other);
        match node.child_index(other) {
            Some(j) => {
                assert(more.children[j] == node.children[j]);
                lemma_child_found(more, j);
            },
            None => {
                assert forall|k: int| 0 <= k < more.children.len() implies (
                #[trigger] more.children[k]).name != other by {
                    if k < n {
                        assert(node.children[k].name != other);
                    }
                }
                lemma_child_absent(more, other);
            },
        }
    }
}

/// Replacing the `i`-th nested namespace of a well-formed node by a
/// well-formed one of the same name leaves a well-formed node in which that
/// name finds the new namespace, and every other name finds what it found
/// before.
pub proof fn lemma_with_child_at(node: NodeView, i: int, child: NodeView)
    requires
        node.wf(),
        0 <= i < node.children.len(),
        child.wf(),
        child.visibility is None,
        child.name == node.children[i].name,
    ensures
        ({
            let next = node.with_child_at(i, child);
            &&& next.wf()
            &&& next.name == node.name
            &&& next.visibility == node.visibility
            &&& next.entries == node.entries
            &&& next.child(child.name) == Some(child)
            &&& forall|other: Seq<char>|
                other != child.name ==> #[trigger] next.child(other) == node.child(other)
            &&& forall|other: Seq<char>| #[trigger] next.file(other) == node.file(other)
        }),
{
    let next = node.with_child_at(i, child);
    let n = node.children.len() as int;
    assert(next.child_names() =~= node.child_names());
    assert(next.entry_names() =~= node.entry_names());
    assert forall|k: int| 0 <= k < n implies (#[trigger] next.children[k]).visibility is None
        && next.children[k].wf() by {
        if k != i {
            assert(node.children[k].wf());
        }
    }
    assert forall|a: int, b: int|
        0 <= a < next.children.len() && 0 <= b < next.entries.len() implies next.children[a].name
        != next.entries[b].last by {
        assert(node.children[a].name != node.entries[b].last);
    }
    lemma_child_found(next, i);
    assert forall|other: Seq<char>| other != child.name implies #[trigger] next.child(other)
        == node.child(other) by {
        lemma_child_lookup(node, other);
    }
}

/// Going through the segment `name` at a well-formed node leaves a
/// well-formed node in which the name finds a namespace, the one that was
/// there or else an empty one, and no file; every other name finds what it
/// found before.
pub proof fn lemma_with_child(node: NodeView, name: Seq<char>)
    requires
        node.wf(),
    ensures
        ({
            let entered = node.with_child(name);
            &&& entered.wf()
            &&& entered.name == node.name
            &&& entered.visibility == node.visibility
            &&& entered.child_index(name) is Some
            &&& entered.child(name) == Some(
                match node.child(name) {
                    Some(child) => child,
                    None => NodeView::empty(name),
                },
            )
            &&& entered.file(name) is None
            &&& forall|other: Seq<char>|
                other != name ==> #[trigger] entered.child(other) == node.child(other)
            &&& forall|other: Seq<char>|
                other != name ==> #[trigger] entered.file(other) == node.file(other)
        }),
{
    if node.child_index(name) is Some {
        lemma_one_holder(node, name);
    } else {
        let cleared = node.without_entry(name);
        lemma_without_entry(node, name);
        lemma_same_children(cleared, node);
        lemma_push_child(cleared, name);
    }
}

/// A directory called `name` arriving at a well-formed node leaves a
/// well-formed node in which the name finds an empty namespace and no file;
/// every other name finds what it found before.
pub proof fn lemma_put_directory(node: NodeView, name: Seq<char>)
    requires
        node.wf(),
    ensures
        ({
            let next = node.put_directory(name);
            &&& next.wf()
            &&& next.name == node.name
            &&& next.visibility == node.visibility
            &&& next.child(name) == Some(NodeView::empty(name))
            &&& next.file(name) is None
            &&& forall|other: Seq<char>|
                other != name ==> #[trigger] next.child(other) == node.child(other)
            &&& forall|other: Seq<char>|
                other != name ==> #[trigger] next.file(other) == node.file(other)
        }),
{
    lemma_child_lookup(node, name);
    match node.child_index(name) {
        Some(i) => {
            lemma_one_holder(node, name);
            assert(NodeView::empty(name).wf());
            lemma_with_child_at(node, i, NodeView::empty(name));
        },
        None => {
            let cleared = node.without_entry(name);
            lemma_without_entry(node, name);
            lemma_same_children(cleared, node);
            lemma_push_child(cleared, name);
        },
    }
}

/// A file arriving at a well-formed node leaves a well-formed node. Where a
/// namespace holds the file's name, nothing changes. Otherwise the file's
/// name finds the file. Every name finds the namespace that it found before,
/// and every other name finds the file that it found before.
pub proof fn lemma_put_file(node: NodeView, entry: PathEntryView)
    requires
        node.wf(),
    ensures
        ({
            let next = node.put_file(entry);
            &&& next.wf()
            &&& next.name == node.name
            &&& next.visibility == node.visibility
            &&& next.children == node.children
            &&& node.child(entry.last) is Some ==> next == node
            &&& node.child(entry.last) is None ==> next.file(entry.last) == Some(entry)
            &&& forall|other: Seq<char>| #[trigger] next.child(other) == node.child(other)
            &&& forall|other: Seq<char>|
                other != entry.last ==> #[trigger] next.file(other) == node.file(other)
        }),
{
    let name = entry.last;
    let next = node.put_file(entry);
    lemma_file_lookup(node, name);
    lemma_child_lookup(node, name);
    lemma_same_children(next, node);
    if node.child_index(name) is None {
        let n = node.entries.len() as int;
        match node.entry_index(name) {
            Some(i) => {
                assert(next.entry_names() =~= node.entry_names());
                assert forall|a: int, b: int|
                    0 <= a < next.children.len() && 0 <= b < next.entries.len() implies next.children[a].name
                    != next.entries[b].last by {
                    assert(node.children[a].name != node.entries[b].last);
                }
                lemma_file_found(next, i);
                assert forall|other: Seq<char>| other != name implies #[trigger] next.file(other)
                    == node.file(other) by {
                    lemma_file_lookup(node, other);
                }
            },
            None => {
                assert forall|k: int| 0 <= k < n implies #[trigger] next.entries[k]
                    == node.entries[k] by {}
                assert(next.entries[n] == entry);
                assert forall|a: int, b: int|
                    0 <= a < next.entries.len() && 0 <= b < next.entries.len() && a != b implies next.entry_names()[a]
                    != next.entry_names()[b] by {
                    if a < n && b < n {
                        assert(node.entry_names()[a] != node.entry_names()[b]);
                    } else if a < n {
                        assert(node.entries[a].last != name);
                    } else {
                        assert(node.entries[b].last != name);
                    }
                }
                assert forall|a: int, b: int|
                    0 <= a < next.children.len() && 0 <= b < next.entries.len() implies next.children[a].name
                    != next.entries[b].last by {
                    if b < n {
                        assert(node.children[a].name != node.entries[b].last);
                    } else {
                        assert(node.children[a].name != name);
                    }
                }
                lemma_file_found(next, n);
                assert forall|other: Seq<char>| other != name implies #[trigger] next.file(other)
                    == node.file(other) by {
                    lemma_file_lookup(node, other);
                    match node.entry_index(other) {
                        Some(j) => {
                            assert(next.entries[j] == node.entries[j]);
                            lemma_file_found(next, j);
                        },
                        None => {
                            assert forall|k: int| 0 <= k < next.entries.len() implies (
                            #[trigger] next.entries[k]).last != other by {
                                if k < n {
                                    assert(node.entries[k].last != other);
                                }
                            }
                            lemma_file_absent(next, other);
                        },
                    }
                }
            },
        }
    }
}

/// An entry arriving at a well-formed node, with nowhere further to go,
/// leaves a well-formed node with the same name and qualifier.
pub proof fn lemma_put(node: NodeView, entry: PathEntryView)
    requires
        node.wf(),
    ensures
        node.put(entry).wf(),
        node.put(entry).name == node.name,
        node.put(entry).visibility == node.visibility,
{
    if entry.is_directory {
        lemma_put_directory(node, entry.last);
    } else {
        lemma_put_file(node, entry);
    }
}

} // verus!
