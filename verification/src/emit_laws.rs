//! What holds of the emission: when it fails, which file fails it, and that
//! what is declared is what stands in the tree.

use crate::emit::{
    canonical_of, constant_of, first_unresolved_entry, sanitized_path, ConstantView,
    ResolutionView,
};
use crate::entry::PathEntryView;
use crate::laws::{lemma_build_wf, lemma_file_at_step};
use crate::model::{effective_dirs, NodeView};
use crate::node_laws::{
    lemma_child_absent, lemma_child_found, lemma_child_lookup, lemma_file_found,
    lemma_file_lookup, lemma_put_file,
};
use crate::sanitize::sanitized;
use crate::walk_laws::{lemma_order_independent, orderly};
use vstd::prelude::*;

verus! {

/// A list of files that holds one without a canonical form has a first such
/// file.
pub proof fn lemma_entry_unresolved(
    entries: Seq<PathEntryView>,
    j: int,
    table: Seq<ResolutionView>,
)
    requires
        0 <= j < entries.len(),
        canonical_of(table, entries[j].segments()) is None,
    ensures
        first_unresolved_entry(entries, table) is Some,
    decreases entries.len(),
{
    if j < entries.len() - 1 {
        assert(entries.drop_last()[j] == entries[j]);
        lemma_entry_unresolved(entries.drop_last(), j, table);
    }
}

/// A node with a nested namespace that holds a file without a canonical form
/// has a first such file.
pub proof fn lemma_child_unresolved(node: NodeView, k: int, n: nat, table: Seq<ResolutionView>)
    requires
        0 <= k < n <= node.children.len(),
        node.children[k].first_unresolved(table) is Some,
    ensures
        node.first_unresolved_below(n, table) is Some,
    decreases n,
{
    if k < n - 1 {
        lemma_child_unresolved(node, k, (n - 1) as nat, table);
    }
}

/// A discovered file that has no canonical form when the declarations are
/// made fails the emission, wherever in the tree it stands: no constant is
/// ever declared for a file that could not be reached.
pub proof fn lemma_unresolved_file_fails(
    tree: NodeView,
    path: Seq<Seq<char>>,
    table: Seq<ResolutionView>,
)
    requires
        tree.file_at(path) matches Some(entry) && canonical_of(table, entry.segments()) is None,
    ensures
        tree.first_unresolved(table) is Some,
    decreases path.len(),
{
    if path.len() == 1 {
        assert(path.drop_last().len() == 0);
        lemma_file_lookup(tree, path.last());
        let j = tree.entry_index(path.last())->0;
        lemma_entry_unresolved(tree.entries, j, table);
    } else {
        lemma_file_at_step(tree, path);
        lemma_child_lookup(tree, path[0]);
        let k = tree.child_index(path[0])->0;
        lemma_unresolved_file_fails(tree.children[k], path.drop_first(), table);
        lemma_child_unresolved(tree, k, tree.children.len(), table);
    }
}

/// The first of a list of files without a canonical form has none.
pub proof fn lemma_first_unresolved_entry(entries: Seq<PathEntryView>, table: Seq<ResolutionView>)
    ensures
        first_unresolved_entry(entries, table) matches Some(entry) ==> entries.contains(entry)
            && canonical_of(table, entry.segments()) is None,
    decreases entries.len(),
{
    if entries.len() > 0 {
        let front = entries.drop_last();
        lemma_first_unresolved_entry(front, table);
        match first_unresolved_entry(front, table) {
            Some(entry) => {
                let j = choose|j: int| 0 <= j < front.len() && front[j] == entry;
                assert(entries[j] == entry);
            },
            None => {
                assert(entries[entries.len() - 1] == entries.last());
            },
        }
    }
}

/// The file that fails an emission has no canonical form. So where the
/// table gives a canonical form for every path, the emission succeeds.
pub proof fn lemma_first_unresolved(tree: NodeView, table: Seq<ResolutionView>)
    ensures
        tree.first_unresolved(table) matches Some(entry) ==> canonical_of(
            table,
            entry.segments(),
        ) is None,
    decreases tree, tree.children.len() + 1,
{
    lemma_first_unresolved_below(tree, tree.children.len(), table);
    lemma_first_unresolved_entry(tree.entries, table);
}

/// The first file without a canonical form among the first `n` nested
/// namespaces has none.
pub proof fn lemma_first_unresolved_below(tree: NodeView, n: nat, table: Seq<ResolutionView>)
    ensures
        tree.first_unresolved_below(n, table) matches Some(entry) ==> canonical_of(
            table,
            entry.segments(),
        ) is None,
    decreases tree, n,
{
    if n != 0 && n <= tree.children.len() {
        lemma_first_unresolved_below(tree, (n - 1) as nat, table);
        lemma_first_unresolved(tree.children[n - 1], table);
    }
}

/// A walk that found nothing, or nothing but failures, leaves the bare root:
/// a namespace without nested namespaces and without files. Its emission
/// succeeds and declares nothing inside it.
pub proof fn lemma_nothing_found(
    name: Seq<char>,
    visibility: Option<Seq<char>>,
    items: Seq<Option<PathEntryView>>,
    table: Seq<ResolutionView>,
)
    requires
        forall|i: int| 0 <= i < items.len() ==> items[i] is None,
    ensures
        NodeView::root(name, visibility).build(items) == NodeView::root(name, visibility),
        NodeView::root(name, visibility).build(items).first_unresolved(table) is None,
        NodeView::root(name, visibility).build(items).declaration(table).namespaces.len() == 0,
        NodeView::root(name, visibility).build(items).declaration(table).constants.len() == 0,
    decreases items.len(),
{
    let root = NodeView::root(name, visibility);
    if items.len() > 0 {
        let front = items.drop_last();
        assert(forall|i: int| 0 <= i < front.len() ==> front[i] == items[i]);
        lemma_nothing_found(name, visibility, front, table);
    }
    assert(root.first_unresolved_below(0, table) is None);
}

/// Whether an item is a file that stands directly in the root.
pub open spec fn is_flat_file(item: Option<PathEntryView>) -> bool {
    item matches Some(entry) && !entry.is_directory && effective_dirs(entry.dirs).len() == 0
}

/// An entry without directories to go through is put at the node itself.
pub proof fn lemma_insert_flat(node: NodeView, dirs: Seq<Seq<char>>, entry: PathEntryView)
    requires
        effective_dirs(dirs).len() == 0,
    ensures
        node.insert_at(dirs, entry) == node.put(entry),
    decreases dirs.len(),
{
    if dirs.len() > 0 {
        lemma_insert_flat(node, dirs.drop_first(), entry);
    }
}

/// Files that all stand directly in the root give a root without nested
/// namespaces. Every file has its constant: its name finds a file of the
/// root, and only one, the tree being well-formed. Every file of the root is
/// one of the files that arrived, and its constant is named by its sanitized
/// name and bound to its canonical path.
pub proof fn lemma_flat_files(
    name: Seq<char>,
    visibility: Option<Seq<char>>,
    items: Seq<Option<PathEntryView>>,
    table: Seq<ResolutionView>,
)
    requires
        forall|i: int| 0 <= i < items.len() ==> is_flat_file(#[trigger] items[i]),
    ensures
        ({
            let tree = NodeView::root(name, visibility).build(items);
            let decl = tree.declaration(table);
            &&& tree.wf()
            &&& tree.children.len() == 0
            &&& decl.namespaces.len() == 0
            &&& decl.constants.len() == tree.entries.len()
            &&& forall|i: int|
                0 <= i < items.len() ==> (#[trigger] tree.file(items[i]->0.last)) is Some
            &&& forall|j: int|
                0 <= j < tree.entries.len() ==> items.contains(Some(#[trigger] tree.entries[j]))
                    && decl.constants[j] == constant_of(tree.entries[j], table)
        }),
    decreases items.len(),
{
    let root = NodeView::root(name, visibility);
    let tree = root.build(items);
    assert(root.wf());
    lemma_build_wf(root, items);
    if items.len() > 0 {
        let front = items.drop_last();
        let before = root.build(front);
        let entry = items.last()->0;
        assert(is_flat_file(items[items.len() - 1]));
        assert(forall|i: int| 0 <= i < front.len() ==> front[i] == items[i]);
        lemma_flat_files(name, visibility, front, table);
        lemma_build_wf(root, front);
        lemma_insert_flat(before, entry.dirs, entry);
        lemma_put_file(before, entry);
        lemma_child_absent(before, entry.last);
        lemma_file_lookup(before, entry.last);
        assert forall|i: int| 0 <= i < items.len() implies (#[trigger] tree.file(
            items[i]->0.last,
        )) is Some by {
            if i < front.len() && items[i]->0.last != entry.last {
                assert(before.file(front[i]->0.last) is Some);
            }
        }
        assert forall|j: int| 0 <= j < tree.entries.len() implies items.contains(
            Some(#[trigger] tree.entries[j]),
        ) by {
            if tree.entries[j] == entry {
                assert(items[items.len() - 1] == Some(entry));
            } else {
                assert(before.entries[j] == tree.entries[j]);
                let i = choose|i: int| 0 <= i < front.len() && front[i] == Some(before.entries[j]);
                assert(items[i] == Some(tree.entries[j]));
            }
        }
    }
}

/// The first file without a canonical form of two lists on end is that of the
/// first list, or else that of the second.
pub proof fn lemma_first_unresolved_concat(
    a: Seq<PathEntryView>,
    b: Seq<PathEntryView>,
    table: Seq<ResolutionView>,
)
    ensures
        first_unresolved_entry(a + b, table) == match first_unresolved_entry(a, table) {
            Some(entry) => Some(entry),
            None => first_unresolved_entry(b, table),
        },
    decreases b.len(),
{
    if b.len() == 0 {
        assert(a + b =~= a);
    } else {
        assert((a + b).drop_last() =~= a + b.drop_last());
        assert((a + b).last() == b.last());
        lemma_first_unresolved_concat(a, b.drop_last(), table);
    }
}

/// The file that fails an emission is the first of the tree's files, in
/// emission order, that has no canonical form.
pub proof fn lemma_first_unresolved_file(tree: NodeView, table: Seq<ResolutionView>)
    ensures
        tree.first_unresolved(table) == first_unresolved_entry(tree.files(), table),
    decreases tree, tree.children.len() + 1,
{
    lemma_first_unresolved_files_below(tree, tree.children.len(), table);
    lemma_first_unresolved_concat(tree.files_below(tree.children.len()), tree.entries, table);
}

/// Among the first `n` nested namespaces, the first file without a canonical
/// form is the first of their files that has none.
pub proof fn lemma_first_unresolved_files_below(
    tree: NodeView,
    n: nat,
    table: Seq<ResolutionView>,
)
    ensures
        tree.first_unresolved_below(n, table) == first_unresolved_entry(
            tree.files_below(n),
            table,
        ),
    decreases tree, n,
{
    if n != 0 && n <= tree.children.len() {
        lemma_first_unresolved_files_below(tree, (n - 1) as nat, table);
        lemma_first_unresolved_file(tree.children[n - 1], table);
        lemma_first_unresolved_concat(
            tree.files_below((n - 1) as nat),
            tree.children[n - 1].files(),
            table,
        );
    }
}

/// A file that stands in a well-formed tree is declared: its constant stands
/// in the declaration under the sanitized names of the namespaces that lead
/// to the file.
pub proof fn lemma_file_is_declared(
    tree: NodeView,
    name: Seq<char>,
    path: Seq<Seq<char>>,
    table: Seq<ResolutionView>,
)
    requires
        tree.wf(),
        tree.file_at(path) is Some,
    ensures
        tree.declaration_as(name, table).declares_constant(
            sanitized_path(path.drop_last()),
            constant_of(tree.file_at(path)->0, table),
        ),
    decreases path.len(),
{
    let decl = tree.declaration_as(name, table);
    let names = sanitized_path(path.drop_last());
    let constant = constant_of(tree.file_at(path)->0, table);
    if path.len() == 1 {
        assert(path.drop_last().len() == 0);
        lemma_file_lookup(tree, path.last());
        let j = tree.entry_index(path.last())->0;
        assert(decl.constants[j] == constant);
    } else {
        lemma_file_at_step(tree, path);
        lemma_child_lookup(tree, path[0]);
        let i = tree.child_index(path[0])->0;
        let child = tree.children[i];
        lemma_file_is_declared(child, sanitized(child.name), path.drop_first(), table);
        assert(decl.namespaces[i] == child.declaration_as(sanitized(child.name), table));
        assert(names[0] == sanitized(path[0]));
        assert(names.drop_first() =~= sanitized_path(path.drop_first().drop_last()));
    }
}

/// A constant that a well-formed tree declares is owed to a file of the
/// tree: the lemma gives the path of such a file, whose directories have the
/// constant's namespaces as their sanitized names.
pub proof fn lemma_declared_is_file(
    tree: NodeView,
    name: Seq<char>,
    names: Seq<Seq<char>>,
    constant: ConstantView,
    table: Seq<ResolutionView>,
) -> (path: Seq<Seq<char>>)
    requires
        tree.wf(),
        tree.declaration_as(name, table).declares_constant(names, constant),
    ensures
        path.len() == names.len() + 1,
        sanitized_path(path.drop_last()) == names,
        tree.file_at(path) matches Some(entry) && constant_of(entry, table) == constant,
    decreases names.len(),
{
    let decl = tree.declaration_as(name, table);
    if names.len() == 0 {
        let j = choose|j: int| 0 <= j < decl.constants.len() && decl.constants[j] == constant;
        let path = seq![tree.entries[j].last];
        lemma_file_found(tree, j);
        assert(path.drop_last().len() == 0);
        assert(path.last() == tree.entries[j].last);
        assert(sanitized_path(path.drop_last()) =~= names);
        path
    } else {
        let i = choose|i: int|
            0 <= i < decl.namespaces.len() && (#[trigger] decl.namespaces[i]).name == names[0]
                && decl.namespaces[i].declares_constant(names.drop_first(), constant);
        let child = tree.children[i];
        assert(decl.namespaces[i] == child.declaration_as(sanitized(child.name), table));
        let rest = lemma_declared_is_file(
            child,
            sanitized(child.name),
            names.drop_first(),
            constant,
            table,
        );
        let path = seq![child.name] + rest;
        lemma_child_found(tree, i);
        lemma_file_at_step(tree, path);
        assert(path.drop_first() =~= rest);
        assert(path[0] == child.name);
        assert(sanitized_path(path.drop_last()) =~= names) by {
            assert(path.drop_last().drop_first() =~= rest.drop_last());
            assert(sanitized_path(rest.drop_last()) == names.drop_first());
            assert forall|k: int| 0 <= k < names.len() implies sanitized_path(
                path.drop_last(),
            )[k] == names[k] by {
                if k > 0 {
                    assert(path.drop_last()[k] == rest.drop_last()[k - 1]);
                    assert(sanitized_path(rest.drop_last())[k - 1] == names.drop_first()[k - 1]);
                }
            }
        }
        path
    }
}

/// A namespace that stands in a well-formed tree is declared, under the
/// sanitized names of the segments that lead to it.
pub proof fn lemma_namespace_is_declared(
    tree: NodeView,
    name: Seq<char>,
    path: Seq<Seq<char>>,
    table: Seq<ResolutionView>,
)
    requires
        tree.wf(),
        tree.has_namespace(path),
    ensures
        tree.declaration_as(name, table).declares_namespace(sanitized_path(path)),
    decreases path.len(),
{
    let decl = tree.declaration_as(name, table);
    let names = sanitized_path(path);
    if path.len() > 0 {
        lemma_child_lookup(tree, path[0]);
        let i = tree.child_index(path[0])->0;
        let child = tree.children[i];
        lemma_namespace_is_declared(child, sanitized(child.name), path.drop_first(), table);
        assert(decl.namespaces[i] == child.declaration_as(sanitized(child.name), table));
        assert(names[0] == sanitized(path[0]));
        assert(names.drop_first() =~= sanitized_path(path.drop_first()));
    }
}

/// A namespace that a well-formed tree declares is a namespace of the tree:
/// the lemma gives a path at which it stands, whose segments have the
/// declared names as their sanitized names.
pub proof fn lemma_declared_is_namespace(
    tree: NodeView,
    name: Seq<char>,
    names: Seq<Seq<char>>,
    table: Seq<ResolutionView>,
) -> (path: Seq<Seq<char>>)
    requires
        tree.wf(),
        tree.declaration_as(name, table).declares_namespace(names),
    ensures
        sanitized_path(path) == names,
        tree.has_namespace(path),
    decreases names.len(),
{
    let decl = tree.declaration_as(name, table);
    if names.len() == 0 {
        let path = Seq::<Seq<char>>::empty();
        assert(sanitized_path(path) =~= names);
        path
    } else {
        let i = choose|i: int|
            0 <= i < decl.namespaces.len() && (#[trigger] decl.namespaces[i]).name == names[0]
                && decl.namespaces[i].declares_namespace(names.drop_first());
        let child = tree.children[i];
        assert(decl.namespaces[i] == child.declaration_as(sanitized(child.name), table));
        let rest = lemma_declared_is_namespace(
            child,
            sanitized(child.name),
            names.drop_first(),
            table,
        );
        let path = seq![child.name] + rest;
        lemma_child_found(tree, i);
        assert(path.drop_first() =~= rest);
        assert(path[0] == child.name);
        assert(sanitized_path(path) =~= names) by {
            assert forall|k: int| 0 <= k < names.len() implies sanitized_path(path)[k]
                == names[k] by {
                if k > 0 {
                    assert(path[k] == rest[k - 1]);
                    assert(sanitized_path(rest)[k - 1] == names.drop_first()[k - 1]);
                }
            }
        }
        path
    }
}

/// Two well-formed trees in which every path finds the same file and the
/// same namespaces, that is, the same tree but for the order in which a
/// node holds its namespaces and files, declare the same: the same
/// namespaces, and in each of them the same constants, by name and by the
/// path they are bound to. Only the order of the declarations may differ.
pub proof fn lemma_same_declarations(
    one: NodeView,
    other: NodeView,
    table: Seq<ResolutionView>,
    names: Seq<Seq<char>>,
    constant: ConstantView,
)
    requires
        one.wf(),
        other.wf(),
        forall|path: Seq<Seq<char>>| #[trigger] one.file_at(path) == other.file_at(path),
        forall|path: Seq<Seq<char>>|
            #[trigger] one.has_namespace(path) == other.has_namespace(path),
    ensures
        one.declaration(table).declares_namespace(names) == other.declaration(
            table,
        ).declares_namespace(names),
        one.declaration(table).declares_constant(names, constant) == other.declaration(
            table,
        ).declares_constant(names, constant),
{
    if one.declaration(table).declares_namespace(names) {
        let path = lemma_declared_is_namespace(one, one.name, names, table);
        assert(other.has_namespace(path) == one.has_namespace(path));
        lemma_namespace_is_declared(other, other.name, path, table);
    }
    if other.declaration(table).declares_namespace(names) {
        let path = lemma_declared_is_namespace(other, other.name, names, table);
        assert(one.has_namespace(path) == other.has_namespace(path));
        lemma_namespace_is_declared(one, one.name, path, table);
    }
    if one.declaration(table).declares_constant(names, constant) {
        let path = lemma_declared_is_file(one, one.name, names, constant, table);
        assert(other.file_at(path) == one.file_at(path));
        lemma_file_is_declared(other, other.name, path, table);
    }
    if other.declaration(table).declares_constant(names, constant) {
        let path = lemma_declared_is_file(other, other.name, names, constant, table);
        assert(one.file_at(path) == other.file_at(path));
        lemma_file_is_declared(one, one.name, path, table);
    }
}

/// Two orderly walks over the same items declare the same, whatever the
/// order in which each of them yields its items: the same namespaces, and in
/// each of them the same constants, by name and by the path they are bound
/// to.
pub proof fn lemma_walks_declare_the_same(
    name: Seq<char>,
    visibility: Option<Seq<char>>,
    first: Seq<Option<PathEntryView>>,
    second: Seq<Option<PathEntryView>>,
    table: Seq<ResolutionView>,
    names: Seq<Seq<char>>,
    constant: ConstantView,
)
    requires
        first.to_multiset() == second.to_multiset(),
        orderly(first),
        orderly(second),
    ensures
        NodeView::root(name, visibility).build(first).declaration(table).declares_namespace(names)
            == NodeView::root(name, visibility).build(second).declaration(
            table,
        ).declares_namespace(names),
        NodeView::root(name, visibility).build(first).declaration(table).declares_constant(
            names,
            constant,
        ) == NodeView::root(name, visibility).build(second).declaration(table).declares_constant(
            names,
            constant,
        ),
{
    let root = NodeView::root(name, visibility);
    let one = root.build(first);
    let other = root.build(second);
    assert(root.wf());
    lemma_build_wf(root, first);
    lemma_build_wf(root, second);
    assert forall|path: Seq<Seq<char>>| #[trigger] one.file_at(path) == other.file_at(path) by {
        lemma_order_independent(name, visibility, first, second, path);
    }
    assert forall|path: Seq<Seq<char>>| #[trigger] one.has_namespace(path) == other.has_namespace(
        path,
    ) by {
        lemma_order_independent(name, visibility, first, second, path);
    }
    lemma_same_declarations(one, other, table, names, constant);
}

} // verus!
