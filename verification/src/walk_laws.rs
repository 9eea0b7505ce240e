//! What holds of whole walks: what an orderly walk leaves in the tree, and
//! that the order in which it yields its items does not matter.

use crate::entry::PathEntryView;
use crate::laws::{
    lemma_build_wf, lemma_empty_lookup, lemma_insert_lookup, lemma_related_same_length,
    lemma_related_self, lemma_related_symmetric, namespace_after, related,
};
use crate::model::NodeView;
use crate::node_laws::{lemma_same_children, lemma_same_entries};
use vstd::prelude::*;

verus! {

/// Whether `entry` accounts for a namespace at `path`: the path leads to the
/// entry's place, or it is the place of the entry and the entry is a
/// directory.
pub open spec fn covers(entry: PathEntryView, path: Seq<Seq<char>>) -> bool {
    related(entry.slot(), path) && namespace_after(entry, path)
}

/// Whether one of the items accounts for a namespace at `path`.
pub open spec fn stands_namespace(items: Seq<Option<PathEntryView>>, path: Seq<Seq<char>>) -> bool {
    exists|i: int| 0 <= i < items.len() && (#[trigger] items[i] matches Some(entry) && covers(
        entry,
        path,
    ))
}

/// The file among the items whose place is `path`: the last such file, if
/// there are several.
pub open spec fn file_among(items: Seq<Option<PathEntryView>>, path: Seq<Seq<char>>) -> Option<
    PathEntryView,
>
    decreases items.len(),
{
    if items.len() == 0 {
        None
    } else {
        match items.last() {
            Some(entry) => if !entry.is_directory && entry.slot() == path {
                Some(entry)
            } else {
                file_among(items.drop_last(), path)
            },
            None => file_among(items.drop_last(), path),
        }
    }
}

/// Whether an entry may follow an earlier one without undoing anything. The
/// two lie on different lines; or the earlier one is a directory above the
/// later one; or they claim the same place and are both directories, or one
/// and the same entry.
pub open spec fn follows(earlier: PathEntryView, later: PathEntryView) -> bool {
    related(earlier.slot(), later.slot()) ==> (earlier.is_directory && earlier.slot().len()
        < later.slot().len()) || (earlier.slot() == later.slot() && ((earlier.is_directory
        && later.is_directory) || earlier == later))
}

/// Whether the items come in an order that undoes nothing: every item may
/// follow every item before it. Such is the order of a walk that yields
/// every directory before what lies beneath it, whatever the order in which
/// it takes the directories and the files of one level.
pub open spec fn orderly(items: Seq<Option<PathEntryView>>) -> bool {
    forall|i: int, j: int|
        0 <= i < j < items.len() ==> (#[trigger] items[i] matches Some(earlier) ==> (
        #[trigger] items[j] matches Some(later) ==> follows(earlier, later)))
}

/// What `file_among` finds is one of the items, a file whose place is the
/// path; where it finds nothing, no such file is among the items.
pub proof fn lemma_file_among(items: Seq<Option<PathEntryView>>, path: Seq<Seq<char>>)
    ensures
        match file_among(items, path) {
            Some(entry) => items.contains(Some(entry)) && !entry.is_directory && entry.slot()
                == path,
            None => forall|i: int|
                0 <= i < items.len() ==> (#[trigger] items[i] matches Some(entry)
                    ==> entry.is_directory || entry.slot() != path),
        },
    decreases items.len(),
{
    if items.len() > 0 {
        let front = items.drop_last();
        lemma_file_among(front, path);
        assert(forall|i: int| 0 <= i < front.len() ==> front[i] == items[i]);
        match file_among(items, path) {
            Some(entry) => {
                if file_among(front, path) == Some(entry) && front.contains(Some(entry)) {
                    let i = choose|i: int| 0 <= i < front.len() && front[i] == Some(entry);
                    assert(items[i] == Some(entry));
                } else {
                    assert(items[items.len() - 1] == Some(entry));
                }
            },
            None => {
                assert forall|i: int| 0 <= i < items.len() implies (
                #[trigger] items[i] matches Some(entry) ==> entry.is_directory || entry.slot()
                    != path) by {
                    if i < front.len() {
                        assert(front[i] == items[i]);
                    }
                }
            },
        }
    }
}

/// What an orderly walk leaves below a root that began empty. The namespaces
/// are the directories of the walk, one for one: a namespace stands at a
/// path exactly if the path leads to the place of an item or is the place of
/// a directory among the items. The files are the files of the walk: at a
/// path stands the file among the items whose place it is.
pub proof fn lemma_walk_lookup(
    name: Seq<char>,
    visibility: Option<Seq<char>>,
    items: Seq<Option<PathEntryView>>,
    path: Seq<Seq<char>>,
)
    requires
        orderly(items),
        path.len() > 0,
    ensures
        NodeView::root(name, visibility).build(items).has_namespace(path) == stands_namespace(
            items,
            path,
        ),
        NodeView::root(name, visibility).build(items).file_at(path) == file_among(items, path),
    decreases items.len(),
{
    let root = NodeView::root(name, visibility);
    let tree = root.build(items);
    assert(root.wf());
    if items.len() == 0 {
        lemma_same_children(root, NodeView::empty(name));
        lemma_same_entries(root, NodeView::empty(name));
        lemma_empty_lookup(name, path);
        assert(root.child(path[0]) is None);
        if path.len() > 1 {
            assert(path.drop_last()[0] == path[0]);
        } else {
            assert(path.drop_last().len() == 0);
            assert(root.file(path.last()) is None);
        }
    } else {
        let front = items.drop_last();
        let last = items.len() - 1;
        let before = root.build(front);
        assert(forall|i: int| 0 <= i < front.len() ==> front[i] == items[i]);
        assert(orderly(front));
        lemma_build_wf(root, front);
        lemma_walk_lookup(name, visibility, front, path);
        lemma_file_among(front, path);
        match items[last] {
            None => {
                if stands_namespace(items, path) {
                    let i = choose|i: int|
                        0 <= i < items.len() && (#[trigger] items[i] matches Some(entry)
                            && covers(entry, path));
                    assert(front[i] == items[i]);
                }
                if stands_namespace(front, path) {
                    let i = choose|i: int|
                        0 <= i < front.len() && (#[trigger] front[i] matches Some(entry)
                            && covers(entry, path));
                    assert(items[i] == front[i]);
                }
            },
            Some(entry) => {
                let place = entry.slot();
                lemma_walk_lookup(name, visibility, front, place);
                lemma_insert_lookup(before, entry, path);
                lemma_related_self(place);
                if !entry.is_directory && before.has_namespace(place) {
                    let i = choose|i: int|
                        0 <= i < front.len() && (#[trigger] front[i] matches Some(other)
                            && covers(other, place));
                    assert(items[i] == front[i]);
                    assert(items[i] matches Some(earlier) ==> (items[last] matches Some(later)
                        ==> follows(earlier, later)));
                    assert(false);
                }
                if stands_namespace(front, path) {
                    let i = choose|i: int|
                        0 <= i < front.len() && (#[trigger] front[i] matches Some(other)
                            && covers(other, path));
                    let other = front[i]->0;
                    assert(items[i] == front[i]);
                    assert(items[i] matches Some(earlier) ==> (items[last] matches Some(later)
                        ==> follows(earlier, later)));
                    if related(place, path) && path.len() >= place.len() {
                        lemma_on_the_way(other.slot(), path, place);
                    }
                    assert(covers(other, path));
                }
                if stands_namespace(items, path) {
                    let i = choose|i: int|
                        0 <= i < items.len() && (#[trigger] items[i] matches Some(other)
                            && covers(other, path));
                    if i < last {
                        assert(front[i] == items[i]);
                    }
                }
                if related(place, path) && namespace_after(entry, path) {
                    assert(items[last] matches Some(other) && covers(other, path));
                }
                match file_among(front, path) {
                    Some(found) => {
                        let i = choose|i: int| 0 <= i < front.len() && front[i] == Some(found);
                        assert(items[i] == front[i]);
                        assert(items[i] matches Some(earlier) ==> (items[last] matches Some(later)
                            ==> follows(earlier, later)));
                        lemma_related_symmetric(place, path);
                    },
                    None => {},
                }
                if related(place, path) && path.len() == place.len() {
                    lemma_related_same_length(place, path);
                }
            },
        }
    }
}

/// Where a path lies on the line of a second path and is at least as long,
/// and a third path leads on to the first or is the first, the third lies on
/// the line of the second and is at least as long.
pub proof fn lemma_on_the_way(far: Seq<Seq<char>>, path: Seq<Seq<char>>, place: Seq<Seq<char>>)
    requires
        related(far, path),
        path.len() <= far.len(),
        related(place, path),
        place.len() <= path.len(),
    ensures
        related(far, place),
        place.len() <= far.len(),
    decreases place.len(),
{
    if place.len() > 0 {
        lemma_on_the_way(far.drop_first(), path.drop_first(), place.drop_first());
    }
}

/// The order in which a walk yields its items does not matter, as long as
/// it is orderly: two orderly walks over the same items leave the same file
/// and the same namespaces at every path.
pub proof fn lemma_order_independent(
    name: Seq<char>,
    visibility: Option<Seq<char>>,
    first: Seq<Option<PathEntryView>>,
    second: Seq<Option<PathEntryView>>,
    path: Seq<Seq<char>>,
)
    requires
        first.to_multiset() == second.to_multiset(),
        orderly(first),
        orderly(second),
    ensures
        NodeView::root(name, visibility).build(first).has_namespace(path) == NodeView::root(
            name,
            visibility,
        ).build(second).has_namespace(path),
        NodeView::root(name, visibility).build(first).file_at(path) == NodeView::root(
            name,
            visibility,
        ).build(second).file_at(path),
{
    if path.len() > 0 {
        lemma_walk_lookup(name, visibility, first, path);
        lemma_walk_lookup(name, visibility, second, path);
        first.to_multiset_ensures();
        second.to_multiset_ensures();
        if stands_namespace(first, path) {
            let i = choose|i: int|
                0 <= i < first.len() && (#[trigger] first[i] matches Some(entry) && covers(
                    entry,
                    path,
                ));
            assert(first.contains(first[i]));
            assert(first.to_multiset().count(first[i]) > 0);
            assert(second.contains(first[i]));
            let k = choose|k: int| 0 <= k < second.len() && second[k] == first[i];
            assert(second[k] matches Some(entry) && covers(entry, path));
        }
        if stands_namespace(second, path) {
            let i = choose|i: int|
                0 <= i < second.len() && (#[trigger] second[i] matches Some(entry) && covers(
                    entry,
                    path,
                ));
            assert(second.contains(second[i]));
            assert(second.to_multiset().count(second[i]) > 0);
            assert(first.contains(second[i]));
            let k = choose|k: int| 0 <= k < first.len() && first[k] == second[i];
            assert(first[k] matches Some(entry) && covers(entry, path));
        }
        lemma_file_among(first, path);
        lemma_file_among(second, path);
        lemma_one_file(first, second, path);
        lemma_one_file(second, first, path);
    }
}

/// Of two orderly walks over the same items, the second finds at a path the
/// file that the first finds there.
proof fn lemma_one_file(
    first: Seq<Option<PathEntryView>>,
    second: Seq<Option<PathEntryView>>,
    path: Seq<Seq<char>>,
)
    requires
        first.to_multiset() == second.to_multiset(),
        orderly(second),
    ensures
        file_among(first, path) matches Some(entry) ==> file_among(second, path) == Some(entry),
{
    lemma_file_among(first, path);
    lemma_file_among(second, path);
    first.to_multiset_ensures();
    second.to_multiset_ensures();
    if file_among(first, path) is Some {
        let entry = file_among(first, path)->0;
        assert(first.to_multiset().count(Some(entry)) > 0);
        assert(second.contains(Some(entry)));
        let k = choose|k: int| 0 <= k < second.len() && second[k] == Some(entry);
        assert(second[k] matches Some(other) && !other.is_directory && other.slot() == path);
        let found = file_among(second, path)->0;
        let m = choose|m: int| 0 <= m < second.len() && second[m] == Some(found);
        lemma_related_self(path);
        if k < m {
            assert(second[k] matches Some(earlier) ==> (second[m] matches Some(later) ==> follows(
                earlier,
                later,
            )));
        } else if m < k {
            assert(second[m] matches Some(earlier) ==> (second[k] matches Some(later) ==> follows(
                earlier,
                later,
            )));
        }
    }
}

} // verus!
