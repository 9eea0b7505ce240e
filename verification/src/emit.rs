//! The emitter: turning a finished tree into the declarations that bind every
//! file to a named byte constant.

use crate::entry::{PathEntry, PathEntryView};
use crate::model::{optional_text, NodeView};
use crate::sanitize::{sanitize, sanitized};
use crate::tree::NamespaceNode;
use vstd::prelude::*;

verus! {

/// What resolving one path to its canonical absolute form gave.
#[derive(Debug, PartialEq, Eq)]
pub struct Resolution {
    /// The path that was resolved, segment by segment.
    pub path: Vec<String>,
    /// Its canonical absolute form; `None` where the file could not be
    /// reached any more.
    pub canonical: Option<String>,
}

/// The mathematical value of a [`Resolution`].
pub struct ResolutionView {
    pub path: Seq<Seq<char>>,
    pub canonical: Option<Seq<char>>,
}

impl View for Resolution {
    type V = ResolutionView;

    open spec fn view(&self) -> ResolutionView {
        ResolutionView { path: self.path.deep_view(), canonical: optional_text(self.canonical) }
    }
}

/// The mathematical value of a table of resolutions.
pub open spec fn table_view(table: Seq<Resolution>) -> Seq<ResolutionView> {
    Seq::new(table.len(), |i: int| table[i]@)
}

/// A byte constant: its identifier text, and the canonical path of the file
/// whose bytes it is bound to.
#[derive(Debug, PartialEq, Eq)]
pub struct ConstantDecl {
    pub name: String,
    pub path: String,
}

/// The mathematical value of a [`ConstantDecl`].
pub struct ConstantView {
    pub name: Seq<char>,
    pub path: Seq<char>,
}

impl View for ConstantDecl {
    type V = ConstantView;

    open spec fn view(&self) -> ConstantView {
        ConstantView { name: self.name@, path: self.path@ }
    }
}

/// A namespace declaration: its name, its export qualifier (`None` means fully
/// exported), the namespaces nested in it and the constants declared in it.
#[derive(Debug, PartialEq, Eq)]
pub struct NamespaceDecl {
    pub name: String,
    pub visibility: Option<String>,
    pub namespaces: Vec<NamespaceDecl>,
    pub constants: Vec<ConstantDecl>,
}

/// The mathematical value of a [`NamespaceDecl`].
pub struct DeclView {
    pub name: Seq<char>,
    pub visibility: Option<Seq<char>>,
    pub namespaces: Seq<DeclView>,
    pub constants: Seq<ConstantView>,
}

impl NamespaceDecl {
    /// The mathematical value of the declaration, nested ones included.
    pub open spec fn model(self) -> DeclView
        decreases self,
    {
        DeclView {
            name: self.name@,
            visibility: optional_text(self.visibility),
            namespaces: Seq::new(
                self.namespaces.len() as nat,
                |i: int|
                    if 0 <= i < self.namespaces.len() {
                        self.namespaces[i].model()
                    } else {
                        arbitrary()
                    },
            ),
            constants: Seq::new(self.constants.len() as nat, |i: int| self.constants[i]@),
        }
    }
}

impl NamespaceDecl {
    /// Whether the declaration stands for a namespace of its own. A
    /// declaration without a name does not: what it holds is declared
    /// directly where the bundle is asked for.
    pub fn is_enclosing(&self) -> (yes: bool)
        ensures
            yes == (self@.name.len() > 0),
    {
        !self.name.as_str().is_empty()
    }
}

impl View for NamespaceDecl {
    type V = DeclView;

    open spec fn view(&self) -> DeclView {
        self.model()
    }
}

impl DeclView {
    /// Whether the declaration declares `constant` in the namespace that the
    /// names `names` lead to, counted from the declaration itself.
    pub open spec fn declares_constant(self, names: Seq<Seq<char>>, constant: ConstantView) -> bool
        decreases names.len(),
    {
        if names.len() == 0 {
            self.constants.contains(constant)
        } else {
            exists|i: int|
                0 <= i < self.namespaces.len() && (#[trigger] self.namespaces[i]).name == names[0]
                    && self.namespaces[i].declares_constant(names.drop_first(), constant)
        }
    }

    /// Whether the declaration declares a namespace that the names `names`
    /// lead to, counted from the declaration itself.
    pub open spec fn declares_namespace(self, names: Seq<Seq<char>>) -> bool
        decreases names.len(),
    {
        if names.len() == 0 {
            true
        } else {
            exists|i: int|
                0 <= i < self.namespaces.len() && (#[trigger] self.namespaces[i]).name == names[0]
                    && self.namespaces[i].declares_namespace(names.drop_first())
        }
    }
}

/// The sanitized names of the segments of a path.
pub open spec fn sanitized_path(path: Seq<Seq<char>>) -> Seq<Seq<char>> {
    Seq::new(path.len(), |i: int| sanitized(path[i]))
}

/// Why emission failed.
#[derive(Debug, PartialEq, Eq)]
pub enum EmitError {
    /// A discovered file had no canonical form any more when the declarations
    /// were made. `path` is the file's path as it was discovered.
    PathResolutionFailure { path: Vec<String> },
}

/// The canonical form that the table gives for `path`: that of the first row
/// for the path, and none where no row speaks of it.
pub open spec fn canonical_of(table: Seq<ResolutionView>, path: Seq<Seq<char>>) -> Option<
    Seq<char>,
>
    decreases table.len(),
{
    if table.len() == 0 {
        None
    } else if table[0].path == path {
        table[0].canonical
    } else {
        canonical_of(table.drop_first(), path)
    }
}

/// The first of `entries` for which the table gives no canonical form.
pub open spec fn first_unresolved_entry(
    entries: Seq<PathEntryView>,
    table: Seq<ResolutionView>,
) -> Option<PathEntryView>
    decreases entries.len(),
{
    if entries.len() == 0 {
        None
    } else {
        match first_unresolved_entry(entries.drop_last(), table) {
            Some(entry) => Some(entry),
            None => if canonical_of(table, entries.last().segments()) is None {
                Some(entries.last())
            } else {
                None
            },
        }
    }
}

/// The constant that stands for a file.
pub open spec fn constant_of(entry: PathEntryView, table: Seq<ResolutionView>) -> ConstantView {
    ConstantView {
        name: sanitized(entry.last),
        path: match canonical_of(table, entry.segments()) {
            Some(path) => path,
            None => Seq::empty(),
        },
    }
}

impl NodeView {
    /// The first file without a canonical form among the first `n` nested
    /// namespaces, in emission order.
    pub open spec fn first_unresolved_below(self, n: nat, table: Seq<ResolutionView>) -> Option<
        PathEntryView,
    >
        decreases self, n,
    {
        if n == 0 || n > self.children.len() {
            None
        } else {
            match self.first_unresolved_below((n - 1) as nat, table) {
                Some(entry) => Some(entry),
                None => self.children[n - 1].first_unresolved(table),
            }
        }
    }

    /// The first file of the tree, in emission order, for which the table
    /// gives no canonical form: the nested namespaces come first, each as a
    /// whole, then the node's own files.
    pub open spec fn first_unresolved(self, table: Seq<ResolutionView>) -> Option<PathEntryView>
        decreases self, self.children.len() + 1,
    {
        match self.first_unresolved_below(self.children.len(), table) {
            Some(entry) => Some(entry),
            None => first_unresolved_entry(self.entries, table),
        }
    }

    /// The files of the first `n` nested namespaces, in emission order.
    pub open spec fn files_below(self, n: nat) -> Seq<PathEntryView>
        decreases self, n,
    {
        if n == 0 || n > self.children.len() {
            Seq::empty()
        } else {
            self.files_below((n - 1) as nat) + self.children[n - 1].files()
        }
    }

    /// The files of the tree, in emission order: those of the nested
    /// namespaces come first, each namespace as a whole, then the node's own.
    pub open spec fn files(self) -> Seq<PathEntryView>
        decreases self, self.children.len() + 1,
    {
        self.files_below(self.children.len()) + self.entries
    }

    /// The declaration of the node under the name `name`: one nested
    /// declaration per nested namespace, named by its sanitized name, then
    /// one constant per file, named by the file's sanitized name and bound to
    /// the file's canonical path.
    pub open spec fn declaration_as(self, name: Seq<char>, table: Seq<ResolutionView>) -> DeclView
        decreases self,
    {
        DeclView {
            name,
            visibility: self.visibility,
            namespaces: Seq::new(
                self.children.len(),
                |i: int|
                    if 0 <= i < self.children.len() {
                        self.children[i].declaration_as(sanitized(self.children[i].name), table)
                    } else {
                        arbitrary()
                    },
            ),
            constants: Seq::new(self.entries.len(), |i: int| constant_of(self.entries[i], table)),
        }
    }

    /// The declaration of a whole tree: the root keeps the name of the
    /// enclosing declaration as it was given.
    pub open spec fn declaration(self, table: Seq<ResolutionView>) -> DeclView {
        self.declaration_as(self.name, table)
    }
}

/// The paths of a list of files.
pub open spec fn paths_of(entries: Seq<PathEntryView>) -> Seq<Seq<Seq<char>>> {
    Seq::new(entries.len(), |i: int| entries[i].segments())
}

/// Whether a path of the table is the path of an entry.
fn is_path_of(path: &Vec<String>, entry: &PathEntry) -> (same: bool)
    ensures
        same == (path.deep_view() == entry@.segments()),
{
    let n = entry.dirs.len();
    if path.len() == 0 || path.len() - 1 != n {
        proof {
            assert(path.deep_view().len() != entry@.segments().len());
        }
        return false;
    }
    let mut i: usize = 0;
    while i < n
        invariant
            i <= n,
            n == entry.dirs.len(),
            path.len() == n + 1,
            forall|k: int| 0 <= k < i ==> path[k]@ == entry.dirs[k]@,
        decreases n - i,
    {
        if !(path[i] == entry.dirs[i]) {
            proof {
                assert(path.deep_view()[i as int] == path[i as int]@);
                assert(entry@.segments()[i as int] == entry.dirs[i as int]@);
            }
            return false;
        }
        i = i + 1;
    }
    let same = path[n] == entry.last;
    proof {
        assert(path.deep_view()[n as int] == path[n as int]@);
        assert(entry@.segments()[n as int] == entry.last@);
        if same {
            assert(path.deep_view() =~= entry@.segments());
        }
    }
    same
}

/// Looks the canonical form of an entry's path up in the table.
fn lookup<'a>(table: &'a Vec<Resolution>, entry: &PathEntry) -> (found: Option<&'a String>)
    ensures
        found matches Some(path) ==> canonical_of(table_view(table@), entry@.segments()) == Some(
            path@,
        ),
        found is None ==> canonical_of(table_view(table@), entry@.segments()) is None,
{
    let ghost rows = table_view(table@);
    let mut i: usize = 0;
    proof {
        assert(rows.skip(0) =~= rows);
    }
    while i < table.len()
        invariant
            i <= table.len(),
            rows == table_view(table@),
            canonical_of(rows, entry@.segments()) == canonical_of(
                rows.skip(i as int),
                entry@.segments(),
            ),
        decreases table.len() - i,
    {
        proof {
            assert(rows.skip(i as int)[0] == table[i as int]@);
            assert(rows.skip(i as int).drop_first() =~= rows.skip(i + 1));
        }
        if is_path_of(&table[i].path, entry) {
            return match &table[i].canonical {
                Some(path) => Some(path),
                None => None,
            };
        }
        i = i + 1;
    }
    None
}

impl NamespaceNode {
    fn emit_as(&self, name: String, table: &Vec<Resolution>) -> (result: Result<
        NamespaceDecl,
        EmitError,
    >)
        ensures
            match result {
                Ok(decl) => self@.first_unresolved(table_view(table@)) is None && decl@
                    == self@.declaration_as(name@, table_view(table@)),
                Err(EmitError::PathResolutionFailure { path }) => self@.first_unresolved(
                    table_view(table@),
                ) matches Some(entry) && path.deep_view() == entry.segments(),
            },
        decreases self,
    {
        let ghost rows = table_view(table@);
        proof {
            self.lemma_model();
        }
        let mut namespaces: Vec<NamespaceDecl> = Vec::new();
        let mut i: usize = 0;
        while i < self.children.len()
            invariant
                i <= self.children.len(),
                rows == table_view(table@),
                self@.children.len() == self.children.len(),
                forall|k: int|
                    0 <= k < self.children.len() ==> self@.children[k] == self.children[k]@,
                self@.first_unresolved_below(i as nat, rows) is None,
                namespaces.len() == i,
                forall|k: int|
                    0 <= k < i ==> (#[trigger] namespaces[k])@ == self@.children[k].declaration_as(
                        sanitized(self@.children[k].name),
                        rows,
                    ),
            decreases self.children.len() - i,
        {
            let child = &self.children[i];
            proof {
                child.lemma_model();
            }
            let child_name = sanitize(child.name.as_str());
            match child.emit_as(child_name, table) {
                Ok(decl) => {
                    namespaces.push(decl);
                },
                Err(error) => {
                    proof {
                        lemma_first_unresolved_below_prefix(self@, (i + 1) as nat, rows);
                    }
                    return Err(error);
                },
            }
            i = i + 1;
        }
        let mut constants: Vec<ConstantDecl> = Vec::new();
        let mut j: usize = 0;
        while j < self.entries.len()
            invariant
                j <= self.entries.len(),
                rows == table_view(table@),
                self@.entries.len() == self.entries.len(),
                forall|k: int| 0 <= k < self.entries.len() ==> self@.entries[k] == self.entries[k]@,
                self@.first_unresolved_below(self@.children.len(), rows) is None,
                first_unresolved_entry(self@.entries.take(j as int), rows) is None,
                constants.len() == j,
                forall|k: int|
                    0 <= k < j ==> (#[trigger] constants[k])@ == constant_of(
                        self@.entries[k],
                        rows,
                    ),
            decreases self.entries.len() - j,
        {
            let entry = &self.entries[j];
            proof {
                let done = self@.entries.take(j + 1);
                assert(done.drop_last() =~= self@.entries.take(j as int));
                assert(done.last() == entry@);
                if j + 1 == self.entries.len() {
                    assert(done =~= self@.entries);
                }
            }
            match lookup(table, entry) {
                Some(path) => {
                    constants.push(
                        ConstantDecl { name: sanitize(entry.last.as_str()), path: path.clone() },
                    );
                },
                None => {
                    let path = entry.segments();
                    proof {
                        let done = self@.entries.take(j + 1);
                        assert(first_unresolved_entry(done, rows) == Some(entry@));
                        lemma_first_unresolved_entry_prefix(self@.entries, j + 1, rows);
                    }
                    return Err(EmitError::PathResolutionFailure { path });
                },
            }
            j = j + 1;
        }
        proof {
            assert(self@.entries.take(self.entries.len() as int) =~= self@.entries);
        }
        let visibility = match &self.visibility {
            Some(text) => Some(text.clone()),
            None => None,
        };
        let decl = NamespaceDecl { name, visibility, namespaces, constants };
        proof {
            let expected = self@.declaration_as(name@, rows);
            assert(decl@.namespaces =~= expected.namespaces);
            assert(decl@.constants =~= expected.constants);
        }
        Ok(decl)
    }

    fn collect_paths(&self, paths: &mut Vec<Vec<String>>)
        ensures
            final(paths).deep_view() == old(paths).deep_view() + paths_of(self@.files()),
        decreases self,
    {
        proof {
            self.lemma_model();
            assert(paths.deep_view() =~= old(paths).deep_view() + paths_of(
                self@.files_below(0),
            ));
        }
        let mut i: usize = 0;
        while i < self.children.len()
            invariant
                i <= self.children.len(),
                self@.children.len() == self.children.len(),
                forall|k: int|
                    0 <= k < self.children.len() ==> self@.children[k] == self.children[k]@,
                paths.deep_view() == old(paths).deep_view() + paths_of(
                    self@.files_below(i as nat),
                ),
            decreases self.children.len() - i,
        {
            let ghost before = paths.deep_view();
            self.children[i].collect_paths(paths);
            proof {
                let done = self@.files_below(i as nat);
                let more = self@.children[i as int].files();
                assert(self@.files_below((i + 1) as nat) == done + more);
                assert(paths_of(done + more) =~= paths_of(done) + paths_of(more));
                assert(paths.deep_view() =~= old(paths).deep_view() + paths_of(done + more));
            }
            i = i + 1;
        }
        let ghost nested = self@.files_below(self@.children.len());
        let mut j: usize = 0;
        proof {
            assert(self@.entries.take(0) =~= Seq::empty());
            assert(nested + self@.entries.take(0) =~= nested);
        }
        while j < self.entries.len()
            invariant
                j <= self.entries.len(),
                self@.entries.len() == self.entries.len(),
                forall|k: int| 0 <= k < self.entries.len() ==> self@.entries[k] == self.entries[k]@,
                nested == self@.files_below(self@.children.len()),
                paths.deep_view() == old(paths).deep_view() + paths_of(
                    nested + self@.entries.take(j as int),
                ),
            decreases self.entries.len() - j,
        {
            let ghost before = paths.deep_view();
            let path = self.entries[j].segments();
            paths.push(path);
            proof {
                let done = nested + self@.entries.take(j as int);
                let next = nested + self@.entries.take(j + 1);
                assert(next =~= done.push(self@.entries[j as int]));
                assert(paths_of(next) =~= paths_of(done).push(self@.entries[j as int].segments()));
                assert(paths.deep_view() =~= before.push(path.deep_view()));
                assert(paths.deep_view() =~= old(paths).deep_view() + paths_of(next));
            }
            j = j + 1;
        }
        proof {
            assert(self@.entries.take(self.entries.len() as int) =~= self@.entries);
        }
    }

    /// The paths of the tree's files, in emission order: the paths to resolve
    /// before the declarations can be made.
    pub fn file_paths(&self) -> (paths: Vec<Vec<String>>)
        ensures
            paths.deep_view() == paths_of(self@.files()),
    {
        let mut paths: Vec<Vec<String>> = Vec::new();
        let ghost none = paths.deep_view();
        self.collect_paths(&mut paths);
        proof {
            assert(none =~= Seq::<Seq<Seq<char>>>::empty());
            assert(none + paths_of(self@.files()) =~= paths_of(self@.files()));
        }
        paths
    }

    /// Makes the declarations of the whole tree. `table` holds what resolving
    /// the paths of the tree's files gave. Every file must have a canonical
    /// form: the first one without, in emission order, fails the emission,
    /// and nothing is declared.
    pub fn emit(&self, table: &Vec<Resolution>) -> (result: Result<NamespaceDecl, EmitError>)
        ensures
            match result {
                Ok(decl) => self@.first_unresolved(table_view(table@)) is None && decl@
                    == self@.declaration(table_view(table@)),
                Err(EmitError::PathResolutionFailure { path }) => self@.first_unresolved(
                    table_view(table@),
                ) matches Some(entry) && path.deep_view() == entry.segments(),
            },
    {
        proof {
            self.lemma_model();
        }
        self.emit_as(self.name.clone(), table)
    }
}

/// A file without a canonical form among the first `n` nested namespaces is
/// the first such file of all the nested namespaces.
proof fn lemma_first_unresolved_below_prefix(node: NodeView, n: nat, table: Seq<ResolutionView>)
    requires
        n <= node.children.len(),
        node.first_unresolved_below(n, table) is Some,
    ensures
        node.first_unresolved_below(node.children.len(), table) == node.first_unresolved_below(
            n,
            table,
        ),
    decreases node.children.len() - n,
{
    if n < node.children.len() {
        lemma_first_unresolved_below_prefix(node, n + 1, table);
    }
}

/// A file without a canonical form among the first `n` entries is the first
/// such file of the whole list, if none came before it.
proof fn lemma_first_unresolved_entry_prefix(
    entries: Seq<PathEntryView>,
    n: int,
    table: Seq<ResolutionView>,
)
    requires
        0 <= n <= entries.len(),
        first_unresolved_entry(entries.take(n), table) is Some,
    ensures
        first_unresolved_entry(entries, table) == first_unresolved_entry(entries.take(n), table),
    decreases entries.len() - n,
{
    if n < entries.len() {
        let longer = entries.take(n + 1);
        assert(longer.drop_last() =~= entries.take(n));
        lemma_first_unresolved_entry_prefix(entries, n + 1, table);
    } else {
        assert(entries.take(n) =~= entries);
    }
}

} // verus!
