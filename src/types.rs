//! The data model: dependency kinds, dependencies, and the dependency tree
//! keyed by module id.
use vstd::prelude::*;
use crate::text::str_eq;

verus! {

/// How a module mentions another one.
#[derive(Clone, Copy, Debug, PartialEq, Eq, Structural)]
pub enum DependencyKind {
    CommonJS,
    StaticImport,
    DynamicImport,
    StaticExport,
}

/// Which grammar the source files are parsed with.
#[derive(Clone, Copy, Debug, PartialEq, Eq, Structural)]
pub enum IsModule {
    Bool(bool),
    Unknown,
}

/// One edge of the tree: `issuer` mentions `request`; `id` is the module the
/// request resolved to, if any.
#[derive(Clone, Debug)]
pub struct Dependency {
    pub issuer: String,
    pub request: String,
    pub kind: DependencyKind,
    pub id: Option<String>,
}

pub ghost struct DependencyView {
    pub issuer: Seq<char>,
    pub request: Seq<char>,
    pub kind: DependencyKind,
    pub id: Option<Seq<char>>,
}

pub open spec fn opt_view(o: Option<String>) -> Option<Seq<char>> {
    match o {
        Some(s) => Some(s@),
        None => None,
    }
}

impl View for Dependency {
    type V = DependencyView;

    open spec fn view(&self) -> DependencyView {
        DependencyView {
            issuer: self.issuer@,
            request: self.request@,
            kind: self.kind,
            id: opt_view(self.id),
        }
    }
}

pub fn clone_opt_string(o: &Option<String>) -> (r: Option<String>)
    ensures
        opt_view(r) == opt_view(*o),
{
    match o {
        Some(s) => Some(s.clone()),
        None => None,
    }
}

impl Dependency {
    /// A copy of this dependency.
    pub fn duplicate(&self) -> (r: Dependency)
        ensures
            r@ == self@,
    {
        Dependency {
            issuer: self.issuer.clone(),
            request: self.request.clone(),
            kind: self.kind,
            id: clone_opt_string(&self.id),
        }
    }
}

pub open spec fn deps_view(d: Seq<Dependency>) -> Seq<DependencyView> {
    Seq::new(d.len(), |i: int| d[i]@)
}

pub open spec fn edges_view(d: Option<Vec<Dependency>>) -> Option<Seq<DependencyView>> {
    match d {
        Some(v) => Some(deps_view(v@)),
        None => None,
    }
}

/// One key of the tree with its edges: `None` for a module left out by the
/// filters, `Some` list of outgoing dependencies otherwise.
#[derive(Clone, Debug)]
pub struct TreeEntry {
    pub id: String,
    pub deps: Option<Vec<Dependency>>,
}

pub ghost struct EntryView {
    pub id: Seq<char>,
    pub deps: Option<Seq<DependencyView>>,
}

impl View for TreeEntry {
    type V = EntryView;

    open spec fn view(&self) -> EntryView {
        EntryView { id: self.id@, deps: edges_view(self.deps) }
    }
}

/// The dependency tree: module ids mapped to their edges, one entry per id,
/// in the order in which the ids were first inserted.
#[derive(Clone, Debug)]
pub struct DependencyTree {
    pub entries: Vec<TreeEntry>,
}

pub open spec fn entries_view(e: Seq<TreeEntry>) -> Seq<EntryView> {
    Seq::new(e.len(), |i: int| e[i]@)
}

/// No id stands twice.
pub open spec fn keys_unique(t: Seq<EntryView>) -> bool {
    forall|i: int, j: int| 0 <= i < t.len() && 0 <= j < t.len() && i != j ==> t[i].id != t[j].id
}

/// Whether `id` is a key of the tree.
pub open spec fn has_key(t: Seq<EntryView>, id: Seq<char>) -> bool {
    exists|i: int| 0 <= i < t.len() && (#[trigger] t[i]).id == id
}

/// The tree after `id` is set to `deps`: an existing entry is overwritten in
/// place, a new one is appended.
pub open spec fn tree_insert(t: Seq<EntryView>, id: Seq<char>, deps: Option<Seq<DependencyView>>) -> Seq<EntryView> {
    if has_key(t, id) {
        let i = choose|i: int| 0 <= i < t.len() && (#[trigger] t[i]).id == id;
        t.update(i, EntryView { id, deps })
    } else {
        t.push(EntryView { id, deps })
    }
}

impl View for DependencyTree {
    type V = Seq<EntryView>;

    open spec fn view(&self) -> Seq<EntryView> {
        entries_view(self.entries@)
    }
}

impl DependencyTree {
    pub open spec fn wf(&self) -> bool {
        keys_unique(self@)
    }

    /// An empty tree.
    pub fn new() -> (r: DependencyTree)
        ensures
            r@ == Seq::<EntryView>::empty(),
            r.wf(),
    {
        let r = DependencyTree { entries: Vec::new() };
        assert(r@ =~= Seq::<EntryView>::empty());
        r
    }

    /// The number of ids in the tree.
    pub fn len(&self) -> (r: usize)
        ensures
            r == self@.len(),
    {
        self.entries.len()
    }

    /// The position of `id` among the entries, if it is a key.
    pub fn position(&self, id: &str) -> (r: Option<usize>)
        requires
            self.wf(),
        ensures
            r matches Some(i) ==> i < self@.len() && self@[i as int].id == id@,
            r is None <==> !has_key(self@, id@),
    {
        let mut i: usize = 0;
        while i < self.entries.len()
            invariant
                i <= self.entries.len(),
                forall|k: int| 0 <= k < i ==> self@[k].id != id@,
            decreases self.entries.len() - i,
        {
            if str_eq(self.entries[i].id.as_str(), id) {
                return Some(i);
            }
            i = i + 1;
        }
        assert forall|k: int| 0 <= k < self@.len() implies (#[trigger] self@[k]).id != id@ by {}
        None
    }

    /// Whether `id` is a key of the tree.
    pub fn contains_key(&self, id: &str) -> (r: bool)
        requires
            self.wf(),
        ensures
            r == has_key(self@, id@),
    {
        self.position(id).is_some()
    }

    /// Sets the edges of `id`, overwriting its entry if it is already a key.
    pub fn insert(&mut self, id: String, deps: Option<Vec<Dependency>>)
        requires
            old(self).wf(),
        ensures
            final(self).wf(),
            final(self)@ == tree_insert(old(self)@, id@, edges_view(deps)),
    {
        let ghost old_view = self@;
        let ghost idv = id@;
        let ghost dv = edges_view(deps);
        match self.position(id.as_str()) {
            Some(i) => {
                self.entries.set(i, TreeEntry { id, deps });
                proof {
                    let j = choose|j: int| 0 <= j < old_view.len() && (#[trigger] old_view[j]).id == idv;
                    assert(j == i);
                    assert(self@ =~= old_view.update(i as int, EntryView { id: idv, deps: dv }));
                }
            }
            None => {
                self.entries.push(TreeEntry { id, deps });
                assert(self@ =~= old_view.push(EntryView { id: idv, deps: dv }));
            }
        }
    }
}


/// Whether the tree has no entry at all: no entry file was matched.
pub fn is_empty(tree: &DependencyTree) -> (r: bool)
    ensures
        r == (tree@.len() == 0),
{
    tree.entries.len() == 0
}

} // verus!
