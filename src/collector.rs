//! The mentions found in one file, gathered as dependencies of it.
use vstd::prelude::*;
use crate::types::{deps_view, Dependency, DependencyKind, DependencyView};

verus! {

/// Gathers the mentions of the file reached through `path`, whose id is `id`.
pub struct DependencyCollector {
    pub path: String,
    pub dependencies: Vec<Dependency>,
    pub id: String,
}

impl DependencyCollector {
    /// A collector with no mention yet.
    pub fn new(path: String, id: String) -> (r: DependencyCollector)
        ensures
            r.path@ == path@,
            r.id@ == id@,
            r.dependencies@.len() == 0,
    {
        DependencyCollector { path, dependencies: Vec::new(), id }
    }

    /// Records a mention of `request`: a dependency issued by the file's id,
    /// holding that id as its target until the request is resolved.
    pub fn add(&mut self, request: String, kind: DependencyKind)
        ensures
            final(self).path == old(self).path,
            final(self).id == old(self).id,
            deps_view(final(self).dependencies@) == deps_view(old(self).dependencies@).push(DependencyView {
                issuer: old(self).id@,
                request: request@,
                kind,
                id: Some(old(self).id@),
            }),
    {
        let ghost before = deps_view(self.dependencies@);
        let d = Dependency { issuer: self.id.clone(), request, kind, id: Some(self.id.clone()) };
        self.dependencies.push(d);
        assert(deps_view(self.dependencies@) =~= before.push(self.dependencies@.last()@));
    }
}

} // verus!
