//! Ids relative to a context directory.
use vstd::prelude::*;
use crate::text::{chars_of, string_of};
use crate::types::{
    deps_view, edges_view, opt_view, tree_insert, Dependency, DependencyTree, DependencyView,
    EntryView,
};

verus! {

/// `s` without its trailing slashes.
pub open spec fn trim_trailing_slashes(s: Seq<char>) -> Seq<char>
    decreases s.len(),
{
    if s.len() > 0 && s.last() == '/' {
        trim_trailing_slashes(s.drop_last())
    } else {
        s
    }
}

/// `s` without its leading slashes.
pub open spec fn trim_leading_slashes(s: Seq<char>) -> Seq<char>
    decreases s.len(),
{
    if s.len() > 0 && s[0] == '/' {
        trim_leading_slashes(s.drop_first())
    } else {
        s
    }
}

/// The part of `id` below the directory `context`, if `id` lies in it; an
/// empty context holds everything.
pub open spec fn strip_context(id: Seq<char>, context: Seq<char>) -> Option<Seq<char>> {
    let c = trim_trailing_slashes(context);
    if context.len() == 0 {
        Some(id)
    } else if c.len() <= id.len() && id.take(c.len() as int) == c && (id.len() == c.len() || id[c.len() as int] == '/') {
        Some(trim_leading_slashes(id.skip(c.len() as int)))
    } else {
        None
    }
}

/// `id` relative to `context`, or `id` itself when it lies outside.
pub open spec fn shorten_id(id: Seq<char>, context: Seq<char>) -> Seq<char> {
    match strip_context(id, context) {
        Some(r) => r,
        None => id,
    }
}

/// `id` relative to `context`, or `id` itself when it lies outside.
pub fn shorten_path(id: &str, context: &str) -> (r: String)
    ensures
        r@ == shorten_id(id@, context@),
{
    let cs = chars_of(context);
    let ks = chars_of(id);
    if cs.len() == 0 {
        return string_of(&ks);
    }
    let mut n: usize = cs.len();
    assert(cs@.take(cs.len() as int) =~= cs@);
    while n > 0 && cs[n - 1] == '/'
        invariant
            n <= cs.len(),
            trim_trailing_slashes(cs@) == trim_trailing_slashes(cs@.take(n as int)),
        decreases n,
    {
        assert(cs@.take(n as int).drop_last() =~= cs@.take(n - 1));
        n = n - 1;
    }
    let ghost c = cs@.take(n as int);
    assert(trim_trailing_slashes(c) == c);
    if n > ks.len() {
        return string_of(&ks);
    }
    let mut i: usize = 0;
    while i < n
        invariant
            i <= n <= ks.len(),
            n <= cs.len(),
            c == cs@.take(n as int),
            cs@ == context@,
            ks@ == id@,
            cs.len() > 0,
            c == trim_trailing_slashes(context@),
            forall|k: int| 0 <= k < i ==> ks@[k] == cs@[k],
        decreases n - i,
    {
        if ks[i] != cs[i] {
            assert(ks@.take(n as int)[i as int] != c[i as int]);
            assert(ks@.take(c.len() as int) != c);
            return string_of(&ks);
        }
        i = i + 1;
    }
    assert(ks@.take(n as int) =~= c);
    if n < ks.len() && ks[n] != '/' {
        return string_of(&ks);
    }
    let mut j: usize = n;
    while j < ks.len() && ks[j] == '/'
        invariant
            n <= j <= ks.len(),
            trim_leading_slashes(ks@.skip(n as int)) == trim_leading_slashes(ks@.skip(j as int)),
        decreases ks.len() - j,
    {
        assert(ks@.skip(j as int).drop_first() =~= ks@.skip(j + 1));
        j = j + 1;
    }
    let mut out: Vec<char> = Vec::new();
    let mut k: usize = j;
    while k < ks.len()
        invariant
            j <= k <= ks.len(),
            out@ == ks@.subrange(j as int, k as int),
        decreases ks.len() - k,
    {
        out.push(ks[k]);
        assert(ks@.subrange(j as int, k + 1) =~= ks@.subrange(j as int, k as int).push(ks@[k as int]));
        k = k + 1;
    }
    assert(out@ =~= ks@.skip(j as int));
    assert(trim_leading_slashes(ks@.skip(j as int)) == ks@.skip(j as int));
    string_of(&out)
}

pub open spec fn shorten_opt(id: Option<Seq<char>>, context: Seq<char>) -> Option<Seq<char>> {
    match id {
        Some(x) => Some(shorten_id(x, context)),
        None => None,
    }
}

/// A dependency of `issuer` with its resolved id made relative.
pub open spec fn shorten_dep(d: DependencyView, issuer: Seq<char>, context: Seq<char>) -> DependencyView {
    DependencyView { issuer, request: d.request, kind: d.kind, id: shorten_opt(d.id, context) }
}

pub open spec fn shorten_edges(deps: Option<Seq<DependencyView>>, issuer: Seq<char>, context: Seq<char>) -> Option<Seq<DependencyView>> {
    match deps {
        Some(ds) => Some(Seq::new(ds.len(), |i: int| shorten_dep(ds[i], issuer, context))),
        None => None,
    }
}

/// The first `n` entries of `t` with relative ids, inserted in order.
pub open spec fn shortened(t: Seq<EntryView>, context: Seq<char>, n: int) -> Seq<EntryView>
    decreases n,
{
    if n <= 0 {
        Seq::empty()
    } else {
        let key = shorten_id(t[n - 1].id, context);
        tree_insert(shortened(t, context, n - 1), key, shorten_edges(t[n - 1].deps, key, context))
    }
}

fn shorten_deps(deps: &Vec<Dependency>, issuer: &String, context: &str) -> (r: Vec<Dependency>)
    ensures
        deps_view(r@) == Seq::new(deps@.len(), |i: int| shorten_dep(deps@[i]@, issuer@, context@)),
{
    let mut r: Vec<Dependency> = Vec::new();
    let mut i: usize = 0;
    while i < deps.len()
        invariant
            i <= deps.len(),
            r@.len() == i,
            forall|k: int| 0 <= k < i ==> #[trigger] r@[k]@ == shorten_dep(deps@[k]@, issuer@, context@),
        decreases deps.len() - i,
    {
        let d = &deps[i];
        let id = match &d.id {
            Some(x) => Some(shorten_path(x.as_str(), context)),
            None => None,
        };
        assert(opt_view(id) == shorten_opt(d@.id, context@));
        r.push(Dependency { issuer: issuer.clone(), request: d.request.clone(), kind: d.kind, id });
        i = i + 1;
    }
    assert(deps_view(r@) =~= Seq::new(deps@.len(), |i: int| shorten_dep(deps@[i]@, issuer@, context@)));
    r
}

/// The tree with every id, key or resolved target, made relative to
/// `context`; ids outside it stay as they are.
pub fn shorten_tree(context: &String, tree: &DependencyTree) -> (r: DependencyTree)
    ensures
        r.wf(),
        r@ == shortened(tree@, context@, tree@.len() as int),
{
    let mut out = DependencyTree::new();
    let mut i: usize = 0;
    while i < tree.entries.len()
        invariant
            i <= tree.entries.len(),
            out.wf(),
            out@ == shortened(tree@, context@, i as int),
        decreases tree.entries.len() - i,
    {
        let e = &tree.entries[i];
        let key = shorten_path(e.id.as_str(), context.as_str());
        let deps = match &e.deps {
            Some(ds) => Some(shorten_deps(ds, &key, context.as_str())),
            None => None,
        };
        assert(tree@[i as int] == e@);
        assert(edges_view(deps) == shorten_edges(e@.deps, key@, context@));
        out.insert(key, deps);
        i = i + 1;
    }
    out
}

} // verus!
