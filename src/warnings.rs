//! Warnings over a finished tree: modules skipped by the filters, mentions
//! that resolved to nothing, and ids naming built-in platform modules.
use vstd::prelude::*;
use crate::order::{lemma_sorted_unique, sort_strings, sorted_texts};
use crate::text::{join_strings, joined, push_str, str_eq, strings_view};
use crate::types::{has_key, DependencyTree, DependencyView, EntryView};

verus! {

/// The names of the platform's built-in modules.
pub open spec fn builtin_names() -> Seq<Seq<char>> {
    seq![
        "assert"@, "buffer"@, "child_process"@, "cluster"@, "console"@, "constants"@,
        "crypto"@, "dgram"@, "dns"@, "domain"@, "events"@, "fs"@, "http"@, "http2"@,
        "https"@, "inspector"@, "module"@, "net"@, "os"@, "path"@, "perf_hooks"@,
        "process"@, "punycode"@, "querystring"@, "readline"@, "repl"@, "stream"@,
        "string_decoder"@, "timers"@, "tls"@, "trace_events"@, "tty"@, "url"@, "util"@,
        "v8"@, "vm"@, "worker_threads"@, "zlib"@,
    ]
}

/// The names of the platform's built-in modules, in a fixed order.
pub fn all_builtins() -> (r: Vec<&'static str>)
    ensures
        Seq::new(r@.len(), |i: int| r@[i]@) == builtin_names(),
{
    let r = vec![
        "assert", "buffer", "child_process", "cluster", "console", "constants",
        "crypto", "dgram", "dns", "domain", "events", "fs", "http", "http2",
        "https", "inspector", "module", "net", "os", "path", "perf_hooks",
        "process", "punycode", "querystring", "readline", "repl", "stream",
        "string_decoder", "timers", "tls", "trace_events", "tty", "url", "util",
        "v8", "vm", "worker_threads", "zlib",
    ];
    assert(Seq::new(r@.len(), |i: int| r@[i]@) =~= builtin_names());
    r
}

pub open spec fn is_builtin(id: Seq<char>) -> bool {
    builtin_names().contains(id)
}

/// Whether `id` names a built-in module.
pub fn is_builtin_name(id: &str) -> (r: bool)
    ensures
        r == is_builtin(id@),
{
    let names = all_builtins();
    let ghost nv = Seq::new(names@.len(), |i: int| names@[i]@);
    let mut i: usize = 0;
    while i < names.len()
        invariant
            i <= names.len(),
            nv == Seq::new(names@.len(), |i: int| names@[i]@),
            nv == builtin_names(),
            forall|k: int| 0 <= k < i ==> nv[k] != id@,
        decreases names.len() - i,
    {
        if str_eq(names[i], id) {
            assert(nv[i as int] == id@);
            return true;
        }
        i = i + 1;
    }
    false
}

/// The number of dependencies in `ds` that resolved to `key`.
pub open spec fn count_refs(ds: Seq<DependencyView>, key: Seq<char>) -> nat
    decreases ds.len(),
{
    if ds.len() == 0 {
        0
    } else {
        count_refs(ds.drop_last(), key) + if ds.last().id == Some(key) { 1nat } else { 0nat }
    }
}

/// The issuer of each edge of the first `n` entries that resolved to `key`,
/// once per edge, in tree order.
pub open spec fn issuers_in(t: Seq<EntryView>, key: Seq<char>, n: int) -> Seq<Seq<char>>
    decreases n,
{
    if n <= 0 {
        Seq::empty()
    } else {
        let e = t[n - 1];
        let here = match e.deps {
            Some(ds) => Seq::new(count_refs(ds, key), |i: int| e.id),
            None => Seq::empty(),
        };
        issuers_in(t, key, n - 1) + here
    }
}

/// The ids of the modules that depend on `key`, once per edge, sorted.
pub fn dependents(tree: &DependencyTree, key: &str) -> (r: Vec<String>)
    ensures
        sorted_texts(strings_view(r@)),
        strings_view(r@).to_multiset() == issuers_in(tree@, key@, tree@.len() as int).to_multiset(),
{
    let ghost t = tree@;
    let mut out: Vec<String> = Vec::new();
    let mut i: usize = 0;
    while i < tree.entries.len()
        invariant
            i <= tree.entries.len(),
            t == tree@,
            strings_view(out@) == issuers_in(t, key@, i as int),
        decreases tree.entries.len() - i,
    {
        let e = &tree.entries[i];
        let ghost before = strings_view(out@);
        match &e.deps {
            Some(deps) => {
                let ghost dv = t[i as int].deps->0;
                let mut j: usize = 0;
                while j < deps.len()
                    invariant
                        j <= deps.len(),
                        t == tree@,
                        i < t.len(),
                        e == tree.entries[i as int],
                        e.deps == Some(*deps),
                        dv == t[i as int].deps->0,
                        strings_view(out@) == before + Seq::new(count_refs(dv.take(j as int), key@), |k: int| e.id@),
                    decreases deps.len() - j,
                {
                    assert(dv.take(j + 1).drop_last() =~= dv.take(j as int));
                    assert(dv[j as int] == deps@[j as int]@);
                    let hit = match &deps[j].id {
                        Some(x) => str_eq(x.as_str(), key),
                        None => false,
                    };
                    assert(dv.take(j + 1).last() == dv[j as int]);
                    assert(hit == (dv[j as int].id == Some(key@)));
                    let ghost mid = strings_view(out@);
                    if hit {
                        out.push(e.id.clone());
                        assert(strings_view(out@) =~= mid.push(e.id@));
                    } else {
                        assert(strings_view(out@) =~= mid);
                    }
                    assert(strings_view(out@) =~= before + Seq::new(count_refs(dv.take(j + 1), key@), |k: int| e.id@));
                    j = j + 1;
                }
                assert(dv.take(deps.len() as int) =~= dv);
            }
            None => {
                assert(strings_view(out@) =~= before + Seq::<Seq<char>>::empty());
            }
        }
        i = i + 1;
    }
    sort_strings(out)
}


/// The sorted arrangement of `s`.
pub open spec fn sorted_of(s: Seq<Seq<char>>) -> Seq<Seq<char>> {
    choose|r: Seq<Seq<char>>| sorted_texts(r) && r.to_multiset() == s.to_multiset()
}

proof fn lemma_sorted_of(r: Seq<Seq<char>>, s: Seq<Seq<char>>)
    requires
        sorted_texts(r),
        r.to_multiset() == s.to_multiset(),
    ensures
        sorted_of(s) == r,
{
    let c = sorted_of(s);
    assert(sorted_texts(c) && c.to_multiset() == s.to_multiset());
    lemma_sorted_unique(c, r);
}

/// What `Debug` makes of a string: the text in double quotes, escaped.
pub uninterp spec fn debug_quoted(s: Seq<char>) -> Seq<char>;

/// Relies on the `Debug` formatting of `str`, which depends on the text alone.
#[verifier::external_body]
fn debug_string(s: &str) -> (r: String)
    ensures
        r@ == debug_quoted(s@),
{
    format!("{:?}", s)
}

pub open spec fn skip_message(t: Seq<EntryView>, key: Seq<char>) -> Seq<char> {
    "skip \""@ + key + "\", issuers: "@ + debug_quoted(
        joined(sorted_of(issuers_in(t, key, t.len() as int)), ", "@),
    )
}

pub open spec fn miss_message(d: DependencyView) -> Seq<char> {
    "miss \""@ + d.request + "\" in \""@ + d.issuer + "\""@
}

/// One message per dependency that resolved to nothing.
pub open spec fn miss_messages(ds: Seq<DependencyView>) -> Seq<Seq<char>>
    decreases ds.len(),
{
    if ds.len() == 0 {
        Seq::empty()
    } else {
        miss_messages(ds.drop_last()) + if ds.last().id is None {
            seq![miss_message(ds.last())]
        } else {
            Seq::empty()
        }
    }
}

/// The messages of one entry: a skipped module, or its missing mentions.
pub open spec fn entry_warnings(t: Seq<EntryView>, e: EntryView) -> Seq<Seq<char>> {
    match e.deps {
        None => seq![skip_message(t, e.id)],
        Some(ds) => miss_messages(ds),
    }
}

pub open spec fn warnings_in(t: Seq<EntryView>, n: int) -> Seq<Seq<char>>
    decreases n,
{
    if n <= 0 {
        Seq::empty()
    } else {
        warnings_in(t, n - 1) + entry_warnings(t, t[n - 1])
    }
}

/// The keys among the first `n` entries that name built-in modules.
pub open spec fn builtin_keys_in(t: Seq<EntryView>, n: int) -> Seq<Seq<char>>
    decreases n,
{
    if n <= 0 {
        Seq::empty()
    } else {
        builtin_keys_in(t, n - 1) + if is_builtin(t[n - 1].id) {
            seq![t[n - 1].id]
        } else {
            Seq::empty()
        }
    }
}

pub open spec fn quoted(s: Seq<char>) -> Seq<char> {
    "\""@ + s + "\""@
}

pub open spec fn node_message(t: Seq<EntryView>) -> Seq<char> {
    let names = sorted_of(builtin_keys_in(t, t.len() as int));
    "node "@ + joined(Seq::new(names.len(), |i: int| quoted(names[i])), ", "@)
}

/// Every message for the tree, before sorting: the entries' messages in tree
/// order, then one listing the built-in ids if there are any.
pub open spec fn raw_warnings(t: Seq<EntryView>) -> Seq<Seq<char>> {
    warnings_in(t, t.len() as int) + if builtin_keys_in(t, t.len() as int).len() > 0 {
        seq![node_message(t)]
    } else {
        Seq::empty()
    }
}

fn skip_text(tree: &DependencyTree, key: &String) -> (r: String)
    ensures
        r@ == skip_message(tree@, key@),
{
    let issuers = dependents(tree, key.as_str());
    proof {
        lemma_sorted_of(strings_view(issuers@), issuers_in(tree@, key@, tree@.len() as int));
    }
    let list = join_strings(&issuers, ", ");
    let q = debug_string(list.as_str());
    let mut m = String::new();
    push_str(&mut m, "skip \"");
    push_str(&mut m, key.as_str());
    push_str(&mut m, "\", issuers: ");
    push_str(&mut m, q.as_str());
    assert(m@ =~= skip_message(tree@, key@));
    m
}

fn miss_text(d: &crate::types::Dependency) -> (r: String)
    ensures
        r@ == miss_message(d@),
{
    let mut m = String::new();
    push_str(&mut m, "miss \"");
    push_str(&mut m, d.request.as_str());
    push_str(&mut m, "\" in \"");
    push_str(&mut m, d.issuer.as_str());
    push_str(&mut m, "\"");
    assert(m@ =~= miss_message(d@));
    m
}

fn node_text(names: &Vec<String>) -> (r: String)
    ensures
        r@ == "node "@ + joined(Seq::new(names@.len(), |i: int| quoted(names@[i]@)), ", "@),
{
    let mut q: Vec<String> = Vec::new();
    let mut i: usize = 0;
    while i < names.len()
        invariant
            i <= names.len(),
            q@.len() == i,
            forall|k: int| 0 <= k < i ==> #[trigger] q@[k]@ == quoted(names@[k]@),
        decreases names.len() - i,
    {
        let mut s = String::new();
        push_str(&mut s, "\"");
        push_str(&mut s, names[i].as_str());
        push_str(&mut s, "\"");
        q.push(s);
        i = i + 1;
    }
    assert(strings_view(q@) =~= Seq::new(names@.len(), |i: int| quoted(names@[i]@)));
    let list = join_strings(&q, ", ");
    let mut m = String::new();
    push_str(&mut m, "node ");
    push_str(&mut m, list.as_str());
    m
}

/// The warnings of a finished tree, sorted: one per key left out by the
/// filters (with the modules that depend on it), one per dependency that
/// resolved to nothing, and one listing the keys that name built-in modules.
pub fn parse_warnings(tree: &DependencyTree) -> (r: Vec<String>)
    ensures
        sorted_texts(strings_view(r@)),
        strings_view(r@).to_multiset() == raw_warnings(tree@).to_multiset(),
{
    let ghost t = tree@;
    let mut warnings: Vec<String> = Vec::new();
    let mut builtin: Vec<String> = Vec::new();
    let mut i: usize = 0;
    while i < tree.entries.len()
        invariant
            i <= tree.entries.len(),
            t == tree@,
            strings_view(warnings@) == warnings_in(t, i as int),
            strings_view(builtin@) == builtin_keys_in(t, i as int),
        decreases tree.entries.len() - i,
    {
        let e = &tree.entries[i];
        let ghost before = strings_view(warnings@);
        let ghost bbefore = strings_view(builtin@);
        assert(t[i as int] == e@);
        if is_builtin_name(e.id.as_str()) {
            builtin.push(e.id.clone());
            assert(strings_view(builtin@) =~= bbefore + seq![e.id@]);
        } else {
            assert(strings_view(builtin@) =~= bbefore + Seq::<Seq<char>>::empty());
        }
        match &e.deps {
            None => {
                let m = skip_text(tree, &e.id);
                warnings.push(m);
                assert(strings_view(warnings@) =~= before + seq![skip_message(t, e.id@)]);
            }
            Some(deps) => {
                let ghost dv = t[i as int].deps->0;
                let mut j: usize = 0;
                assert(dv.take(0) =~= Seq::<DependencyView>::empty());
                while j < deps.len()
                    invariant
                        j <= deps.len(),
                        t == tree@,
                        i < t.len(),
                        e.deps == Some(*deps),
                        dv == t[i as int].deps->0,
                        dv == crate::types::deps_view(deps@),
                        strings_view(warnings@) == before + miss_messages(dv.take(j as int)),
                    decreases deps.len() - j,
                {
                    assert(dv.take(j + 1).drop_last() =~= dv.take(j as int));
                    assert(dv.take(j + 1).last() == deps@[j as int]@);
                    let ghost mid = strings_view(warnings@);
                    if deps[j].id.is_none() {
                        let m = miss_text(&deps[j]);
                        warnings.push(m);
                        assert(strings_view(warnings@) =~= mid + seq![miss_message(deps@[j as int]@)]);
                    } else {
                        assert(strings_view(warnings@) =~= mid + Seq::<Seq<char>>::empty());
                    }
                    j = j + 1;
                }
                assert(dv.take(deps.len() as int) =~= dv);
            }
        }
        i = i + 1;
    }
    if builtin.len() > 0 {
        let names = sort_strings(builtin);
        proof {
            lemma_sorted_of(strings_view(names@), builtin_keys_in(t, t.len() as int));
        }
        let m = node_text(&names);
        proof {
            let ns = sorted_of(builtin_keys_in(t, t.len() as int));
            assert(Seq::new(ns.len(), |i: int| quoted(ns[i])) =~= Seq::new(names@.len(), |i: int| quoted(names@[i]@)));
        }
        let ghost before = strings_view(warnings@);
        warnings.push(m);
        assert(strings_view(warnings@) =~= before + seq![node_message(t)]);
    } else {
        assert(strings_view(warnings@) =~= warnings_in(t, t.len() as int) + Seq::<Seq<char>>::empty());
    }
    sort_strings(warnings)
}

/// Analysing the same tree twice gives the same list of warnings: the sorted
/// arrangement of a list of messages is unique.
pub proof fn lemma_warnings_deterministic(t: Seq<EntryView>, a: Seq<Seq<char>>, b: Seq<Seq<char>>)
    requires
        sorted_texts(a),
        a.to_multiset() == raw_warnings(t).to_multiset(),
        sorted_texts(b),
        b.to_multiset() == raw_warnings(t).to_multiset(),
    ensures
        a == b,
{
    lemma_sorted_unique(a, b);
}


/// The first `n` files that are not ids of the tree, in order.
pub open spec fn unused_in(files: Seq<Seq<char>>, t: Seq<EntryView>, n: int) -> Seq<Seq<char>>
    decreases n,
{
    if n <= 0 {
        Seq::empty()
    } else {
        unused_in(files, t, n - 1) + if has_key(t, files[n - 1]) {
            Seq::empty()
        } else {
            seq![files[n - 1]]
        }
    }
}

/// The files, given relative to the same context as the tree's ids, that no
/// module of the tree is, in their order.
pub fn unused_files(files: &Vec<String>, tree: &DependencyTree) -> (r: Vec<String>)
    requires
        tree.wf(),
    ensures
        strings_view(r@) == unused_in(strings_view(files@), tree@, files@.len() as int),
{
    let ghost fv = strings_view(files@);
    let mut out: Vec<String> = Vec::new();
    let mut i: usize = 0;
    while i < files.len()
        invariant
            i <= files.len(),
            tree.wf(),
            fv == strings_view(files@),
            strings_view(out@) == unused_in(fv, tree@, i as int),
        decreases files.len() - i,
    {
        let ghost before = strings_view(out@);
        assert(fv[i as int] == files@[i as int]@);
        if !tree.contains_key(files[i].as_str()) {
            out.push(files[i].clone());
            assert(strings_view(out@) =~= before + seq![fv[i as int]]);
        } else {
            assert(strings_view(out@) =~= before + Seq::<Seq<char>>::empty());
        }
        i = i + 1;
    }
    out
}

} // verus!
