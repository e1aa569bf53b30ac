//! The dependency tree builder's decisions: what happens to a resolved module
//! id (already known, left out by the filters, a leaf asset, or a source file
//! to parse), and how a parsed file's edges are recorded. Each id is entered
//! once; the placeholder entry written before parsing is what keeps a second
//! branch reaching the same id from parsing it again.
use vstd::prelude::*;
use crate::shorten::trim_trailing_slashes;
use crate::text::{chars_of, str_eq, string_of, strings_view};
use crate::types::{
    deps_view, has_key, tree_insert, Dependency, DependencyTree, DependencyView,
    EntryView, IsModule,
};

verus! {

/// The regex crate's compiled expression, carried as it is.
#[verifier::external_type_specification]
#[verifier::external_body]
pub struct ExRegex(regex::Regex);

/// Relies on regex::Regex::is_match: whether the expression matches
/// somewhere in the text.
#[verifier::external_body]
fn regex_matches(re: &regex::Regex, text: &str) -> (r: bool) {
    re.is_match(text)
}

/// The options of one analysis.
#[derive(Debug)]
pub struct ParseOptions {
    /// The directory ids are made relative to.
    pub context: String,
    /// The suffixes tried when probing a path, in order; `""` is the path as
    /// it is.
    pub extensions: Vec<String>,
    /// The extensions of the files that are parsed for mentions.
    pub js: Vec<String>,
    /// Only ids matching this are analysed.
    pub include_pattern: regex::Regex,
    /// Ids matching this are left out.
    pub exclude: regex::Regex,
    /// The file the path aliases come from.
    pub tsconfig: Option<String>,
    /// Whether TypeScript is stripped before mentions are collected.
    pub transform: bool,
    /// Whether dynamic imports are left out of cycle detection.
    pub skip_dynamic_imports: bool,
    /// The grammar sources are parsed with.
    pub is_module: IsModule,
}

/// The extensions with the empty one (the path as it is) first when it was
/// missing.
pub fn with_exact_match(extensions: Vec<String>) -> (r: Vec<String>)
    ensures
        strings_view(extensions@).contains(Seq::empty()) ==> strings_view(r@) == strings_view(extensions@),
        !strings_view(extensions@).contains(Seq::empty()) ==> strings_view(r@) == seq![Seq::<char>::empty()] + strings_view(extensions@),
{
    let mut i: usize = 0;
    while i < extensions.len()
        invariant
            i <= extensions.len(),
            forall|k: int| 0 <= k < i ==> extensions@[k]@.len() != 0,
        decreases extensions.len() - i,
    {
        if extensions[i].as_str().is_empty() {
            assert(strings_view(extensions@)[i as int] == Seq::<char>::empty());
            return extensions;
        }
        i = i + 1;
    }
    assert(!strings_view(extensions@).contains(Seq::empty())) by {
        if strings_view(extensions@).contains(Seq::empty()) {
            let k = choose|k: int| 0 <= k < extensions@.len() && strings_view(extensions@)[k] == Seq::<char>::empty();
            assert(extensions@[k]@.len() == 0);
        }
    }
    let mut r = extensions;
    r.insert(0, String::new());
    assert(strings_view(r@) =~= seq![Seq::<char>::empty()] + strings_view(extensions@));
    r
}

/// The extensions probed before any given ones.
pub open spec fn default_extension_list() -> Seq<Seq<char>> {
    seq![Seq::empty(), ".ts"@, ".tsx"@, ".mjs"@, ".js"@, ".jsx"@, ".json"@]
}

fn string_from(s: &str) -> (r: String)
    ensures
        r@ == s@,
{
    let mut r = String::new();
    crate::text::push_str(&mut r, s);
    assert(r@ =~= s@);
    r
}

/// The extensions to probe: the defaults, the empty one first among them,
/// then the given ones.
pub fn merged_extensions(given: &Vec<String>) -> (r: Vec<String>)
    ensures
        strings_view(r@) == default_extension_list() + strings_view(given@),
{
    let mut r: Vec<String> = Vec::new();
    r.push(String::new());
    r.push(string_from(".ts"));
    r.push(string_from(".tsx"));
    r.push(string_from(".mjs"));
    r.push(string_from(".js"));
    r.push(string_from(".jsx"));
    r.push(string_from(".json"));
    assert(strings_view(r@) =~= default_extension_list());
    let mut i: usize = 0;
    while i < given.len()
        invariant
            i <= given.len(),
            strings_view(r@) == default_extension_list() + strings_view(given@).take(i as int),
        decreases given.len() - i,
    {
        let ghost before = strings_view(r@);
        r.push(given[i].clone());
        assert(strings_view(r@) =~= before.push(given@[i as int]@));
        assert(strings_view(given@).take(i + 1) =~= strings_view(given@).take(i as int).push(given@[i as int]@));
        assert(strings_view(r@) =~= default_extension_list() + strings_view(given@).take(i + 1));
        i = i + 1;
    }
    assert(strings_view(given@).take(given.len() as int) =~= strings_view(given@));
    r
}

/// The part of `s` after its last `c`.
pub open spec fn after_last(s: Seq<char>, c: char) -> Seq<char>
    decreases s.len(),
{
    if s.len() == 0 {
        s
    } else if s.last() == c {
        Seq::empty()
    } else {
        after_last(s.drop_last(), c).push(s.last())
    }
}

/// The last name of a path.
pub open spec fn file_name(id: Seq<char>) -> Seq<char> {
    after_last(trim_trailing_slashes(id), '/')
}

/// The extension of a file name: what follows its last dot, when that dot
/// is not its first character; `..` has none.
pub open spec fn extension_of(name: Seq<char>) -> Option<Seq<char>> {
    let e = after_last(name, '.');
    if name == seq!['.', '.'] || e.len() == name.len() || e.len() + 1 == name.len() {
        None
    } else {
        Some(e)
    }
}

/// The extension of `id` as the options write it: with its dot, or empty
/// for a name that ends with a dot.
pub open spec fn extension_key(id: Seq<char>) -> Option<Seq<char>> {
    match extension_of(file_name(id)) {
        Some(e) => if e.len() == 0 {
            Some(Seq::empty())
        } else {
            Some(seq!['.'] + e)
        },
        None => None,
    }
}

/// `id` is a source file whose mentions are collected.
pub open spec fn is_js_like(id: Seq<char>, js: Seq<Seq<char>>) -> bool {
    match extension_key(id) {
        Some(k) => js.contains(k),
        None => false,
    }
}

proof fn lemma_after_last_len(s: Seq<char>, c: char)
    ensures
        after_last(s, c).len() <= s.len(),
        after_last(s, c) == s.skip(s.len() - after_last(s, c).len()),
    decreases s.len(),
{
    if s.len() > 0 {
        lemma_after_last_len(s.drop_last(), c);
        if s.last() != c {
            let a = after_last(s.drop_last(), c);
            assert(s.skip(s.len() - a.len() - 1) =~= s.drop_last().skip(s.len() - 1 - a.len()).push(s.last()));
        } else {
            assert(s.skip(s.len() as int) =~= Seq::<char>::empty());
        }
    } else {
        assert(s.skip(0) =~= s);
    }
}

/// The position just after the last `c` in `s`, or 0.
fn after_last_index(s: &Vec<char>, c: char) -> (r: usize)
    ensures
        r <= s.len(),
        s@.skip(r as int) == after_last(s@, c),
{
    let mut i: usize = s.len();
    assert(s@.take(s.len() as int) =~= s@);
    while i > 0 && s[i - 1] != c
        invariant
            i <= s.len(),
            after_last(s@, c) == after_last(s@.take(i as int), c) + s@.skip(i as int),
        decreases i,
    {
        let ghost t = s@.take(i as int);
        assert(t.drop_last() =~= s@.take(i - 1));
        assert(s@.skip(i - 1) =~= seq![s@[i - 1]] + s@.skip(i as int));
        assert(after_last(t, c) == after_last(s@.take(i - 1), c).push(s@[i - 1]));
        assert(after_last(s@.take(i - 1), c).push(s@[i - 1]) + s@.skip(i as int) =~= after_last(s@.take(i - 1), c) + s@.skip(i - 1));
        i = i - 1;
    }
    if i == 0 {
        assert(s@.take(0) =~= Seq::<char>::empty());
        assert(after_last(s@, c) =~= s@.skip(0));
    } else {
        assert(after_last(s@.take(i as int), c) =~= Seq::<char>::empty());
        assert(after_last(s@, c) =~= s@.skip(i as int));
    }
    i
}

fn subrange_chars(s: &Vec<char>, from: usize, to: usize) -> (r: Vec<char>)
    requires
        from <= to <= s.len(),
    ensures
        r@ == s@.subrange(from as int, to as int),
{
    let mut r: Vec<char> = Vec::new();
    let mut k: usize = from;
    while k < to
        invariant
            from <= k <= to <= s.len(),
            r@ == s@.subrange(from as int, k as int),
        decreases to - k,
    {
        r.push(s[k]);
        assert(s@.subrange(from as int, k + 1) =~= s@.subrange(from as int, k as int).push(s@[k as int]));
        k = k + 1;
    }
    r
}

/// The extension of `id` with its dot, as `extension_key` says.
pub fn extension_key_of(id: &str) -> (r: Option<String>)
    ensures
        crate::types::opt_view(r) == extension_key(id@),
{
    let cs = chars_of(id);
    let mut n: usize = cs.len();
    assert(cs@.take(n as int) =~= cs@);
    while n > 0 && cs[n - 1] == '/'
        invariant
            n <= cs.len(),
            trim_trailing_slashes(cs@) == trim_trailing_slashes(cs@.take(n as int)),
        decreases n,
    {
        assert(cs@.take(n as int).drop_last() =~= cs@.take(n - 1));
        n = n - 1;
    }
    let trimmed = subrange_chars(&cs, 0, n);
    assert(trimmed@ =~= cs@.take(n as int));
    let start = after_last_index(&trimmed, '/');
    let name = subrange_chars(&trimmed, start, trimmed.len());
    assert(name@ =~= trimmed@.skip(start as int));
    let dot = after_last_index(&name, '.');
    proof {
        lemma_after_last_len(name@, '.');
    }
    let ext = subrange_chars(&name, dot, name.len());
    assert(ext@ =~= name@.skip(dot as int));
    let two_dots = name.len() == 2 && name[0] == '.' && name[1] == '.';
    if two_dots {
        assert(name@ =~= seq!['.', '.']);
    }
    if two_dots || dot == 0 || dot == 1 {
        assert(extension_of(name@) is None);
        return None;
    }
    assert(name@ != seq!['.', '.']);
    if ext.len() == 0 {
        Some(String::new())
    } else {
        let mut key: Vec<char> = Vec::new();
        key.push('.');
        let mut k: usize = 0;
        while k < ext.len()
            invariant
                k <= ext.len(),
                key@ == seq!['.'] + ext@.take(k as int),
            decreases ext.len() - k,
        {
            key.push(ext[k]);
            assert(ext@.take(k + 1) =~= ext@.take(k as int).push(ext@[k as int]));
            k = k + 1;
        }
        assert(ext@.take(ext.len() as int) =~= ext@);
        Some(string_of(&key))
    }
}

/// Whether `id` is a source file to parse.
pub fn is_js_like_id(id: &str, js: &Vec<String>) -> (r: bool)
    ensures
        r == is_js_like(id@, strings_view(js@)),
{
    match extension_key_of(id) {
        None => false,
        Some(k) => {
            assert(extension_key(id@) == Some(k@));
            let mut i: usize = 0;
            while i < js.len()
                invariant
                    i <= js.len(),
                    extension_key(id@) == Some(k@),
                    forall|q: int| 0 <= q < i ==> js@[q]@ != k@,
                decreases js.len() - i,
            {
                if str_eq(js[i].as_str(), k.as_str()) {
                    assert(strings_view(js@)[i as int] == k@);
                    assert(strings_view(js@).contains(k@));
                    return true;
                }
                i = i + 1;
            }
            assert(!strings_view(js@).contains(k@)) by {
                if strings_view(js@).contains(k@) {
                    let q = choose|q: int| 0 <= q < js@.len() && strings_view(js@)[q] == k@;
                    assert(js@[q]@ == k@);
                }
            }
            false
        }
    }
}


/// What becomes of a resolved id.
#[derive(Clone, Copy, Debug, PartialEq, Eq, Structural)]
pub enum Visit {
    /// Already a key of the tree: nothing more is done.
    Known,
    /// Left out by the filters: recorded with no edges and not parsed.
    Skipped,
    /// Not a source file: recorded with an empty edge list.
    Leaf,
    /// A source file: recorded with an empty placeholder, to be parsed.
    Parse,
}

/// The decision for `id`, given whether it matched the filter that admits
/// ids and the one that leaves them out.
pub open spec fn decide(t: Seq<EntryView>, id: Seq<char>, admitted: bool, excluded: bool, js: Seq<Seq<char>>) -> Visit {
    if has_key(t, id) {
        Visit::Known
    } else if !admitted || excluded {
        Visit::Skipped
    } else if !is_js_like(id, js) {
        Visit::Leaf
    } else {
        Visit::Parse
    }
}

/// The tree once the decision `v` for `id` is recorded.
pub open spec fn record(t: Seq<EntryView>, id: Seq<char>, v: Visit) -> Seq<EntryView> {
    match v {
        Visit::Known => t,
        Visit::Skipped => tree_insert(t, id, None),
        _ => tree_insert(t, id, Some(Seq::empty())),
    }
}

/// The tree being built.
pub struct GraphBuilder {
    pub tree: DependencyTree,
}

impl GraphBuilder {
    /// A builder with an empty tree.
    pub fn new() -> (r: GraphBuilder)
        ensures
            r.tree.wf(),
            r.tree@ == Seq::<EntryView>::empty(),
    {
        GraphBuilder { tree: DependencyTree::new() }
    }

    /// Decides what becomes of `id` and records it in the tree, in one step.
    pub fn visit(&mut self, id: &String, admitted: bool, excluded: bool, js: &Vec<String>) -> (r: Visit)
        requires
            old(self).tree.wf(),
        ensures
            final(self).tree.wf(),
            r == decide(old(self).tree@, id@, admitted, excluded, strings_view(js@)),
            final(self).tree@ == record(old(self).tree@, id@, r),
    {
        if self.tree.contains_key(id.as_str()) {
            return Visit::Known;
        }
        if !admitted || excluded {
            self.tree.insert(id.clone(), None);
            return Visit::Skipped;
        }
        let js_like = is_js_like_id(id.as_str(), js);
        let empty: Vec<Dependency> = Vec::new();
        assert(deps_view(empty@) =~= Seq::<DependencyView>::empty());
        self.tree.insert(id.clone(), Some(empty));
        if js_like {
            Visit::Parse
        } else {
            Visit::Leaf
        }
    }

    /// Decides what becomes of `id` with the filters of `options` and records
    /// it. The filters are regular expressions; whatever they answer, an id
    /// already in the tree is `Known` and leaves it unchanged, and any other is
    /// recorded once.
    pub fn enter(&mut self, id: &String, options: &ParseOptions) -> (r: Visit)
        requires
            old(self).tree.wf(),
        ensures
            final(self).tree.wf(),
            exists|admitted: bool, excluded: bool| {
                &&& r == decide(old(self).tree@, id@, admitted, excluded, strings_view(options.js@))
                &&& final(self).tree@ == record(old(self).tree@, id@, r)
            },
    {
        let admitted = regex_matches(&options.include_pattern, id.as_str());
        let excluded = regex_matches(&options.exclude, id.as_str());
        self.visit(id, admitted, excluded, &options.js)
    }

    /// Replaces the placeholder of a parsed file with its edges.
    pub fn finish(&mut self, id: String, deps: Vec<Dependency>)
        requires
            old(self).tree.wf(),
        ensures
            final(self).tree.wf(),
            final(self).tree@ == tree_insert(old(self).tree@, id@, Some(deps_view(deps@))),
    {
        self.tree.insert(id, Some(deps));
    }
}

proof fn lemma_insert_has_key(t: Seq<EntryView>, id: Seq<char>, d: Option<Seq<crate::types::DependencyView>>)
    ensures
        has_key(tree_insert(t, id, d), id),
{
    let u = tree_insert(t, id, d);
    if has_key(t, id) {
        let i = choose|i: int| 0 <= i < t.len() && (#[trigger] t[i]).id == id;
        assert(u[i].id == id);
    } else {
        assert(u[t.len() as int].id == id);
    }
}

/// An id is parsed at most once: once any decision for it is recorded, every
/// later decision for it is `Known`, whatever the filters answer then, and a
/// finished file's entry keeps it known.
pub proof fn lemma_parse_at_most_once(
    t: Seq<EntryView>,
    id: Seq<char>,
    admitted: bool,
    excluded: bool,
    js: Seq<Seq<char>>,
    admitted_again: bool,
    excluded_again: bool,
    deps: Seq<crate::types::DependencyView>,
)
    ensures
        decide(record(t, id, decide(t, id, admitted, excluded, js)), id, admitted_again, excluded_again, js) == Visit::Known,
        decide(tree_insert(record(t, id, decide(t, id, admitted, excluded, js)), id, Some(deps)), id, admitted_again, excluded_again, js) == Visit::Known,
{
    let v = decide(t, id, admitted, excluded, js);
    let u = record(t, id, v);
    if v == Visit::Skipped {
        lemma_insert_has_key(t, id, None);
    } else if v != Visit::Known {
        lemma_insert_has_key(t, id, Some(Seq::empty()));
    }
    lemma_insert_has_key(u, id, Some(deps));
}

/// A parsed file's dependencies with the ids their requests resolved to.
pub fn attach_ids(deps: &mut Vec<Dependency>, ids: Vec<Option<String>>)
    requires
        old(deps)@.len() == ids@.len(),
    ensures
        final(deps)@.len() == old(deps)@.len(),
        forall|i: int| 0 <= i < final(deps)@.len() ==> (#[trigger] final(deps)@[i])@ == (DependencyView {
            id: crate::types::opt_view(ids@[i]),
            ..old(deps)@[i]@
        }),
{
    let ghost before = deps@;
    let mut i: usize = 0;
    while i < ids.len()
        invariant
            i <= ids.len(),
            deps@.len() == before.len(),
            before.len() == ids@.len(),
            forall|k: int| 0 <= k < i ==> (#[trigger] deps@[k])@ == (DependencyView { id: crate::types::opt_view(ids@[k]), ..before[k]@ }),
            forall|k: int| i <= k < deps@.len() ==> #[trigger] deps@[k] == before[k],
        decreases ids.len() - i,
    {
        let d = deps[i].duplicate();
        let id = crate::types::clone_opt_string(&ids[i]);
        deps.set(i, Dependency { issuer: d.issuer, request: d.request, kind: d.kind, id });
        i = i + 1;
    }
}

} // verus!
