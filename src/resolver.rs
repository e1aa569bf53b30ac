//! Module resolution: a request seen from a context directory becomes a file,
//! following aliases, paths, package entry points and extension probing. The
//! decisions are made over the filesystem facts known so far; when one is
//! missing the answer names it, and the caller learns it and asks again.
use vstd::prelude::*;
use crate::alias::{alias_compiles, alias_target, alias_wf, Alias, AliasCache};
use crate::path::{is_absolute, joined_path, join_paths, str_views};
use crate::text::{chars_of, push_str, str_eq};

verus! {

/// What a path names on disk.
#[derive(Clone, Copy, Debug, PartialEq, Eq, Structural)]
pub enum FileKind {
    File,
    Dir,
    Missing,
}

/// What the package lookup of a bare request found: no `package.json`, one
/// that could not be read, or one in `dir` whose `main` (else `module`) field
/// is `entry`.
#[derive(Clone, Debug)]
pub enum PackageLookup {
    NotFound,
    Unreadable,
    Found { dir: String, entry: Option<String> },
}

/// The facts learnt about the filesystem; a later fact about the same
/// question overrides an earlier one.
#[derive(Clone, Debug)]
pub struct FsFacts {
    pub stats: Vec<(String, FileKind)>,
    pub packages: Vec<(String, String, PackageLookup)>,
    pub modules: Vec<(String, String, Option<String>)>,
}

/// The answer of a resolution step.
#[derive(Clone, Debug)]
pub enum Outcome {
    /// The module the request resolves to, or `None` when nothing matched.
    Resolved(Option<String>),
    /// What `path` names on disk is needed.
    NeedStat(String),
    /// The package lookup of `request` from `context` is needed.
    NeedPackage(String, String),
    /// The standard package resolution of `request` from `context` is needed.
    NeedModule(String, String),
    /// A package's metadata could not be read.
    Failed,
    /// An alias pattern could not be compiled.
    AliasFailed,
}

pub ghost enum Answer {
    Resolved(Option<Seq<char>>),
    NeedStat(Seq<char>),
    NeedPackage(Seq<char>, Seq<char>),
    NeedModule(Seq<char>, Seq<char>),
    Failed,
    AliasFailed,
}

impl View for Outcome {
    type V = Answer;

    open spec fn view(&self) -> Answer {
        match self {
            Outcome::Resolved(o) => Answer::Resolved(crate::types::opt_view(*o)),
            Outcome::NeedStat(p) => Answer::NeedStat(p@),
            Outcome::NeedPackage(r, c) => Answer::NeedPackage(r@, c@),
            Outcome::NeedModule(r, c) => Answer::NeedModule(r@, c@),
            Outcome::Failed => Answer::Failed,
            Outcome::AliasFailed => Answer::AliasFailed,
        }
    }
}

/// The latest fact about `p`, if any.
pub open spec fn stat_in(s: Seq<(String, FileKind)>, p: Seq<char>) -> Option<FileKind>
    decreases s.len(),
{
    if s.len() == 0 {
        None
    } else if s.last().0@ == p {
        Some(s.last().1)
    } else {
        stat_in(s.drop_last(), p)
    }
}

fn lookup_stat(facts: &FsFacts, p: &str) -> (r: Option<FileKind>)
    ensures
        r == stat_in(facts.stats@, p@),
{
    let mut i: usize = facts.stats.len();
    assert(facts.stats@.take(i as int) =~= facts.stats@);
    while i > 0
        invariant
            i <= facts.stats.len(),
            stat_in(facts.stats@, p@) == stat_in(facts.stats@.take(i as int), p@),
        decreases i,
    {
        assert(facts.stats@.take(i as int).drop_last() =~= facts.stats@.take(i - 1));
        if str_eq(facts.stats[i - 1].0.as_str(), p) {
            return Some(facts.stats[i - 1].1);
        }
        i = i - 1;
    }
    None
}


/// The latest package lookup of `request` from `context`, if any.
pub open spec fn package_in(s: Seq<(String, String, PackageLookup)>, request: Seq<char>, context: Seq<char>) -> Option<PackageLookup>
    decreases s.len(),
{
    if s.len() == 0 {
        None
    } else if s.last().0@ == request && s.last().1@ == context {
        Some(s.last().2)
    } else {
        package_in(s.drop_last(), request, context)
    }
}

/// The latest standard resolution of `request` from `context`, if any.
pub open spec fn module_in(s: Seq<(String, String, Option<String>)>, request: Seq<char>, context: Seq<char>) -> Option<Option<String>>
    decreases s.len(),
{
    if s.len() == 0 {
        None
    } else if s.last().0@ == request && s.last().1@ == context {
        Some(s.last().2)
    } else {
        module_in(s.drop_last(), request, context)
    }
}

fn lookup_package<'a>(facts: &'a FsFacts, request: &str, context: &str) -> (r: Option<&'a PackageLookup>)
    ensures
        match r {
            Some(x) => package_in(facts.packages@, request@, context@) == Some(*x),
            None => package_in(facts.packages@, request@, context@) is None,
        },
{
    let mut i: usize = facts.packages.len();
    assert(facts.packages@.take(i as int) =~= facts.packages@);
    while i > 0
        invariant
            i <= facts.packages.len(),
            package_in(facts.packages@, request@, context@) == package_in(facts.packages@.take(i as int), request@, context@),
        decreases i,
    {
        assert(facts.packages@.take(i as int).drop_last() =~= facts.packages@.take(i - 1));
        let e = &facts.packages[i - 1];
        if str_eq(e.0.as_str(), request) && str_eq(e.1.as_str(), context) {
            return Some(&e.2);
        }
        i = i - 1;
    }
    None
}

fn lookup_module<'a>(facts: &'a FsFacts, request: &str, context: &str) -> (r: Option<&'a Option<String>>)
    ensures
        match r {
            Some(x) => module_in(facts.modules@, request@, context@) == Some(*x),
            None => module_in(facts.modules@, request@, context@) is None,
        },
{
    let mut i: usize = facts.modules.len();
    assert(facts.modules@.take(i as int) =~= facts.modules@);
    while i > 0
        invariant
            i <= facts.modules.len(),
            module_in(facts.modules@, request@, context@) == module_in(facts.modules@.take(i as int), request@, context@),
        decreases i,
    {
        assert(facts.modules@.take(i as int).drop_last() =~= facts.modules@.take(i - 1));
        let e = &facts.modules[i - 1];
        if str_eq(e.0.as_str(), request) && str_eq(e.1.as_str(), context) {
            return Some(&e.2);
        }
        i = i - 1;
    }
    None
}

pub open spec fn index_suffix() -> Seq<char> {
    seq!['/', 'i', 'n', 'd', 'e', 'x']
}

/// Probing `path`: each extension in order, the first that names a file
/// wins; then, if `path` is a directory, the same for `path/index`, at most
/// `fuel` directories deep.
pub open spec fn probe_result(path: Seq<char>, exts: Seq<Seq<char>>, facts: FsFacts, fuel: nat, i: int) -> Answer
    decreases fuel, exts.len() - i,
{
    if 0 <= i < exts.len() {
        let p = path + exts[i];
        match stat_in(facts.stats@, p) {
            None => Answer::NeedStat(p),
            Some(FileKind::File) => Answer::Resolved(Some(p)),
            Some(_) => probe_result(path, exts, facts, fuel, i + 1),
        }
    } else {
        match stat_in(facts.stats@, path) {
            None => Answer::NeedStat(path),
            Some(FileKind::Dir) => if fuel == 0 {
                Answer::Resolved(None)
            } else {
                probe_result(path + index_suffix(), exts, facts, (fuel - 1) as nat, 0)
            },
            Some(_) => Answer::Resolved(None),
        }
    }
}

fn copy_str(a: &str) -> (r: String)
    ensures
        r@ == a@,
{
    let mut r = String::new();
    push_str(&mut r, a);
    assert(r@ =~= a@);
    r
}

fn concat(a: &str, b: &str) -> (r: String)
    ensures
        r@ == a@ + b@,
{
    let mut r = String::new();
    push_str(&mut r, a);
    push_str(&mut r, b);
    assert(r@ =~= a@ + b@);
    r
}

/// Probes `path` with the extensions in order, then as a directory through
/// its `index`.
pub fn append_suffix(request: &str, extensions: &Vec<String>, facts: &FsFacts, fuel: usize) -> (r: Outcome)
    ensures
        r@ == probe_result(request@, crate::text::strings_view(extensions@), *facts, fuel as nat, 0),
{
    let ghost exts = crate::text::strings_view(extensions@);
    let mut cur = concat(request, "");
    proof {
        reveal_strlit("");
    }
    assert(cur@ =~= request@);
    let mut f: usize = fuel;
    loop
        invariant
            exts == crate::text::strings_view(extensions@),
            probe_result(request@, exts, *facts, fuel as nat, 0) == probe_result(cur@, exts, *facts, f as nat, 0),
        decreases f,
    {
        let mut i: usize = 0;
        while i < extensions.len()
            invariant
                i <= extensions.len(),
                exts == crate::text::strings_view(extensions@),
                probe_result(request@, exts, *facts, fuel as nat, 0) == probe_result(cur@, exts, *facts, f as nat, i as int),
            decreases extensions.len() - i,
        {
            let p = concat(cur.as_str(), extensions[i].as_str());
            match lookup_stat(facts, p.as_str()) {
                None => {
                    return Outcome::NeedStat(p);
                }
                Some(FileKind::File) => {
                    return Outcome::Resolved(Some(p));
                }
                Some(_) => {}
            }
            i = i + 1;
        }
        match lookup_stat(facts, cur.as_str()) {
            None => {
                return Outcome::NeedStat(cur);
            }
            Some(FileKind::Dir) => {
                if f == 0 {
                    return Outcome::Resolved(None);
                }
                proof {
                    reveal_strlit("/index");
                }
                assert("/index"@ =~= index_suffix());
                cur = concat(cur.as_str(), "/index");
                f = f - 1;
            }
            Some(_) => {
                return Outcome::Resolved(None);
            }
        }
    }
}


/// The standard package resolution of `request` from `context`.
pub open spec fn standard_resolution(request: Seq<char>, context: Seq<char>, facts: FsFacts) -> Answer {
    match module_in(facts.modules@, request, context) {
        None => Answer::NeedModule(request, context),
        Some(o) => Answer::Resolved(crate::types::opt_view(o)),
    }
}

/// The strategies after the aliases: an absolute request is probed as it
/// is, one starting with `.` below the context; any other is a package: its
/// `package.json` entry point is probed when there is one, and when that
/// finds nothing the standard package resolution answers.
pub open spec fn after_aliases(context: Seq<char>, request: Seq<char>, exts: Seq<Seq<char>>, facts: FsFacts, fuel: nat) -> Answer {
    if is_absolute(request) {
        probe_result(request, exts, facts, fuel, 0)
    } else if request.len() > 0 && request[0] == '.' {
        probe_result(joined_path(seq![context, request]), exts, facts, fuel, 0)
    } else {
        match package_in(facts.packages@, request, context) {
            None => Answer::NeedPackage(request, context),
            Some(PackageLookup::Unreadable) => Answer::Failed,
            Some(PackageLookup::Found { dir, entry: Some(m) }) => {
                let probed = probe_result(joined_path(seq![dir@, m@]), exts, facts, fuel, 0);
                if probed == Answer::Resolved(None) {
                    standard_resolution(request, context, facts)
                } else {
                    probed
                }
            },
            Some(_) => standard_resolution(request, context, facts),
        }
    }
}

/// Resolution of `request` from the directory `context`: the alias rewrites
/// first, in table order, the first that resolves winning; then the other
/// strategies. `fuel` bounds how deep aliases and directory indexes nest.
pub open spec fn resolution(context: Seq<char>, request: Seq<char>, exts: Seq<Seq<char>>, alias: Option<Alias>, facts: FsFacts, fuel: nat) -> Answer
    decreases fuel, 2int, 0int, 0int,
{
    match alias {
        Some(a) => match try_aliases(context, request, exts, a, facts, fuel, 0, 0) {
            Some(ans) => ans,
            None => after_aliases(context, request, exts, facts, fuel),
        },
        None => after_aliases(context, request, exts, facts, fuel),
    }
}

/// The alias rewrites from template `ti` of pattern `pi` on: the answer of
/// the first rewrite that does not resolve to nothing, if any; a pattern the
/// regular expression engine refuses ends the resolution there.
pub open spec fn try_aliases(context: Seq<char>, request: Seq<char>, exts: Seq<Seq<char>>, a: Alias, facts: FsFacts, fuel: nat, pi: int, ti: int) -> Option<Answer>
    decreases fuel, 1int, a.paths@.len() - pi, if 0 <= pi < a.paths@.len() { a.paths@[pi].1@.len() - ti } else { 0 },
{
    if pi < 0 || pi >= a.paths@.len() {
        None
    } else if ti < 0 || ti >= a.paths@[pi].1@.len() {
        try_aliases(context, request, exts, a, facts, fuel, pi + 1, 0)
    } else {
        let next = try_aliases(context, request, exts, a, facts, fuel, pi, ti + 1);
        if !alias_compiles(a.paths@[pi].0@) {
            Some(Answer::AliasFailed)
        } else {
        match alias_target(request, a.root@, a.paths@[pi].0@, a.paths@[pi].1@[ti]@) {
            None => next,
            Some(rewritten) => if fuel == 0 {
                next
            } else {
                let r = resolution(context, rewritten, exts, Some(a), facts, (fuel - 1) as nat);
                if r == Answer::Resolved(None) {
                    next
                } else {
                    Some(r)
                }
            },
        }
        }
    }
}

pub open spec fn alias_of(alias: Option<&Alias>) -> Option<Alias> {
    match alias {
        Some(a) => Some(*a),
        None => None,
    }
}

fn resolve_after_aliases(context: &str, request: &str, extensions: &Vec<String>, facts: &FsFacts, fuel: usize) -> (r: Outcome)
    ensures
        r@ == after_aliases(context@, request@, crate::text::strings_view(extensions@), *facts, fuel as nat),
{
    let cs = chars_of(request);
    if cs.len() > 0 && cs[0] == '/' {
        return append_suffix(request, extensions, facts, fuel);
    }
    if cs.len() > 0 && cs[0] == '.' {
        let parts: [&str; 2] = [context, request];
        let joined = join_paths(&parts);
        assert(str_views(parts@) =~= seq![context@, request@]);
        return append_suffix(joined.as_str(), extensions, facts, fuel);
    }
    match lookup_package(facts, request, context) {
        None => Outcome::NeedPackage(copy_str(request), copy_str(context)),
        Some(PackageLookup::Unreadable) => Outcome::Failed,
        Some(PackageLookup::Found { dir, entry: Some(m) }) => {
            let parts: [&str; 2] = [dir.as_str(), m.as_str()];
            let joined = join_paths(&parts);
            assert(str_views(parts@) =~= seq![dir@, m@]);
            let probed = append_suffix(joined.as_str(), extensions, facts, fuel);
            match probed {
                Outcome::Resolved(None) => resolve_standard(request, context, facts),
                _ => probed,
            }
        }
        Some(_) => resolve_standard(request, context, facts),
    }
}

fn resolve_standard(request: &str, context: &str, facts: &FsFacts) -> (r: Outcome)
    ensures
        r@ == standard_resolution(request@, context@, *facts),
{
    match lookup_module(facts, request, context) {
        None => Outcome::NeedModule(copy_str(request), copy_str(context)),
        Some(o) => Outcome::Resolved(crate::types::clone_opt_string(o)),
    }
}

/// One resolution attempt of `request` from `context` over the facts known
/// so far: the module it resolves to, or the fact needed next.
pub fn simple_resolver(
    context: &str,
    request: &str,
    extensions: &Vec<String>,
    alias: Option<&Alias>,
    facts: &FsFacts,
    fuel: usize,
    cache: &mut AliasCache,
) -> (r: Outcome)
    requires
        alias matches Some(a) ==> alias_wf(*a),
        old(cache).wf(),
    ensures
        final(cache).wf(),
        r@ == resolution(context@, request@, crate::text::strings_view(extensions@), alias_of(alias), *facts, fuel as nat),
    decreases fuel,
{
    let ghost exts = crate::text::strings_view(extensions@);
    proof {
        reveal_strlit("");
    }
    match alias {
        Some(a) => {
            let mut pi: usize = 0;
            while pi < a.paths.len()
                invariant
                    pi <= a.paths.len(),
                    alias == Some(a),
                    alias_wf(*a),
                    cache.wf(),
                    exts == crate::text::strings_view(extensions@),
                    try_aliases(context@, request@, exts, *a, *facts, fuel as nat, 0, 0)
                        == try_aliases(context@, request@, exts, *a, *facts, fuel as nat, pi as int, 0),
                decreases a.paths.len() - pi,
            {
                let mut ti: usize = 0;
                while ti < a.paths[pi].1.len()
                    invariant
                        pi < a.paths.len(),
                        ti <= a.paths@[pi as int].1@.len(),
                        alias == Some(a),
                        alias_wf(*a),
                        cache.wf(),
                        exts == crate::text::strings_view(extensions@),
                        try_aliases(context@, request@, exts, *a, *facts, fuel as nat, 0, 0)
                            == try_aliases(context@, request@, exts, *a, *facts, fuel as nat, pi as int, ti as int),
                    decreases a.paths@[pi as int].1@.len() - ti,
                {
                    assert(crate::alias::count_stars(a.paths@[pi as int].0@) <= 1);
                    match cache.rewrite(request, a.root.as_str(), a.paths[pi].0.as_str(), a.paths[pi].1[ti].as_str()) {
                        Err(_) => {
                            return Outcome::AliasFailed;
                        }
                        Ok(None) => {}
                        Ok(Some(rewritten)) => {
                            if fuel > 0 {
                                let r = simple_resolver(context, rewritten.as_str(), extensions, alias, facts, fuel - 1, cache);
                                match r {
                                    Outcome::Resolved(None) => {}
                                    _ => {
                                        return r;
                                    }
                                }
                            }
                        }
                    }
                    ti = ti + 1;
                }
                pi = pi + 1;
            }
            resolve_after_aliases(context, request, extensions, facts, fuel)
        }
        None => resolve_after_aliases(context, request, extensions, facts, fuel),
    }
}

/// Resolving the same request twice over the same facts gives the same
/// answer: the answer is a function of the request, the context, the
/// extensions, the alias table and the facts.
pub proof fn lemma_resolve_deterministic(
    context: Seq<char>,
    request: Seq<char>,
    exts: Seq<Seq<char>>,
    alias: Option<Alias>,
    facts: FsFacts,
    fuel: nat,
    first: Answer,
    second: Answer,
)
    requires
        first == resolution(context, request, exts, alias, facts, fuel),
        second == resolution(context, request, exts, alias, facts, fuel),
    ensures
        first == second,
        first matches Answer::Resolved(Some(x)) ==> second == Answer::Resolved(Some(x)),
{
}


proof fn lemma_probe_never_refused(path: Seq<char>, exts: Seq<Seq<char>>, facts: FsFacts, fuel: nat, i: int)
    ensures
        probe_result(path, exts, facts, fuel, i) != Answer::AliasFailed,
    decreases fuel, exts.len() - i,
{
    if 0 <= i < exts.len() {
        lemma_probe_never_refused(path, exts, facts, fuel, i + 1);
    } else if fuel > 0 {
        lemma_probe_never_refused(path + index_suffix(), exts, facts, (fuel - 1) as nat, 0);
    }
}

proof fn lemma_after_aliases_never_refused(context: Seq<char>, request: Seq<char>, exts: Seq<Seq<char>>, facts: FsFacts, fuel: nat)
    ensures
        after_aliases(context, request, exts, facts, fuel) != Answer::AliasFailed,
{
    lemma_probe_never_refused(request, exts, facts, fuel, 0);
    lemma_probe_never_refused(joined_path(seq![context, request]), exts, facts, fuel, 0);
    match package_in(facts.packages@, request, context) {
        Some(PackageLookup::Found { dir, entry: Some(m) }) => {
            lemma_probe_never_refused(joined_path(seq![dir@, m@]), exts, facts, fuel, 0);
        },
        _ => {},
    }
}

/// A resolution ends in `AliasFailed` only when there is an alias table and
/// one of its patterns is refused by the regular expression engine.
pub proof fn lemma_refusal_needs_a_refused_pattern(
    context: Seq<char>,
    request: Seq<char>,
    exts: Seq<Seq<char>>,
    alias: Option<Alias>,
    facts: FsFacts,
    fuel: nat,
)
    requires
        resolution(context, request, exts, alias, facts, fuel) == Answer::AliasFailed,
    ensures
        alias matches Some(a) && exists|i: int| 0 <= i < a.paths@.len() && !alias_compiles(#[trigger] a.paths@[i].0@),
    decreases fuel, 2int, 0int, 0int,
{
    lemma_after_aliases_never_refused(context, request, exts, facts, fuel);
    match alias {
        Some(a) => {
            if try_aliases(context, request, exts, a, facts, fuel, 0, 0) is Some {
                lemma_try_refusal(context, request, exts, a, facts, fuel, 0, 0);
            }
        },
        None => {},
    }
}

proof fn lemma_try_refusal(context: Seq<char>, request: Seq<char>, exts: Seq<Seq<char>>, a: Alias, facts: FsFacts, fuel: nat, pi: int, ti: int)
    requires
        try_aliases(context, request, exts, a, facts, fuel, pi, ti) == Some(Answer::AliasFailed),
    ensures
        exists|i: int| 0 <= i < a.paths@.len() && !alias_compiles(#[trigger] a.paths@[i].0@),
    decreases fuel, 1int, a.paths@.len() - pi, if 0 <= pi < a.paths@.len() { a.paths@[pi].1@.len() - ti } else { 0 },
{
    if pi < 0 || pi >= a.paths@.len() {
    } else if ti < 0 || ti >= a.paths@[pi].1@.len() {
        lemma_try_refusal(context, request, exts, a, facts, fuel, pi + 1, 0);
    } else if !alias_compiles(a.paths@[pi].0@) {
    } else {
        match alias_target(request, a.root@, a.paths@[pi].0@, a.paths@[pi].1@[ti]@) {
            None => {
                lemma_try_refusal(context, request, exts, a, facts, fuel, pi, ti + 1);
            },
            Some(rewritten) => {
                if fuel == 0 {
                    lemma_try_refusal(context, request, exts, a, facts, fuel, pi, ti + 1);
                } else {
                    let r = resolution(context, rewritten, exts, Some(a), facts, (fuel - 1) as nat);
                    if r == Answer::Resolved(None) {
                        lemma_try_refusal(context, request, exts, a, facts, fuel, pi, ti + 1);
                    } else {
                        lemma_refusal_needs_a_refused_pattern(context, rewritten, exts, Some(a), facts, (fuel - 1) as nat);
                    }
                }
            },
        }
    }
}

} // verus!
