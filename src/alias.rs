//! Wildcard path aliases: a pattern such as `@/*` rewrites a matching request
//! through a target template such as `./src/*` below the alias root.
use vstd::prelude::*;
use crate::path::{joined_path, join_paths};
use crate::text::{chars_of, push_str, str_eq, string_of};

verus! {

/// The regex crate's error for a pattern it cannot compile, carried as it is.
#[verifier::external_type_specification]
#[verifier::external_body]
pub struct ExRegexError(regex::Error);

/// The alias table: a root directory and, in order, each pattern with its
/// target templates.
#[derive(Clone, Debug)]
pub struct Alias {
    pub root: String,
    pub paths: Vec<(String, Vec<String>)>,
}

pub open spec fn count_stars(s: Seq<char>) -> nat
    decreases s.len(),
{
    if s.len() == 0 {
        0
    } else {
        count_stars(s.drop_last()) + if s.last() == '*' { 1nat } else { 0nat }
    }
}

/// Every pattern of the table holds at most one wildcard.
pub open spec fn alias_wf(a: Alias) -> bool {
    forall|i: int| 0 <= i < a.paths@.len() ==> count_stars((#[trigger] a.paths@[i]).0@) <= 1
}

/// The position of the first `*` in `s`.
pub open spec fn star_at(s: Seq<char>) -> int {
    choose|i: int| 0 <= i < s.len() && s[i] == '*' && forall|k: int| 0 <= k < i ==> s[k] != '*'
}

/// `text` is `prefix`, then a part without line breaks, then `suffix`.
pub open spec fn wildcard_fits(prefix: Seq<char>, suffix: Seq<char>, text: Seq<char>) -> bool {
    &&& prefix.len() + suffix.len() <= text.len()
    &&& text.take(prefix.len() as int) == prefix
    &&& text.skip(text.len() - suffix.len()) == suffix
    &&& !text.subrange(prefix.len() as int, text.len() - suffix.len()).contains('\n')
}

/// The part of `text` between `prefix` and `suffix`.
pub open spec fn wildcard_middle(prefix: Seq<char>, suffix: Seq<char>, text: Seq<char>) -> Seq<char> {
    text.subrange(prefix.len() as int, text.len() - suffix.len())
}

/// The characters that the regular expression syntax gives a meaning.
pub open spec fn is_meta(c: char) -> bool {
    c == '\\' || c == '.' || c == '+' || c == '*' || c == '?' || c == '(' || c == ')' || c == '|'
        || c == '[' || c == ']' || c == '{' || c == '}' || c == '^' || c == '$' || c == '#'
        || c == '&' || c == '-' || c == '~'
}

/// `s` with a backslash before each meta character.
pub open spec fn escape_meta(s: Seq<char>) -> Seq<char>
    decreases s.len(),
{
    if s.len() == 0 {
        Seq::empty()
    } else {
        (if is_meta(s[0]) { seq!['\\', s[0]] } else { seq![s[0]] }) + escape_meta(s.drop_first())
    }
}

/// The anchored pattern with one greedy group for the wildcard: the literal
/// `prefix`, any part, the literal `suffix`, and nothing around them.
pub open spec fn anchored_pattern(prefix: Seq<char>, suffix: Seq<char>) -> Seq<char> {
    "^"@ + escape_meta(prefix) + "(.*)"@ + escape_meta(suffix) + "$"@
}

/// Whether the regular expression engine compiles `pattern`.
pub uninterp spec fn pattern_accepted(pattern: Seq<char>) -> bool;

/// Relies on regex::escape: a backslash is put before each meta character.
#[verifier::external_body]
fn regex_escape(s: &str) -> (r: String)
    ensures
        r@ == escape_meta(s@),
{
    regex::escape(s)
}

/// Relies on regex::Regex::new and Regex::captures. Whether `new` accepts a
/// pattern depends on the pattern alone. A pattern `^P(.*)S$` where `P` and
/// `S` are the escaped texts `p` and `s` matches exactly the texts made of
/// `p`, a part without `\n` (`.` does not match it) and `s`; its group holds
/// that part.
#[verifier::external_body]
fn capture_group(pattern: &str, text: &str) -> (r: Result<Option<String>, regex::Error>)
    ensures
        r is Ok <==> pattern_accepted(pattern@),
        forall|p: Seq<char>, s: Seq<char>| pattern@ == #[trigger] anchored_pattern(p, s) ==> {
            &&& (r matches Ok(c) ==> (c is Some <==> wildcard_fits(p, s, text@)))
            &&& (r matches Ok(Some(m)) ==> m@ == wildcard_middle(p, s, text@))
        },
{
    match regex::Regex::new(pattern) {
        Ok(re) => Ok(re.captures(text).map(|c| c.get(1).map_or("", |m| m.as_str()).to_string())),
        Err(e) => Err(e),
    }
}

/// The anchored pattern of a prefix and a suffix, both escaped.
pub fn build_pattern(prefix: &str, suffix: &str) -> (r: String)
    ensures
        r@ == anchored_pattern(prefix@, suffix@),
{
    let pe = regex_escape(prefix);
    let se = regex_escape(suffix);
    let mut r = String::new();
    push_str(&mut r, "^");
    push_str(&mut r, pe.as_str());
    push_str(&mut r, "(.*)");
    push_str(&mut r, se.as_str());
    push_str(&mut r, "$");
    assert(r@ =~= anchored_pattern(prefix@, suffix@));
    r
}

/// `s` with every `*` replaced by `w`.
pub open spec fn replace_stars(s: Seq<char>, w: Seq<char>) -> Seq<char>
    decreases s.len(),
{
    if s.len() == 0 {
        Seq::empty()
    } else {
        replace_stars(s.drop_last(), w) + if s.last() == '*' { w } else { seq![s.last()] }
    }
}

fn replace_star_chars(s: &str, w: &str) -> (r: String)
    ensures
        r@ == replace_stars(s@, w@),
{
    let cs = chars_of(s);
    let ws = chars_of(w);
    let mut out: Vec<char> = Vec::new();
    let mut i: usize = 0;
    assert(cs@.take(0) =~= Seq::<char>::empty());
    while i < cs.len()
        invariant
            i <= cs.len(),
            out@ == replace_stars(cs@.take(i as int), ws@),
        decreases cs.len() - i,
    {
        assert(cs@.take(i + 1).drop_last() =~= cs@.take(i as int));
        let ghost before = out@;
        if cs[i] == '*' {
            let mut k: usize = 0;
            while k < ws.len()
                invariant
                    k <= ws.len(),
                    out@ == before + ws@.take(k as int),
                decreases ws.len() - k,
            {
                out.push(ws[k]);
                assert(ws@.take(k + 1) =~= ws@.take(k as int).push(ws@[k as int]));
                k = k + 1;
            }
            assert(ws@.take(ws.len() as int) =~= ws@);
        } else {
            out.push(cs[i]);
            assert(out@ =~= before + seq![cs@[i as int]]);
        }
        i = i + 1;
    }
    assert(cs@.take(cs.len() as int) =~= cs@);
    string_of(&out)
}

/// The absolute path a template gives for the wildcard part `w`.
pub open spec fn alias_path(root: Seq<char>, template: Seq<char>, w: Seq<char>) -> Seq<char> {
    joined_path(seq![root, replace_stars(template, w)])
}

/// What the alias rewrites `source` to: with no wildcard in the pattern, only
/// the pattern itself matches and the wildcard part is empty.
pub open spec fn alias_target(source: Seq<char>, root: Seq<char>, alias: Seq<char>, template: Seq<char>) -> Option<Seq<char>> {
    if !alias.contains('*') {
        if source == alias {
            Some(alias_path(root, template, Seq::empty()))
        } else {
            None
        }
    } else {
        let i = star_at(alias);
        let p = alias.take(i);
        let s = alias.skip(i + 1);
        if wildcard_fits(p, s, source) {
            Some(alias_path(root, template, wildcard_middle(p, s, source)))
        } else {
            None
        }
    }
}

fn alias_path_exec(root: &str, template: &str, w: &str) -> (r: String)
    ensures
        r@ == alias_path(root@, template@, w@),
{
    let t = replace_star_chars(template, w);
    let parts: [&str; 2] = [root, t.as_str()];
    let r = join_paths(&parts);
    assert(crate::path::str_views(parts@) =~= seq![root@, replace_stars(template@, w@)]);
    r
}

/// The pattern compiled for an alias key with a wildcard.
pub open spec fn alias_pattern(alias: Seq<char>) -> Seq<char> {
    anchored_pattern(alias.take(star_at(alias)), alias.skip(star_at(alias) + 1))
}

/// Whether matching against the alias key succeeds: a key without wildcard
/// is compared as it is, one with a wildcard needs its pattern compiled.
pub open spec fn alias_compiles(alias: Seq<char>) -> bool {
    !alias.contains('*') || pattern_accepted(alias_pattern(alias))
}

/// The rewritten path once the wildcard part is known: `None` when the
/// request did not match.
pub fn apply_alias_capture(captured: Option<String>, root: &str, template: &str) -> (r: Option<String>)
    ensures
        captured is None ==> r is None,
        captured matches Some(w) ==> r matches Some(x) && x@ == alias_path(root@, template@, w@),
{
    match captured {
        Some(w) => Some(alias_path_exec(root, template, w.as_str())),
        None => None,
    }
}

/// An alias pattern that the regular expression engine refused.
#[derive(Clone, Copy, Debug, PartialEq, Eq, Structural)]
pub struct PatternError;

/// Rewrites `source` through the alias pattern `alias` and the target
/// template `path` below `root`; fails when the pattern cannot be compiled.
pub fn alias_rewrite(source: &str, root: &str, alias: &str, path: &str) -> (r: Result<Option<String>, PatternError>)
    requires
        count_stars(alias@) <= 1,
    ensures
        r is Ok <==> alias_compiles(alias@),
        r matches Ok(o) ==> crate::types::opt_view(o) == alias_target(source@, root@, alias@, path@),
{
    let a = chars_of(alias);
    let mut i: usize = 0;
    while i < a.len() && a[i] != '*'
        invariant
            i <= a.len(),
            a@ == alias@,
            forall|k: int| 0 <= k < i ==> a@[k] != '*',
        decreases a.len() - i,
    {
        i = i + 1;
    }
    if i == a.len() {
        if str_eq(source, alias) {
            assert(!alias@.contains('*'));
            return Ok(apply_alias_capture(Some(String::new()), root, path));
        }
        return Ok(None);
    }
    assert(star_at(alias@) == i) by {
        let j = star_at(alias@);
        assert(alias@[i as int] == '*');
        assert(0 <= j < alias@.len() && alias@[j] == '*' && forall|k: int| 0 <= k < j ==> alias@[k] != '*');
    }
    let mut pre: Vec<char> = Vec::new();
    let mut k: usize = 0;
    while k < i
        invariant
            k <= i < a.len(),
            pre@ == a@.take(k as int),
        decreases i - k,
    {
        pre.push(a[k]);
        assert(a@.take(k + 1) =~= a@.take(k as int).push(a@[k as int]));
        k = k + 1;
    }
    let mut suf: Vec<char> = Vec::new();
    let mut m: usize = i + 1;
    while m < a.len()
        invariant
            i + 1 <= m <= a.len(),
            suf@ == a@.subrange(i + 1, m as int),
        decreases a.len() - m,
    {
        suf.push(a[m]);
        assert(a@.subrange(i + 1, m + 1) =~= a@.subrange(i + 1, m as int).push(a@[m as int]));
        m = m + 1;
    }
    assert(suf@ =~= a@.skip(i + 1));
    let p = string_of(&pre);
    let s = string_of(&suf);
    let pattern = build_pattern(p.as_str(), s.as_str());
    assert(pattern@ == alias_pattern(alias@));
    match capture_group(pattern.as_str(), source) {
        Ok(c) => Ok(apply_alias_capture(c, root, path)),
        Err(_) => Err(PatternError),
    }
}

/// Rewrites `source` through the alias pattern `alias` and the target
/// template `path` below `root`. A pattern with a wildcard is matched with an
/// anchored regular expression; when the engine refuses that expression the
/// result is `None`.
pub fn match_alias_pattern(source: &str, root: &str, alias: &str, path: &str) -> (r: Option<String>)
    requires
        count_stars(alias@) <= 1,
    ensures
        alias_compiles(alias@) ==> crate::types::opt_view(r) == alias_target(source@, root@, alias@, path@),
        !alias_compiles(alias@) ==> r is None,
{
    match alias_rewrite(source, root, alias, path) {
        Ok(o) => o,
        Err(_) => None,
    }
}


/// Rewrites already made, by source, root, pattern and template, so that the
/// same inputs are matched against a compiled pattern only once.
pub struct AliasCache {
    pub entries: Vec<(String, String, String, String, Option<String>)>,
}

impl AliasCache {
    /// Every remembered rewrite is the one the alias gives.
    pub open spec fn wf(&self) -> bool {
        forall|i: int| 0 <= i < self.entries@.len() ==> {
            let e = #[trigger] self.entries@[i];
            &&& alias_compiles(e.2@)
            &&& crate::types::opt_view(e.4) == alias_target(e.0@, e.1@, e.2@, e.3@)
        }
    }

    /// A cache with nothing remembered.
    pub fn new() -> (r: AliasCache)
        ensures
            r.wf(),
            r.entries@.len() == 0,
    {
        AliasCache { entries: Vec::new() }
    }

    /// `alias_rewrite`, answered from the cache when these inputs were seen.
    pub fn rewrite(&mut self, source: &str, root: &str, alias: &str, path: &str) -> (r: Result<Option<String>, PatternError>)
        requires
            old(self).wf(),
            count_stars(alias@) <= 1,
        ensures
            final(self).wf(),
            r is Ok <==> alias_compiles(alias@),
            r matches Ok(o) ==> crate::types::opt_view(o) == alias_target(source@, root@, alias@, path@),
    {
        let mut i: usize = 0;
        while i < self.entries.len()
            invariant
                i <= self.entries.len(),
                self.wf(),
            decreases self.entries.len() - i,
        {
            let e = &self.entries[i];
            if str_eq(e.0.as_str(), source) && str_eq(e.1.as_str(), root) && str_eq(e.2.as_str(), alias)
                && str_eq(e.3.as_str(), path) {
                assert(alias_compiles(e.2@));
                assert(crate::types::opt_view(e.4) == alias_target(e.0@, e.1@, e.2@, e.3@));
                return Ok(crate::types::clone_opt_string(&e.4));
            }
            i = i + 1;
        }
        let r = alias_rewrite(source, root, alias, path);
        match &r {
            Ok(o) => {
                let entry = (
                    source.to_owned(),
                    root.to_owned(),
                    alias.to_owned(),
                    path.to_owned(),
                    crate::types::clone_opt_string(o),
                );
                let ghost before = self.entries@;
                self.entries.push(entry);
                assert forall|k: int| 0 <= k < self.entries@.len() implies {
                    let e = #[trigger] self.entries@[k];
                    &&& alias_compiles(e.2@)
                    &&& crate::types::opt_view(e.4) == alias_target(e.0@, e.1@, e.2@, e.3@)
                } by {
                    if k < before.len() {
                        assert(self.entries@[k] == before[k]);
                    }
                }
            }
            Err(_) => {}
        }
        r
    }
}

} // verus!
