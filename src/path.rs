//! Joining and normalising slash-separated paths without touching the disk.
use vstd::prelude::*;
use crate::text::{chars_of, string_of};

verus! {

/// A path is absolute when it starts at the root.
pub open spec fn is_absolute(p: Seq<char>) -> bool {
    p.len() > 0 && p[0] == '/'
}

/// One path segment applied to the names gathered so far: empty and `.`
/// segments change nothing, `..` drops the last name if there is one, any
/// other segment is appended.
pub open spec fn apply_segment(names: Seq<Seq<char>>, seg: Seq<char>) -> Seq<Seq<char>> {
    if seg.len() == 0 || seg == seq!['.'] {
        names
    } else if seg == seq!['.', '.'] {
        if names.len() > 0 {
            names.drop_last()
        } else {
            names
        }
    } else {
        names.push(seg)
    }
}

/// The names and the unfinished segment after reading the characters of `p`
/// on top of `names`.
pub open spec fn scan(names: Seq<Seq<char>>, p: Seq<char>) -> (Seq<Seq<char>>, Seq<char>)
    decreases p.len(),
{
    if p.len() == 0 {
        (names, Seq::empty())
    } else {
        let prev = scan(names, p.drop_last());
        if p.last() == '/' {
            (apply_segment(prev.0, prev.1), Seq::empty())
        } else {
            (prev.0, prev.1.push(p.last()))
        }
    }
}

/// The names after the whole of `p` has been applied on top of `names`.
pub open spec fn names_after(names: Seq<Seq<char>>, p: Seq<char>) -> Seq<Seq<char>> {
    apply_segment(scan(names, p).0, scan(names, p).1)
}

/// The normalised names of the paths joined left to right; an absolute path
/// discards everything before it.
pub open spec fn joined_names(paths: Seq<Seq<char>>) -> Seq<Seq<char>>
    decreases paths.len(),
{
    if paths.len() == 0 {
        Seq::empty()
    } else {
        let before = if is_absolute(paths.last()) {
            Seq::empty()
        } else {
            joined_names(paths.drop_last())
        };
        names_after(before, paths.last())
    }
}

pub open spec fn any_absolute(paths: Seq<Seq<char>>) -> bool {
    exists|i: int| 0 <= i < paths.len() && is_absolute(#[trigger] paths[i])
}

/// The names separated by single slashes.
pub open spec fn with_separators(names: Seq<Seq<char>>) -> Seq<char>
    decreases names.len(),
{
    if names.len() == 0 {
        Seq::empty()
    } else if names.len() == 1 {
        names[0]
    } else {
        with_separators(names.drop_last()) + seq!['/'] + names.last()
    }
}

/// Whether the last path ends with a slash.
pub open spec fn ends_with_slash(paths: Seq<Seq<char>>) -> bool {
    paths.len() > 0 && paths.last().len() > 0 && paths.last().last() == '/'
}

/// The joined, normalised path: a leading slash when some part is absolute,
/// the names, and a trailing slash when the last part has one and some name
/// is left.
pub open spec fn joined_path(paths: Seq<Seq<char>>) -> Seq<char> {
    let names = joined_names(paths);
    let root: Seq<char> = if any_absolute(paths) { seq!['/'] } else { Seq::empty() };
    let trail: Seq<char> = if ends_with_slash(paths) && names.len() > 0 {
        seq!['/']
    } else {
        Seq::empty()
    };
    root + with_separators(names) + trail
}

pub open spec fn str_views(paths: Seq<&str>) -> Seq<Seq<char>> {
    Seq::new(paths.len(), |i: int| paths[i]@)
}

pub open spec fn vec_views(v: Seq<Vec<char>>) -> Seq<Seq<char>> {
    Seq::new(v.len(), |i: int| v[i]@)
}

fn is_one_dot(seg: &Vec<char>) -> (r: bool)
    ensures
        r == (seg@ == seq!['.']),
{
    let r = seg.len() == 1 && seg[0] == '.';
    if r {
        assert(seg@ =~= seq!['.']);
    }
    r
}

fn is_two_dots(seg: &Vec<char>) -> (r: bool)
    ensures
        r == (seg@ == seq!['.', '.']),
{
    let r = seg.len() == 2 && seg[0] == '.' && seg[1] == '.';
    if r {
        assert(seg@ =~= seq!['.', '.']);
    }
    r
}

fn push_segment(names: &mut Vec<Vec<char>>, seg: Vec<char>)
    ensures
        vec_views(final(names)@) == apply_segment(vec_views(old(names)@), seg@),
{
    let ghost before = vec_views(names@);
    if seg.len() == 0 || is_one_dot(&seg) {
    } else if is_two_dots(&seg) {
        if names.len() > 0 {
            names.pop();
            assert(vec_views(names@) =~= before.drop_last());
        }
    } else {
        names.push(seg);
        assert(vec_views(names@) =~= before.push(seg@));
    }
}

/// Applies the characters of `cs` to `names`, as `names_after` says.
fn push_path(names: &mut Vec<Vec<char>>, cs: &Vec<char>)
    ensures
        vec_views(final(names)@) == names_after(vec_views(old(names)@), cs@),
{
    let ghost start = vec_views(names@);
    let mut seg: Vec<char> = Vec::new();
    let mut j: usize = 0;
    while j < cs.len()
        invariant
            j <= cs.len(),
            (vec_views(names@), seg@) == scan(start, cs@.take(j as int)),
        decreases cs.len() - j,
    {
        let c = cs[j];
        assert(cs@.take(j + 1).drop_last() =~= cs@.take(j as int));
        if c == '/' {
            push_segment(names, seg);
            seg = Vec::new();
        } else {
            seg.push(c);
        }
        j = j + 1;
    }
    assert(cs@.take(cs.len() as int) =~= cs@);
    push_segment(names, seg);
}

/// Joins the paths left to right and normalises the result: `.` segments and
/// repeated slashes vanish, `..` removes the previous name, an absolute part
/// restarts from the root, and a trailing slash on the last part is kept.
pub fn join_paths(paths: &[&str]) -> (r: String)
    ensures
        r@ == joined_path(str_views(paths@)),
{
    let ghost pv = str_views(paths@);
    let mut names: Vec<Vec<char>> = Vec::new();
    let mut root = false;
    let mut last_had_slash = false;
    let mut i: usize = 0;
    assert(pv.take(0) =~= Seq::<Seq<char>>::empty());
    while i < paths.len()
        invariant
            i <= paths.len(),
            pv == str_views(paths@),
            vec_views(names@) == joined_names(pv.take(i as int)),
            root == any_absolute(pv.take(i as int)),
            last_had_slash == ends_with_slash(pv.take(i as int)),
        decreases paths.len() - i,
    {
        let cs = chars_of(paths[i]);
        let ghost prefix = pv.take(i + 1);
        assert(prefix.drop_last() =~= pv.take(i as int));
        assert(prefix.last() == cs@);
        if cs.len() > 0 && cs[0] == '/' {
            names = Vec::new();
            root = true;
            assert(vec_views(names@) =~= Seq::<Seq<char>>::empty());
            assert(is_absolute(prefix[i as int]));
        } else {
            if root {
                let ghost k = choose|k: int| 0 <= k < i && is_absolute(#[trigger] pv.take(i as int)[k]);
                assert(is_absolute(prefix[k]));
            } else {
                assert forall|k: int| 0 <= k < prefix.len() implies !is_absolute(#[trigger] prefix[k]) by {
                    if k < i {
                        assert(prefix[k] == pv.take(i as int)[k]);
                    }
                }
            }
        }
        push_path(&mut names, &cs);
        last_had_slash = cs.len() > 0 && cs[cs.len() - 1] == '/';
        i = i + 1;
    }
    assert(pv.take(paths.len() as int) =~= pv);
    let ghost nv = vec_views(names@);
    let mut out: Vec<char> = Vec::new();
    if root {
        out.push('/');
    }
    let ghost root_seq = out@;
    let mut k: usize = 0;
    assert(nv.take(0) =~= Seq::<Seq<char>>::empty());
    assert(out@ =~= root_seq + with_separators(nv.take(0)));
    while k < names.len()
        invariant
            k <= names.len(),
            nv == vec_views(names@),
            out@ == root_seq + with_separators(nv.take(k as int)),
        decreases names.len() - k,
    {
        let ghost before = out@;
        if k > 0 {
            out.push('/');
        }
        let mut m: usize = 0;
        while m < names[k].len()
            invariant
                k < names.len(),
                m <= names[k as int].len(),
                out@ == before + (if k > 0 { seq!['/'] } else { Seq::<char>::empty() }) + names[k as int]@.take(m as int),
            decreases names[k as int].len() - m,
        {
            out.push(names[k][m]);
            assert(names[k as int]@.take(m + 1) =~= names[k as int]@.take(m as int).push(names[k as int]@[m as int]));
            m = m + 1;
        }
        assert(names[k as int]@.take(names[k as int].len() as int) =~= names[k as int]@);
        let ghost t = nv.take(k + 1);
        assert(t.drop_last() =~= nv.take(k as int));
        assert(t.last() == names[k as int]@);
        if k == 0 {
            assert(with_separators(t) == t[0]);
        }
        assert(out@ =~= root_seq + with_separators(t));
        k = k + 1;
    }
    assert(nv.take(names.len() as int) =~= nv);
    if last_had_slash && names.len() > 0 {
        out.push('/');
    }
    proof {
        if last_had_slash && names.len() > 0 {
            assert(out@ =~= root_seq + with_separators(nv) + seq!['/']);
        } else {
            assert(out@ =~= root_seq + with_separators(nv) + Seq::<char>::empty());
        }
    }
    string_of(&out)
}

} // verus!
