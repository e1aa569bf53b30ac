//! Circular dependencies: a depth-first walk over the finished tree that
//! reports a cycle whenever it meets a module already on its current path.
use vstd::prelude::*;
use crate::text::strings_view;
use crate::types::{has_key, keys_unique, DependencyKind, DependencyTree, DependencyView, EntryView};

verus! {

/// Whether the walk takes this edge: dynamic imports are left out when asked.
pub open spec fn follows(d: DependencyView, skip_dynamic: bool) -> bool {
    !(skip_dynamic && d.kind == DependencyKind::DynamicImport)
}

/// The `j`-th dependency of the `i`-th entry resolved to `b` and is followed.
pub open spec fn edge_at(t: Seq<EntryView>, i: int, j: int, b: Seq<char>, skip_dynamic: bool) -> bool {
    &&& 0 <= i < t.len()
    &&& t[i].deps is Some
    &&& 0 <= j < t[i].deps->0.len()
    &&& t[i].deps->0[j].id == Some(b)
    &&& follows(t[i].deps->0[j], skip_dynamic)
}

/// Module `a` depends on module `b` through a followed edge.
#[verifier::opaque]
pub open spec fn has_edge(t: Seq<EntryView>, a: Seq<char>, b: Seq<char>, skip_dynamic: bool) -> bool {
    exists|i: int, j: int| t[i].id == a && #[trigger] edge_at(t, i, j, b, skip_dynamic)
}

/// The element after position `k` of a closed path.
pub open spec fn next_in(c: Seq<Seq<char>>, k: int) -> Seq<char> {
    if k + 1 < c.len() {
        c[k + 1]
    } else {
        c[0]
    }
}

/// `c` is a cycle: distinct modules, each depending on the next and the last
/// on the first.
pub open spec fn is_cycle(t: Seq<EntryView>, c: Seq<Seq<char>>, skip_dynamic: bool) -> bool {
    &&& c.len() > 0
    &&& c.no_duplicates()
    &&& forall|k: int| 0 <= k < c.len() ==> #[trigger] has_edge(t, c[k], next_in(c, k), skip_dynamic)
}

/// No cycle exists in the tree.
pub open spec fn acyclic(t: Seq<EntryView>, skip_dynamic: bool) -> bool {
    forall|c: Seq<Seq<char>>| !#[trigger] is_cycle(t, c, skip_dynamic)
}

pub open spec fn all_cycles(t: Seq<EntryView>, cs: Seq<Vec<String>>, skip_dynamic: bool) -> bool {
    forall|k: int| 0 <= k < cs.len() ==> #[trigger] is_cycle(t, strings_view(cs[k]@), skip_dynamic)
}

/// The successor lists by entry position agree with the edges of the tree.
pub open spec fn successors_ok(t: Seq<EntryView>, succ: Seq<Vec<usize>>, skip_dynamic: bool) -> bool {
    &&& succ.len() == t.len()
    &&& forall|a: int| 0 <= a < succ.len() ==> (#[trigger] succ[a])@.no_duplicates()
    &&& forall|a: int, k: int| 0 <= a < succ.len() && 0 <= k < succ[a].len() ==> {
        &&& (#[trigger] succ[a][k]) < t.len()
        &&& has_edge(t, t[a].id, t[succ[a][k] as int].id, skip_dynamic)
    }
    &&& forall|a: int, b: int| 0 <= a < t.len() && 0 <= b < t.len() && #[trigger] has_edge(t, t[a].id, t[b].id, skip_dynamic)
        ==> succ[a]@.contains(b as usize)
}

fn contains_index(v: &Vec<usize>, x: usize) -> (r: bool)
    ensures
        r == v@.contains(x),
{
    let mut i: usize = 0;
    while i < v.len()
        invariant
            i <= v.len(),
            forall|k: int| 0 <= k < i ==> v@[k] != x,
        decreases v.len() - i,
    {
        if v[i] == x {
            assert(v@[i as int] == x);
            return true;
        }
        i = i + 1;
    }
    false
}

fn successors(tree: &DependencyTree, skip_dynamic: bool) -> (succ: Vec<Vec<usize>>)
    requires
        tree.wf(),
    ensures
        successors_ok(tree@, succ@, skip_dynamic),
{
    let ghost t = tree@;
    reveal(has_edge);
    let mut succ: Vec<Vec<usize>> = Vec::new();
    let mut a: usize = 0;
    while a < tree.entries.len()
        invariant
            a <= tree.entries.len(),
            t == tree@,
            tree.wf(),
            succ.len() == a,
            forall|x: int| 0 <= x < a ==> (#[trigger] succ[x])@.no_duplicates(),
            forall|x: int, k: int| 0 <= x < a && 0 <= k < succ[x].len() ==> {
                &&& (#[trigger] succ[x][k]) < t.len()
                &&& has_edge(t, t[x].id, t[succ[x][k] as int].id, skip_dynamic)
            },
            forall|x: int, b: int| 0 <= x < a && 0 <= b < t.len() && #[trigger] has_edge(t, t[x].id, t[b].id, skip_dynamic)
                ==> succ[x]@.contains(b as usize),
        decreases tree.entries.len() - a,
    {
        proof {
            reveal(has_edge);
        }
        let mut out: Vec<usize> = Vec::new();
        match &tree.entries[a].deps {
            None => {
                assert forall|b: int| 0 <= b < t.len() && #[trigger] has_edge(t, t[a as int].id, t[b].id, skip_dynamic)
                    implies out@.contains(b as usize) by {
                    let (i, j) = choose|i: int, j: int| t[i].id == t[a as int].id && #[trigger] edge_at(t, i, j, t[b].id, skip_dynamic);
                    assert(i == a);
                }
            }
            Some(deps) => {
                let mut j: usize = 0;
                while j < deps.len()
                    invariant
                        j <= deps.len(),
                        t == tree@,
                        tree.wf(),
                        a < t.len(),
                        tree.entries[a as int].deps == Some(*deps),
                        out@.no_duplicates(),
                        forall|k: int| 0 <= k < out.len() ==> {
                            &&& (#[trigger] out[k]) < t.len()
                            &&& has_edge(t, t[a as int].id, t[out[k] as int].id, skip_dynamic)
                        },
                        forall|jj: int, b: int| 0 <= jj < j && 0 <= b < t.len() && #[trigger] edge_at(t, a as int, jj, t[b].id, skip_dynamic)
                            ==> out@.contains(b as usize),
                    decreases deps.len() - j,
                {
                    proof {
                        reveal(has_edge);
                    }
                    let d = &deps[j];
                    let ghost old_out = out@;
                    assert(t[a as int].deps->0[j as int] == d@);
                    let take = !(skip_dynamic && d.kind == DependencyKind::DynamicImport);
                    if take {
                        match &d.id {
                            Some(x) => {
                                match tree.position(x.as_str()) {
                                    Some(b) => {
                                        assert(edge_at(t, a as int, j as int, t[b as int].id, skip_dynamic));
                                        if !contains_index(&out, b) {
                                            let ghost o = out@;
                                            out.push(b);
                                            assert(out@[out.len() - 1] == b);
                                            assert forall|x: int, y: int| 0 <= x < out@.len() && 0 <= y < out@.len() && x != y
                                                implies out@[x] != out@[y] by {
                                                if x < o.len() && y < o.len() {
                                                    assert(o[x] != o[y]);
                                                } else if x < o.len() {
                                                    assert(o[x] == out@[x]);
                                                } else {
                                                    assert(o[y] == out@[y]);
                                                }
                                            }
                                        }
                                        assert(out@.contains(b));
                                        assert forall|bb: int| 0 <= bb < t.len() && #[trigger] edge_at(t, a as int, j as int, t[bb].id, skip_dynamic)
                                            implies out@.contains(bb as usize) by {
                                            assert(t[bb].id == t[b as int].id);
                                            assert(out@.contains(b));
                                        }
                                    }
                                    None => {
                                        assert forall|bb: int| 0 <= bb < t.len() implies !#[trigger] edge_at(t, a as int, j as int, t[bb].id, skip_dynamic) by {
                                            if edge_at(t, a as int, j as int, t[bb].id, skip_dynamic) {
                                                assert(t[bb].id == x@);
                                            }
                                        }
                                    }
                                }
                            }
                            None => {}
                        }
                    }
                    proof {
                        assert forall|jj: int, b: int| 0 <= jj < j + 1 && 0 <= b < t.len() && #[trigger] edge_at(t, a as int, jj, t[b].id, skip_dynamic)
                            implies out@.contains(b as usize) by {
                            if jj < j {
                                assert(old_out.contains(b as usize));
                                let k = choose|k: int| 0 <= k < old_out.len() && old_out[k] == b as usize;
                                assert(out@[k] == b as usize);
                            }
                        }
                    }
                    j = j + 1;
                }
                assert forall|b: int| 0 <= b < t.len() && #[trigger] has_edge(t, t[a as int].id, t[b].id, skip_dynamic)
                    implies out@.contains(b as usize) by {
                    let (i, jj) = choose|i: int, jj: int| t[i].id == t[a as int].id && #[trigger] edge_at(t, i, jj, t[b].id, skip_dynamic);
                    assert(0 <= i < t.len());
                    assert(i == a);
                }
            }
        }
        succ.push(out);
        a = a + 1;
    }
    succ
}


/// Marks of the walk: not reached yet, on the current path, finished.
pub const UNSEEN: u8 = 0;
pub const ON_PATH: u8 = 1;
pub const DONE: u8 = 2;

pub open spec fn count_unseen(s: Seq<u8>) -> nat
    decreases s.len(),
{
    if s.len() == 0 {
        0
    } else {
        count_unseen(s.drop_last()) + if s.last() == UNSEEN { 1nat } else { 0nat }
    }
}

proof fn lemma_count_unseen_update(s: Seq<u8>, i: int, x: u8)
    requires
        0 <= i < s.len(),
    ensures
        count_unseen(s.update(i, x)) + (if s[i] == UNSEEN { 1int } else { 0int })
            == count_unseen(s) + (if x == UNSEEN { 1int } else { 0int }),
    decreases s.len(),
{
    if i == s.len() - 1 {
        assert(s.update(i, x).drop_last() =~= s.drop_last());
    } else {
        assert(s.update(i, x).drop_last() =~= s.drop_last().update(i, x));
        lemma_count_unseen_update(s.drop_last(), i, x);
    }
}

/// The current path: its positions are exactly the marked-on-path ones, it
/// has no repetition, and each step is an edge.
pub open spec fn path_ok(t: Seq<EntryView>, path: Seq<usize>, state: Seq<u8>, skip_dynamic: bool) -> bool {
    &&& forall|k: int| 0 <= k < path.len() ==> (#[trigger] path[k]) < state.len() && state[path[k] as int] == ON_PATH
    &&& forall|x: int| 0 <= x < state.len() && #[trigger] state[x] == ON_PATH ==> path.contains(x as usize)
    &&& path.no_duplicates()
    &&& forall|k: int| 0 <= k < path.len() - 1 ==> has_edge(t, t[#[trigger] path[k] as int].id, t[path[k + 1] as int].id, skip_dynamic)
}

/// Every finished position has only finished successors, each finished
/// earlier.
pub open spec fn finished_closed(succ: Seq<Vec<usize>>, state: Seq<u8>, rank: Seq<int>) -> bool {
    forall|x: int, k: int| 0 <= x < succ.len() && state[x] == DONE && 0 <= k < succ[x].len() ==> {
        &&& state[#[trigger] succ[x][k] as int] == DONE
        &&& rank[succ[x][k] as int] < rank[x]
    }
}

pub open spec fn marks_ok(state: Seq<u8>, rank: Seq<int>, clock: int, n: int) -> bool {
    &&& state.len() == n
    &&& rank.len() == n
    &&& 0 <= clock
    &&& forall|x: int| 0 <= x < n ==> #[trigger] state[x] <= DONE
    &&& forall|x: int| 0 <= x < n && #[trigger] state[x] == DONE ==> 0 <= rank[x] < clock
}

/// `c` is `d` turned: some rotation of `d` reads as `c`.
pub open spec fn rotated<A>(c: Seq<A>, d: Seq<A>) -> bool {
    c.len() == d.len() && exists|r: int| 0 <= r < d.len() && c == #[trigger] d.skip(r) + d.take(r)
}

/// The ids of a list of entry positions.
pub open spec fn ids(t: Seq<EntryView>, c: Seq<usize>) -> Seq<Seq<char>> {
    Seq::new(c.len(), |i: int| t[c[i] as int].id)
}

/// `c` stands contiguously in `path`.
pub open spec fn is_segment(c: Seq<usize>, path: Seq<usize>) -> bool {
    exists|a: int| 0 <= a && a + c.len() <= path.len() && c == #[trigger] path.subrange(a, a + c.len())
}

/// A reported cycle: its positions are reached, and it is finished or still
/// stands on the current path.
pub open spec fn reported_one(c: Seq<usize>, state: Seq<u8>, path: Seq<usize>) -> bool {
    &&& c.len() > 0
    &&& forall|i: int| 0 <= i < c.len() ==> (#[trigger] c[i]) < state.len() && state[c[i] as int] != UNSEEN
    &&& (state[c.last() as int] == DONE || is_segment(c, path))
}

/// The cycles reported so far, by position, agree with their ids, are in
/// order with the walk, and no two are turns of each other.
#[verifier::opaque]
pub open spec fn history_ok(t: Seq<EntryView>, cycles: Seq<Vec<String>>, icyc: Seq<Seq<usize>>, state: Seq<u8>, path: Seq<usize>) -> bool {
    &&& cycles.len() == icyc.len()
    &&& forall|k: int| 0 <= k < icyc.len() ==> strings_view(cycles[k]@) == ids(t, #[trigger] icyc[k])
    &&& forall|k: int| 0 <= k < icyc.len() ==> reported_one(#[trigger] icyc[k], state, path)
    &&& forall|i: int, j: int| 0 <= i < icyc.len() && 0 <= j < icyc.len() && i != j ==> !rotated(#[trigger] icyc[i], #[trigger] icyc[j])
}

proof fn lemma_rotated_symmetric<A>(c: Seq<A>, d: Seq<A>)
    requires
        rotated(c, d),
    ensures
        rotated(d, c),
{
    let r = choose|r: int| 0 <= r < d.len() && c == #[trigger] d.skip(r) + d.take(r);
    let m = d.len() as int;
    if r == 0 {
        assert(d =~= c.skip(0) + c.take(0));
    } else {
        assert(c.skip(m - r) =~= d.take(r));
        assert(c.take(m - r) =~= d.skip(r));
        assert(d =~= c.skip(m - r) + c.take(m - r));
    }
}

proof fn lemma_rotated_members<A>(c: Seq<A>, d: Seq<A>, i: int)
    requires
        rotated(c, d),
        0 <= i < c.len(),
    ensures
        d.contains(c[i]),
{
    let r = choose|r: int| 0 <= r < d.len() && c == #[trigger] d.skip(r) + d.take(r);
    let m = d.len() as int;
    if i < m - r {
        assert(c[i] == d[r + i]);
    } else {
        assert(c[i] == d[i - (m - r)]);
    }
}

proof fn lemma_segment_rotation(path: Seq<usize>, c: Seq<usize>, pos: int)
    requires
        path.no_duplicates(),
        0 <= pos < path.len(),
        is_segment(c, path),
        rotated(c, path.subrange(pos, path.len() as int)),
    ensures
        c == path.subrange(pos, path.len() as int),
{
    let d = path.subrange(pos, path.len() as int);
    let m = d.len() as int;
    let a = choose|a: int| 0 <= a && a + c.len() <= path.len() && c == #[trigger] path.subrange(a, a + c.len());
    let r = choose|r: int| 0 <= r < d.len() && c == #[trigger] d.skip(r) + d.take(r);
    assert(c[0] == d[r]);
    assert(c[0] == path[a]);
    assert(d[r] == path[pos + r]);
    assert(a == pos + r);
    assert(r == 0);
    assert(c =~= d);
}

proof fn lemma_history_push_path(t: Seq<EntryView>, cycles: Seq<Vec<String>>, icyc: Seq<Seq<usize>>, state: Seq<u8>, path0: Seq<usize>, u: usize)
    requires
        history_ok(t, cycles, icyc, state, path0),
        u < state.len(),
        state[u as int] == UNSEEN,
    ensures
        history_ok(t, cycles, icyc, state.update(u as int, ON_PATH), path0.push(u)),
        forall|k: int| 0 <= k < icyc.len() ==> (#[trigger] icyc[k]).last() != u,
{
    reveal(history_ok);
    let s1 = state.update(u as int, ON_PATH);
    let p1 = path0.push(u);
    assert forall|k: int| 0 <= k < icyc.len() implies reported_one(#[trigger] icyc[k], s1, p1) && icyc[k].last() != u by {
        let c = icyc[k];
        assert(reported_one(c, state, path0));
        assert forall|i: int| 0 <= i < c.len() implies (#[trigger] c[i]) < s1.len() && s1[c[i] as int] != UNSEEN by {
            assert(state[c[i] as int] != UNSEEN);
        }
        assert(state[c.last() as int] != UNSEEN);
        if state[c.last() as int] != DONE {
            let a = choose|a: int| 0 <= a && a + c.len() <= path0.len() && c == #[trigger] path0.subrange(a, a + c.len());
            assert(p1.subrange(a, a + c.len()) =~= path0.subrange(a, a + c.len()));
        }
    }
}

proof fn lemma_history_finish(t: Seq<EntryView>, cycles: Seq<Vec<String>>, icyc: Seq<Seq<usize>>, state: Seq<u8>, path0: Seq<usize>, u: usize)
    requires
        history_ok(t, cycles, icyc, state, path0.push(u)),
        u < state.len(),
        state[u as int] == ON_PATH,
    ensures
        history_ok(t, cycles, icyc, state.update(u as int, DONE), path0),
{
    reveal(history_ok);
    let s3 = state.update(u as int, DONE);
    let p = path0.push(u);
    assert forall|k: int| 0 <= k < icyc.len() implies reported_one(#[trigger] icyc[k], s3, path0) by {
        let c = icyc[k];
        assert(reported_one(c, state, p));
        assert forall|i: int| 0 <= i < c.len() implies (#[trigger] c[i]) < s3.len() && s3[c[i] as int] != UNSEEN by {
            assert(state[c[i] as int] != UNSEEN);
        }
        if s3[c.last() as int] != DONE {
            assert(c.last() != u);
            assert(state[c.last() as int] != DONE);
            let a = choose|a: int| 0 <= a && a + c.len() <= p.len() && c == #[trigger] p.subrange(a, a + c.len());
            if a + c.len() == p.len() {
                assert(c.last() == p[p.len() - 1]);
            } else {
                assert(path0.subrange(a, a + c.len()) =~= p.subrange(a, a + c.len()));
            }
        }
    }
}

proof fn lemma_history_report(
    t: Seq<EntryView>,
    cycles: Seq<Vec<String>>,
    icyc: Seq<Seq<usize>>,
    state: Seq<u8>,
    path: Seq<usize>,
    skip_dynamic: bool,
    pos: int,
    c: Vec<String>,
)
    requires
        history_ok(t, cycles, icyc, state, path),
        path_ok(t, path, state, skip_dynamic),
        0 <= pos < path.len(),
        strings_view(c@) == ids(t, path.subrange(pos, path.len() as int)),
        forall|k: int| 0 <= k < icyc.len() && (#[trigger] icyc[k]).last() == path.last() ==> icyc[k][0] != path[pos],
    ensures
        history_ok(t, cycles.push(c), icyc.push(path.subrange(pos, path.len() as int)), state, path),
{
    reveal(history_ok);
    let d = path.subrange(pos, path.len() as int);
    let ic = icyc.push(d);
    let cs = cycles.push(c);
    assert forall|i: int| 0 <= i < d.len() implies (#[trigger] d[i]) < state.len() && state[d[i] as int] != UNSEEN by {
        assert(d[i] == path[pos + i]);
    }
    assert(path.subrange(pos, pos + d.len()) =~= d);
    assert(is_segment(d, path));
    assert(reported_one(d, state, path));
    assert forall|k: int| 0 <= k < icyc.len() implies !rotated(icyc[k], d) && !rotated(d, icyc[k]) by {
        let e = icyc[k];
        assert(reported_one(e, state, path));
        if rotated(d, e) {
            lemma_rotated_symmetric(d, e);
        }
        if rotated(e, d) {
            if state[e.last() as int] == DONE {
                lemma_rotated_members(e, d, e.len() - 1);
                let i = choose|i: int| 0 <= i < d.len() && d[i] == e.last();
                assert(d[i] == path[pos + i]);
            } else {
                lemma_segment_rotation(path, e, pos);
                assert(e.last() == path.last());
                assert(e[0] == path[pos]);
            }
        }
    }
    assert forall|i: int, j: int| 0 <= i < ic.len() && 0 <= j < ic.len() && i != j implies !rotated(#[trigger] ic[i], #[trigger] ic[j]) by {
        if i < icyc.len() && j < icyc.len() {
            assert(ic[i] == icyc[i] && ic[j] == icyc[j]);
        } else if i < icyc.len() {
            assert(ic[i] == icyc[i]);
        } else {
            assert(ic[j] == icyc[j]);
        }
    }
    assert forall|k: int| 0 <= k < ic.len() implies strings_view(cs[k]@) == ids(t, #[trigger] ic[k]) by {
        if k < icyc.len() {
            assert(ic[k] == icyc[k] && cs[k] == cycles[k]);
        }
    }
    assert forall|k: int| 0 <= k < ic.len() implies reported_one(#[trigger] ic[k], state, path) by {
        if k < icyc.len() {
            assert(ic[k] == icyc[k]);
        }
    }
}

/// When ids are unique, turned id lists come from turned position lists.
proof fn lemma_ids_rotated(t: Seq<EntryView>, c: Seq<usize>, d: Seq<usize>)
    requires
        keys_unique(t),
        forall|i: int| 0 <= i < c.len() ==> (#[trigger] c[i]) < t.len(),
        forall|i: int| 0 <= i < d.len() ==> (#[trigger] d[i]) < t.len(),
        rotated(ids(t, c), ids(t, d)),
    ensures
        rotated(c, d),
{
    let r = choose|r: int| 0 <= r < ids(t, d).len() && ids(t, c) == #[trigger] ids(t, d).skip(r) + ids(t, d).take(r);
    let e = d.skip(r) + d.take(r);
    assert(ids(t, d).skip(r) + ids(t, d).take(r) =~= ids(t, e));
    assert forall|i: int| 0 <= i < c.len() implies c[i] == e[i] by {
        assert(ids(t, c)[i] == ids(t, e)[i]);
        if i < d.len() - r {
            assert(e[i] == d[r + i]);
        } else {
            assert(e[i] == d[i - (d.len() - r)]);
        }
    }
    assert(c =~= e);
}

/// The ids of `path[pos..]`, in order.
fn path_ids(tree: &DependencyTree, path: &Vec<usize>, pos: usize) -> (c: Vec<String>)
    requires
        pos <= path.len(),
        forall|k: int| 0 <= k < path@.len() ==> (#[trigger] path@[k]) < tree@.len(),
    ensures
        c@.len() == path@.len() - pos,
        forall|q: int| 0 <= q < c@.len() ==> #[trigger] c@[q]@ == tree@[path@[pos + q] as int].id,
{
    let mut c: Vec<String> = Vec::new();
    let mut m: usize = pos;
    while m < path.len()
        invariant
            pos <= m <= path.len(),
            forall|k: int| 0 <= k < path@.len() ==> (#[trigger] path@[k]) < tree@.len(),
            c@.len() == m - pos,
            forall|q: int| 0 <= q < c@.len() ==> #[trigger] c@[q]@ == tree@[path@[pos + q] as int].id,
        decreases path.len() - m,
    {
        let id = tree.entries[path[m]].id.clone();
        c.push(id);
        m = m + 1;
    }
    c
}

proof fn lemma_path_suffix_is_cycle(t: Seq<EntryView>, path: Seq<usize>, state: Seq<u8>, skip_dynamic: bool, pos: int, cv: Seq<Seq<char>>)
    requires
        keys_unique(t),
        state.len() == t.len(),
        path_ok(t, path, state, skip_dynamic),
        0 <= pos < path.len(),
        has_edge(t, t[path.last() as int].id, t[path[pos] as int].id, skip_dynamic),
        cv.len() == path.len() - pos,
        forall|q: int| 0 <= q < cv.len() ==> #[trigger] cv[q] == t[path[pos + q] as int].id,
    ensures
        is_cycle(t, cv, skip_dynamic),
{
    let n = cv.len();
    assert forall|k: int| 0 <= k < n implies #[trigger] has_edge(t, cv[k], next_in(cv, k), skip_dynamic) by {
        if k + 1 < n {
            assert(cv[k] == t[path[pos + k] as int].id);
            assert(cv[k + 1] == t[path[pos + k + 1] as int].id);
            assert(has_edge(t, t[path[pos + k] as int].id, t[path[pos + k + 1] as int].id, skip_dynamic));
        } else {
            assert(cv[k] == t[path[pos + k] as int].id);
            assert(cv[0] == t[path[pos + 0] as int].id);
        }
    }
    assert forall|i: int, j: int| 0 <= i < n && 0 <= j < n && i != j implies cv[i] != cv[j] by {
        assert(cv[i] == t[path[pos + i] as int].id);
        assert(cv[j] == t[path[pos + j] as int].id);
        assert(path[pos + i] != path[pos + j]);
        assert(path[pos + i] < t.len());
        assert(path[pos + j] < t.len());
    }
}

/// `v` is on the current path and the end of the path leads to it: the part
/// of the path from `v` on is a cycle.
fn report_cycle(
    tree: &DependencyTree,
    skip_dynamic: bool,
    v: usize,
    state: &Vec<u8>,
    path: &Vec<usize>,
    cycles: &mut Vec<Vec<String>>,
    icyc: &mut Ghost<Seq<Seq<usize>>>,
)
    requires
        tree.wf(),
        state@.len() == tree@.len(),
        path_ok(tree@, path@, state@, skip_dynamic),
        path@.len() > 0,
        v < state@.len(),
        state@[v as int] == ON_PATH,
        has_edge(tree@, tree@[path@.last() as int].id, tree@[v as int].id, skip_dynamic),
        all_cycles(tree@, old(cycles)@, skip_dynamic),
        history_ok(tree@, old(cycles)@, old(icyc)@, state@, path@),
        forall|k: int| 0 <= k < old(icyc)@.len() && (#[trigger] old(icyc)@[k]).last() == path@.last() ==> old(icyc)@[k][0] != v,
    ensures
        all_cycles(tree@, final(cycles)@, skip_dynamic),
        final(cycles)@.len() == old(cycles)@.len() + 1,
        history_ok(tree@, final(cycles)@, final(icyc)@, state@, path@),
        final(icyc)@.len() == old(icyc)@.len() + 1,
        forall|k: int| 0 <= k < old(icyc)@.len() ==> #[trigger] final(icyc)@[k] == old(icyc)@[k],
        final(icyc)@.last().len() > 0,
        final(icyc)@.last().last() == path@.last(),
        final(icyc)@.last()[0] == v,
{
    let ghost t = tree@;
    let ghost kv = choose|k: int| 0 <= k < path@.len() && path@[k] == v;
    let mut pos: usize = 0;
    while path[pos] != v
        invariant
            path_ok(t, path@, state@, skip_dynamic),
            0 <= kv < path@.len(),
            path@[kv] == v,
            pos <= kv,
        decreases path.len() - pos,
    {
        pos = pos + 1;
    }
    let c = path_ids(tree, path, pos);
    proof {
        lemma_path_suffix_is_cycle(t, path@, state@, skip_dynamic, pos as int, strings_view(c@));
    }
    let ghost old_cycles = cycles@;
    let ghost seg = path@.subrange(pos as int, path@.len() as int);
    proof {
        assert(strings_view(c@) =~= ids(t, seg));
        lemma_history_report(t, cycles@, icyc@, state@, path@, skip_dynamic, pos as int, c);
        icyc@ = icyc@.push(seg);
    }
    cycles.push(c);
    assert forall|k: int| 0 <= k < cycles@.len() implies #[trigger] is_cycle(t, strings_view(cycles@[k]@), skip_dynamic) by {
        if k < old_cycles.len() {
            assert(cycles@[k] == old_cycles[k]);
        }
    }
}

/// The cycles closed so far at `u` start at its first `idx` successors, so
/// none starts at the next one.
proof fn lemma_no_earlier_closing(su: Seq<usize>, icyc: Seq<Seq<usize>>, u: usize, idx: int)
    requires
        su.no_duplicates(),
        0 <= idx < su.len(),
        forall|k: int| 0 <= k < icyc.len() && (#[trigger] icyc[k]).last() == u ==>
            exists|j: int| 0 <= j < idx && #[trigger] su[j] == icyc[k][0],
    ensures
        forall|k: int| 0 <= k < icyc.len() && (#[trigger] icyc[k]).last() == u ==> icyc[k][0] != su[idx],
{
    assert forall|k: int| 0 <= k < icyc.len() && (#[trigger] icyc[k]).last() == u implies icyc[k][0] != su[idx] by {
        let j = choose|j: int| 0 <= j < idx && #[trigger] su[j] == icyc[k][0];
    }
}

proof fn lemma_after_report(su: Seq<usize>, u: usize, idx: int, before: Seq<Seq<usize>>, after: Seq<Seq<usize>>, icyc0: Seq<Seq<usize>>, state0: Seq<u8>)
    requires
        0 <= idx < su.len(),
        after.len() == before.len() + 1,
        forall|k: int| 0 <= k < before.len() ==> #[trigger] after[k] == before[k],
        after.last().last() == u,
        after.last()[0] == su[idx],
        state0[u as int] == UNSEEN,
        before.len() >= icyc0.len(),
        forall|k: int| 0 <= k < icyc0.len() ==> #[trigger] before[k] == icyc0[k],
        forall|k: int| icyc0.len() <= k < before.len() ==> state0[(#[trigger] before[k]).last() as int] == UNSEEN,
        forall|k: int| 0 <= k < before.len() && (#[trigger] before[k]).last() == u ==>
            exists|j: int| 0 <= j < idx && #[trigger] su[j] == before[k][0],
    ensures
        after.len() >= icyc0.len(),
        forall|k: int| 0 <= k < icyc0.len() ==> #[trigger] after[k] == icyc0[k],
        forall|k: int| icyc0.len() <= k < after.len() ==> state0[(#[trigger] after[k]).last() as int] == UNSEEN,
        forall|k: int| 0 <= k < after.len() && (#[trigger] after[k]).last() == u ==>
            exists|j: int| 0 <= j < idx + 1 && #[trigger] su[j] == after[k][0],
{
    assert forall|k: int| 0 <= k < icyc0.len() implies #[trigger] after[k] == icyc0[k] by {
        assert(after[k] == before[k]);
    }
    assert forall|k: int| icyc0.len() <= k < after.len() implies state0[(#[trigger] after[k]).last() as int] == UNSEEN by {
        if k < before.len() {
            assert(after[k] == before[k]);
        }
    }
    assert forall|k: int| 0 <= k < after.len() && (#[trigger] after[k]).last() == u implies
        exists|j: int| 0 <= j < idx + 1 && #[trigger] su[j] == after[k][0] by {
        if k < before.len() {
            assert(after[k] == before[k]);
            let j = choose|j: int| 0 <= j < idx && #[trigger] su[j] == before[k][0];
            assert(su[j] == after[k][0]);
        } else {
            assert(su[idx] == after[k][0]);
        }
    }
}

proof fn lemma_after_child(
    su: Seq<usize>,
    u: usize,
    idx: int,
    before: Seq<Seq<usize>>,
    after: Seq<Seq<usize>>,
    icyc0: Seq<Seq<usize>>,
    state0: Seq<u8>,
    state1: Seq<u8>,
    state_before: Seq<u8>,
)
    requires
        0 <= idx < su.len(),
        u < state0.len(),
        state1 == state0.update(u as int, ON_PATH),
        state_before.len() == state0.len(),
        forall|x: int| 0 <= x < state0.len() && state1[x] != UNSEEN ==> #[trigger] state_before[x] == state1[x],
        after.len() >= before.len(),
        forall|k: int| 0 <= k < before.len() ==> #[trigger] after[k] == before[k],
        forall|k: int| before.len() <= k < after.len() ==> state_before[(#[trigger] after[k]).last() as int] == UNSEEN,
        forall|k: int| before.len() <= k < after.len() ==> (#[trigger] after[k]).last() < state0.len(),
        before.len() >= icyc0.len(),
        forall|k: int| 0 <= k < icyc0.len() ==> #[trigger] before[k] == icyc0[k],
        forall|k: int| icyc0.len() <= k < before.len() ==> state0[(#[trigger] before[k]).last() as int] == UNSEEN,
        forall|k: int| 0 <= k < before.len() && (#[trigger] before[k]).last() == u ==>
            exists|j: int| 0 <= j < idx && #[trigger] su[j] == before[k][0],
    ensures
        after.len() >= icyc0.len(),
        forall|k: int| 0 <= k < icyc0.len() ==> #[trigger] after[k] == icyc0[k],
        forall|k: int| icyc0.len() <= k < after.len() ==> state0[(#[trigger] after[k]).last() as int] == UNSEEN,
        forall|k: int| 0 <= k < after.len() && (#[trigger] after[k]).last() == u ==>
            exists|j: int| 0 <= j < idx + 1 && #[trigger] su[j] == after[k][0],
{
    assert forall|k: int| 0 <= k < icyc0.len() implies #[trigger] after[k] == icyc0[k] by {
        assert(after[k] == before[k]);
    }
    assert forall|k: int| icyc0.len() <= k < after.len() implies state0[(#[trigger] after[k]).last() as int] == UNSEEN by {
        if k < before.len() {
            assert(after[k] == before[k]);
        } else {
            let w = after[k].last() as int;
            assert(state_before[w] == UNSEEN);
            if state0[w] != UNSEEN {
                assert(state1[w] != UNSEEN);
            }
        }
    }
    assert forall|k: int| 0 <= k < after.len() && (#[trigger] after[k]).last() == u implies
        exists|j: int| 0 <= j < idx + 1 && #[trigger] su[j] == after[k][0] by {
        if k < before.len() {
            assert(after[k] == before[k]);
            let j = choose|j: int| 0 <= j < idx && #[trigger] su[j] == before[k][0];
            assert(su[j] == after[k][0]);
        } else {
            assert(state_before[u as int] == ON_PATH);
        }
    }
}

/// The walk from an unseen position `u`, reached from the end of `path`.
#[verifier::rlimit(100)]
fn visit(
    tree: &DependencyTree,
    succ: &Vec<Vec<usize>>,
    skip_dynamic: bool,
    u: usize,
    state: &mut Vec<u8>,
    path: &mut Vec<usize>,
    cycles: &mut Vec<Vec<String>>,
    icyc: &mut Ghost<Seq<Seq<usize>>>,
    rank: &mut Ghost<Seq<int>>,
    clock: &mut Ghost<int>,
)
    requires
        history_ok(tree@, old(cycles)@, old(icyc)@, old(state)@, old(path)@),
        tree.wf(),
        successors_ok(tree@, succ@, skip_dynamic),
        marks_ok(old(state)@, old(rank)@, old(clock)@, tree@.len() as int),
        u < tree@.len(),
        old(state)@[u as int] == UNSEEN,
        path_ok(tree@, old(path)@, old(state)@, skip_dynamic),
        old(path)@.len() > 0 ==> has_edge(tree@, tree@[old(path)@.last() as int].id, tree@[u as int].id, skip_dynamic),
        all_cycles(tree@, old(cycles)@, skip_dynamic),
        old(cycles)@.len() == 0 ==> finished_closed(succ@, old(state)@, old(rank)@),
    ensures
        final(path)@ == old(path)@,
        marks_ok(final(state)@, final(rank)@, final(clock)@, tree@.len() as int),
        final(clock)@ >= old(clock)@,
        final(state)@[u as int] == DONE,
        forall|x: int| 0 <= x < tree@.len() && old(state)@[x] != UNSEEN ==> #[trigger] final(state)@[x] == old(state)@[x],
        forall|x: int| 0 <= x < tree@.len() && old(state)@[x] == DONE ==> #[trigger] final(rank)@[x] == old(rank)@[x],
        count_unseen(final(state)@) < count_unseen(old(state)@),
        path_ok(tree@, final(path)@, final(state)@, skip_dynamic),
        all_cycles(tree@, final(cycles)@, skip_dynamic),
        final(cycles)@.len() >= old(cycles)@.len(),
        final(cycles)@.len() == 0 ==> finished_closed(succ@, final(state)@, final(rank)@),
        history_ok(tree@, final(cycles)@, final(icyc)@, final(state)@, final(path)@),
        final(icyc)@.len() >= old(icyc)@.len(),
        forall|k: int| 0 <= k < old(icyc)@.len() ==> #[trigger] final(icyc)@[k] == old(icyc)@[k],
        forall|k: int| old(icyc)@.len() <= k < final(icyc)@.len() ==> old(state)@[(#[trigger] final(icyc)@[k]).last() as int] == UNSEEN,
        forall|k: int| old(icyc)@.len() <= k < final(icyc)@.len() ==> (#[trigger] final(icyc)@[k]).last() < tree@.len(),
    decreases count_unseen(old(state)@),
{
    let ghost t = tree@;
    let ghost state0 = state@;
    let ghost path0 = path@;
    proof {
        lemma_count_unseen_update(state@, u as int, ON_PATH);
    }
    let n = state.len();
    let ghost icyc0 = icyc@;
    proof {
        lemma_push_path(t, path0, state@, u, skip_dynamic);
        lemma_history_push_path(t, cycles@, icyc@, state@, path0, u);
    }
    state.set(u, ON_PATH);
    path.push(u);
    let ghost state1 = state@;
    let ghost clock1 = clock@;
    let mut idx: usize = 0;
    while idx < succ[u].len()
        invariant
            tree.wf(),
            t == tree@,
            successors_ok(t, succ@, skip_dynamic),
            u < t.len(),
            idx <= succ@[u as int].len(),
            state0 == old(state)@,
            state0.len() == t.len(),
            state0[u as int] == UNSEEN,
            state1 == state0.update(u as int, ON_PATH),
            path@ == path0.push(u),
            marks_ok(state@, rank@, clock@, t.len() as int),
            clock@ >= clock1,
            state@[u as int] == ON_PATH,
            forall|x: int| 0 <= x < t.len() && state1[x] != UNSEEN ==> #[trigger] state@[x] == state1[x],
            forall|x: int| 0 <= x < t.len() && state0[x] == DONE ==> #[trigger] rank@[x] == old(rank)@[x],
            count_unseen(state@) <= count_unseen(state1),
            count_unseen(state1) < count_unseen(state0),
            path_ok(t, path@, state@, skip_dynamic),
            all_cycles(t, cycles@, skip_dynamic),
            cycles@.len() >= old(cycles)@.len(),
            cycles@.len() == 0 ==> finished_closed(succ@, state@, rank@),
            history_ok(t, cycles@, icyc@, state@, path@),
            icyc0 == old(icyc)@,
            icyc@.len() >= icyc0.len(),
            forall|k: int| 0 <= k < icyc0.len() ==> #[trigger] icyc@[k] == icyc0[k],
            forall|k: int| icyc0.len() <= k < icyc@.len() ==> state0[(#[trigger] icyc@[k]).last() as int] == UNSEEN,
            forall|k: int| icyc0.len() <= k < icyc@.len() ==> (#[trigger] icyc@[k]).last() < t.len(),
            forall|k: int| 0 <= k < icyc@.len() && (#[trigger] icyc@[k]).last() == u ==>
                exists|j: int| 0 <= j < idx && #[trigger] succ@[u as int]@[j] == icyc@[k][0],
            cycles@.len() == 0 ==> forall|k: int| 0 <= k < idx ==> {
                &&& state@[#[trigger] succ@[u as int][k] as int] == DONE
                &&& rank@[succ@[u as int][k] as int] < clock@
            },
        decreases succ@[u as int].len() - idx,
    {
        let v = succ[u][idx];
        assert(has_edge(t, t[u as int].id, t[v as int].id, skip_dynamic));
        if state[v] == ON_PATH {
            proof {
                assert(succ@[u as int]@.no_duplicates());
                assert(succ@[u as int]@[idx as int] == v);
                lemma_no_earlier_closing(succ@[u as int]@, icyc@, u, idx as int);
            }
            let ghost ibefore = icyc@;
            report_cycle(tree, skip_dynamic, v, state, path, cycles, icyc);
            proof {
                lemma_after_report(succ@[u as int]@, u, idx as int, ibefore, icyc@, icyc0, state0);
                assert forall|k: int| icyc0.len() <= k < icyc@.len() implies (#[trigger] icyc@[k]).last() < t.len() by {
                    if k < ibefore.len() {
                        assert(icyc@[k] == ibefore[k]);
                    }
                }
            }
        } else if state[v] == UNSEEN {
            let ghost state_before = state@;
            let ghost rank_before = rank@;
            let ghost ibefore = icyc@;
            visit(tree, succ, skip_dynamic, v, state, path, cycles, icyc, rank, clock);
            proof {
                assert forall|x: int| 0 <= x < t.len() && state1[x] != UNSEEN implies #[trigger] state@[x] == state1[x] by {
                    assert(state_before[x] == state1[x]);
                }
                assert forall|x: int| 0 <= x < t.len() && state0[x] == DONE implies #[trigger] rank@[x] == old(rank)@[x] by {
                    assert(state1[x] == DONE);
                    assert(state_before[x] == DONE);
                }
                lemma_after_child(succ@[u as int]@, u, idx as int, ibefore, icyc@, icyc0, state0, state1, state_before);
                assert forall|k: int| icyc0.len() <= k < icyc@.len() implies (#[trigger] icyc@[k]).last() < t.len() by {
                    if k < ibefore.len() {
                        assert(icyc@[k] == ibefore[k]);
                    }
                }
                if cycles@.len() == 0 {
                    assert forall|k: int| 0 <= k < idx + 1 implies {
                        &&& state@[#[trigger] succ@[u as int][k] as int] == DONE
                        &&& rank@[succ@[u as int][k] as int] < clock@
                    } by {
                        if k < idx {
                            let w = succ@[u as int][k] as int;
                            assert(state_before[w] == DONE);
                        }
                    }
                }
            }
        } else {
            assert(state[v as int] == DONE);
        }
        idx = idx + 1;
    }
    path.pop();
    assert(path@ =~= path0);
    proof {
        lemma_count_unseen_update(state@, u as int, DONE);
        lemma_finish(t, succ@, path0, state@, rank@, clock@, u, skip_dynamic, cycles@.len() == 0);
        lemma_history_finish(t, cycles@, icyc@, state@, path0, u);
    }
    state.set(u, DONE);
    proof {
        rank@ = rank@.update(u as int, clock@);
        clock@ = clock@ + 1;
    }
}

/// Putting an unseen position reached from the end of the path on the path
/// keeps the path in order.
proof fn lemma_push_path(t: Seq<EntryView>, path0: Seq<usize>, state: Seq<u8>, u: usize, skip_dynamic: bool)
    requires
        u < state.len() <= usize::MAX,
        state[u as int] == UNSEEN,
        path_ok(t, path0, state, skip_dynamic),
        path0.len() > 0 ==> has_edge(t, t[path0.last() as int].id, t[u as int].id, skip_dynamic),
    ensures
        path_ok(t, path0.push(u), state.update(u as int, ON_PATH), skip_dynamic),
{
    let p = path0.push(u);
    let s1 = state.update(u as int, ON_PATH);
    assert forall|k: int| 0 <= k < p.len() - 1 implies has_edge(t, t[#[trigger] p[k] as int].id, t[p[k + 1] as int].id, skip_dynamic) by {
        if k < path0.len() - 1 {
            assert(path0[k] == p[k] && path0[k + 1] == p[k + 1]);
        }
    }
    assert forall|x: int| 0 <= x < s1.len() && #[trigger] s1[x] == ON_PATH implies p.contains(x as usize) by {
        if x == u {
            assert(p[p.len() - 1] == u);
        } else {
            assert(path0.contains(x as usize));
            let k = choose|k: int| 0 <= k < path0.len() && path0[k] == x as usize;
            assert(p[k] == x as usize);
        }
    }
    assert forall|k: int| 0 <= k < p.len() implies (#[trigger] p[k]) < s1.len() && s1[p[k] as int] == ON_PATH by {
        if k < path0.len() {
            assert(path0[k] == p[k]);
        }
    }
    assert(!path0.contains(u));
}

/// Marking the end of the path finished keeps the rest of the path in order.
#[verifier::rlimit(100)]
proof fn lemma_finish(
    t: Seq<EntryView>,
    succ: Seq<Vec<usize>>,
    path0: Seq<usize>,
    state: Seq<u8>,
    rank: Seq<int>,
    clock: int,
    u: usize,
    skip_dynamic: bool,
    no_cycles: bool,
)
    requires
        successors_ok(t, succ, skip_dynamic),
        marks_ok(state, rank, clock, t.len() as int),
        u < t.len() <= usize::MAX,
        state[u as int] == ON_PATH,
        path_ok(t, path0.push(u as usize), state, skip_dynamic),
        no_cycles ==> finished_closed(succ, state, rank),
        no_cycles ==> forall|k: int| 0 <= k < succ[u as int].len() ==> {
            &&& state[#[trigger] succ[u as int][k] as int] == DONE
            &&& rank[succ[u as int][k] as int] < clock
        },
    ensures
        path_ok(t, path0, state.update(u as int, DONE), skip_dynamic),
        marks_ok(state.update(u as int, DONE), rank.update(u as int, clock), clock + 1, t.len() as int),
        no_cycles ==> finished_closed(succ, state.update(u as int, DONE), rank.update(u as int, clock)),
{
    lemma_pop_path(t, path0, state, u, skip_dynamic);
    if no_cycles {
        lemma_close(succ, state, rank, clock, u as int);
    }
    let s3 = state.update(u as int, DONE);
    let r3 = rank.update(u as int, clock);
    assert forall|x: int| 0 <= x < t.len() && #[trigger] s3[x] == DONE implies 0 <= r3[x] < clock + 1 by {
        if x != u {
            assert(state[x] == DONE);
        }
    }
    assert forall|x: int| 0 <= x < t.len() implies #[trigger] s3[x] <= DONE by {
        if x != u {
            assert(state[x] <= DONE);
        }
    }
}

#[verifier::rlimit(100)]
proof fn lemma_pop_path(t: Seq<EntryView>, path0: Seq<usize>, state: Seq<u8>, u: usize, skip_dynamic: bool)
    requires
        u < state.len() <= usize::MAX,
        state[u as int] == ON_PATH,
        path_ok(t, path0.push(u as usize), state, skip_dynamic),
    ensures
        path_ok(t, path0, state.update(u as int, DONE), skip_dynamic),
{
    let s3 = state.update(u as int, DONE);
    let p = path0.push(u as usize);
    assert forall|x: int| 0 <= x < s3.len() && #[trigger] s3[x] == ON_PATH implies path0.contains(x as usize) by {
        assert(x != u);
        assert(p.contains(x as usize));
        let k = choose|k: int| 0 <= k < p.len() && p[k] == x as usize;
        assert(k < path0.len());
        assert(path0[k] == x as usize);
    }
    assert forall|k: int| 0 <= k < path0.len() implies (#[trigger] path0[k]) < s3.len() && s3[path0[k] as int] == ON_PATH by {
        assert(p[k] == path0[k]);
        assert(p[k] != p[p.len() - 1]);
    }
    assert forall|k: int| 0 <= k < path0.len() - 1 implies has_edge(t, t[#[trigger] path0[k] as int].id, t[path0[k + 1] as int].id, skip_dynamic) by {
        assert(p[k] == path0[k]);
        assert(p[k + 1] == path0[k + 1]);
    }
    assert(path0.no_duplicates()) by {
        assert forall|i: int, j: int| 0 <= i < path0.len() && 0 <= j < path0.len() && i != j implies path0[i] != path0[j] by {
            assert(p[i] == path0[i] && p[j] == path0[j]);
        }
    }
}

proof fn lemma_close(succ: Seq<Vec<usize>>, state: Seq<u8>, rank: Seq<int>, clock: int, u: int)
    requires
        0 <= u < succ.len(),
        forall|x: int, k: int| 0 <= x < succ.len() && 0 <= k < succ[x].len() ==> #[trigger] succ[x][k] < succ.len(),
        state.len() == succ.len(),
        rank.len() == succ.len(),
        state[u] == ON_PATH,
        finished_closed(succ, state, rank),
        forall|k: int| 0 <= k < succ[u].len() ==> {
            &&& state[#[trigger] succ[u][k] as int] == DONE
            &&& rank[succ[u][k] as int] < clock
        },
    ensures
        finished_closed(succ, state.update(u, DONE), rank.update(u, clock)),
{
    let s3 = state.update(u, DONE);
    let r3 = rank.update(u, clock);
    assert forall|x: int, k: int| 0 <= x < succ.len() && s3[x] == DONE && 0 <= k < succ[x].len() implies {
        &&& s3[#[trigger] succ[x][k] as int] == DONE
        &&& r3[succ[x][k] as int] < r3[x]
    } by {
        if x != u {
            let w = succ[x][k] as int;
            assert(state[x] == DONE);
            assert(state[w] == DONE);
            assert(w != u);
        }
    }
}


/// The position of a key in the tree.
pub open spec fn key_index(t: Seq<EntryView>, id: Seq<char>) -> int {
    choose|i: int| 0 <= i < t.len() && (#[trigger] t[i]).id == id
}

proof fn lemma_descending(g: spec_fn(int) -> int, n: int, m: int)
    requires
        0 <= m < n,
        forall|k: int| 0 <= k < n - 1 ==> #[trigger] g(k + 1) < g(k),
    ensures
        g(m) <= g(0) - m,
    decreases m,
{
    if m > 0 {
        lemma_descending(g, n, m - 1);
        let k = m - 1;
        assert(g(k + 1) < g(k));
    }
}

/// When every edge leads to a smaller rank, no cycle exists.
proof fn lemma_ranked_acyclic(t: Seq<EntryView>, succ: Seq<Vec<usize>>, rank: Seq<int>, skip_dynamic: bool)
    requires
        keys_unique(t),
        successors_ok(t, succ, skip_dynamic),
        rank.len() == t.len() <= usize::MAX,
        forall|a: int, k: int| 0 <= a < succ.len() && 0 <= k < succ[a].len() ==> rank[#[trigger] succ[a][k] as int] < rank[a],
    ensures
        acyclic(t, skip_dynamic),
{
    assert forall|c: Seq<Seq<char>>| !#[trigger] is_cycle(t, c, skip_dynamic) by {
        if is_cycle(t, c, skip_dynamic) {
            let n = c.len();
            assert forall|k: int| 0 <= k < n implies #[trigger] has_key(t, c[k]) by {
                assert(has_edge(t, c[k], next_in(c, k), skip_dynamic));
                reveal(has_edge);
                let (i, j) = choose|i: int, j: int| t[i].id == c[k] && #[trigger] edge_at(t, i, j, next_in(c, k), skip_dynamic);
                assert(t[i].id == c[k]);
            }
            let g = |k: int| rank[key_index(t, c[k])];
            assert forall|k: int| 0 <= k < n implies #[trigger] rank[key_index(t, next_in(c, k))] < rank[key_index(t, c[k])] by {
                let a = key_index(t, c[k]);
                assert(has_key(t, c[k]));
                assert(0 <= a < t.len() && t[a].id == c[k]);
                let nk = if k + 1 < n { k + 1 } else { 0 };
                assert(next_in(c, k) == c[nk]);
                assert(has_key(t, c[nk]));
                let b = key_index(t, next_in(c, k));
                assert(has_edge(t, c[k], next_in(c, k), skip_dynamic));
                assert(t[a].id == c[k] && t[b].id == next_in(c, k));
                assert(has_edge(t, t[a].id, t[b].id, skip_dynamic));
                assert(succ[a]@.contains(b as usize));
                let kk = choose|kk: int| 0 <= kk < succ[a].len() && succ[a]@[kk] == b as usize;
                assert(rank[succ[a][kk] as int] < rank[a]);
            }
            assert forall|k: int| 0 <= k < n - 1 implies #[trigger] g(k + 1) < g(k) by {
                assert(next_in(c, k) == c[k + 1]);
                assert(rank[key_index(t, next_in(c, k))] < rank[key_index(t, c[k])]);
            }
            lemma_descending(g, n as int, n - 1);
            assert(next_in(c, n - 1) == c[0]);
            assert(rank[key_index(t, next_in(c, n - 1))] < rank[key_index(t, c[n - 1])]);
        }
    }
}

/// Every cycle of the tree, found by one depth-first walk from each id in
/// turn; an id is expanded once, so each cycle is reported from where the walk
/// first closes it. Dynamic imports are not followed when
/// `skip_dynamic_imports` is set. The result is empty exactly when the tree
/// has no cycle, and no cycle is reported twice, in any rotation.
pub fn parse_circular(tree: &DependencyTree, skip_dynamic_imports: bool) -> (r: Vec<Vec<String>>)
    requires
        tree.wf(),
    ensures
        all_cycles(tree@, r@, skip_dynamic_imports),
        r@.len() == 0 <==> acyclic(tree@, skip_dynamic_imports),
        forall|i: int, j: int| 0 <= i < r@.len() && 0 <= j < r@.len() && i != j
            ==> !rotated(strings_view(#[trigger] r@[i]@), strings_view(#[trigger] r@[j]@)),
{
    let ghost t = tree@;
    let succ = successors(tree, skip_dynamic_imports);
    let n = tree.entries.len();
    let mut state: Vec<u8> = Vec::new();
    while state.len() < n
        invariant
            state.len() <= n,
            forall|x: int| 0 <= x < state.len() ==> #[trigger] state@[x] == UNSEEN,
        decreases n - state.len(),
    {
        state.push(UNSEEN);
    }
    let mut path: Vec<usize> = Vec::new();
    let mut cycles: Vec<Vec<String>> = Vec::new();
    let mut rank: Ghost<Seq<int>> = Ghost(Seq::new(n as nat, |i: int| 0int));
    let mut clock: Ghost<int> = Ghost(0);
    let mut icyc: Ghost<Seq<Seq<usize>>> = Ghost(Seq::empty());
    proof {
        reveal(history_ok);
    }
    let mut i: usize = 0;
    while i < n
        invariant
            tree.wf(),
            t == tree@,
            n == t.len(),
            successors_ok(t, succ@, skip_dynamic_imports),
            i <= n,
            marks_ok(state@, rank@, clock@, n as int),
            path@ == Seq::<usize>::empty(),
            path_ok(t, path@, state@, skip_dynamic_imports),
            all_cycles(t, cycles@, skip_dynamic_imports),
            cycles@.len() == 0 ==> finished_closed(succ@, state@, rank@),
            history_ok(t, cycles@, icyc@, state@, path@),
            forall|x: int| 0 <= x < i ==> #[trigger] state@[x] == DONE,
        decreases n - i,
    {
        if state[i] == UNSEEN {
            let ghost before = state@;
            visit(tree, &succ, skip_dynamic_imports, i, &mut state, &mut path, &mut cycles, &mut icyc, &mut rank, &mut clock);
            assert forall|x: int| 0 <= x < i + 1 implies #[trigger] state@[x] == DONE by {
                if x < i {
                    assert(before[x] == DONE);
                }
            }
        } else {
            if state[i] == ON_PATH {
                assert(path@.contains(i));
            }
        }
        i = i + 1;
    }
    proof {
        if cycles@.len() == 0 {
            assert forall|a: int, k: int| 0 <= a < succ@.len() && 0 <= k < succ@[a].len() implies rank@[#[trigger] succ@[a][k] as int] < rank@[a] by {
                assert(state@[a] == DONE);
            }
            lemma_ranked_acyclic(t, succ@, rank@, skip_dynamic_imports);
        } else {
            assert(is_cycle(t, strings_view(cycles@[0]@), skip_dynamic_imports));
        }
        reveal(history_ok);
        assert forall|i: int, j: int| 0 <= i < cycles@.len() && 0 <= j < cycles@.len() && i != j
            implies !rotated(strings_view(#[trigger] cycles@[i]@), strings_view(#[trigger] cycles@[j]@)) by {
            let ci = icyc@[i];
            let cj = icyc@[j];
            assert(reported_one(ci, state@, path@));
            assert(reported_one(cj, state@, path@));
            assert(strings_view(cycles@[i]@) == ids(t, ci));
            assert(strings_view(cycles@[j]@) == ids(t, cj));
            if rotated(ids(t, ci), ids(t, cj)) {
                lemma_ids_rotated(t, ci, cj);
                assert(!rotated(icyc@[i], icyc@[j]));
            }
        }
    }
    cycles
}

} // verus!
