//! The dependency tree as numbered lines: a depth-first listing from the
//! entries, where each module is expanded at its first appearance only and
//! every line carries the number of its module in order of first appearance.
use vstd::prelude::*;
use crate::text::{push_str, str_eq, strings_view};
use crate::cycles::key_index;
use crate::types::{DependencyTree, EntryView};
use crate::warnings::{is_builtin, is_builtin_name};

verus! {

pub open spec fn pow10(d: nat) -> nat
    decreases d,
{
    if d == 0 {
        1
    } else {
        10 * pow10((d - 1) as nat)
    }
}

/// The number of digits that numbering `n` items takes: the least `d` with
/// `10^d >= n`.
pub fn number_width(n: usize) -> (r: usize)
    ensures
        pow10(r as nat) >= n,
        r > 0 ==> pow10((r - 1) as nat) < n,
{
    let mut d: usize = 0;
    let mut p: u128 = 1;
    while p < n as u128
        invariant
            p == pow10(d as nat),
            d > 0 ==> pow10((d - 1) as nat) < n,
            1 <= p,
            (d as int) < p,
        decreases n - d,
    {
        assert(pow10((d + 1) as nat) == 10 * pow10(d as nat));
        p = p * 10;
        d = d + 1;
    }
    d
}


/// How a line of the listing shows its module.
#[derive(Clone, Copy, Debug, PartialEq, Eq, Structural)]
pub enum LineStyle {
    /// A built-in module.
    Builtin,
    /// A module listed before; not expanded again.
    Repeated,
    /// A module with no parsed entry in the tree: unresolved or left out.
    Unparsed,
    /// A module expanded here, its dependencies following below it.
    Parsed,
}

/// One line of the listing: its indentation, the number of its module and
/// the module.
#[derive(Clone, Debug)]
pub struct TreeLine {
    pub prefix: String,
    pub number: usize,
    pub item: String,
    pub style: LineStyle,
}

pub open spec fn line_items(lines: Seq<TreeLine>) -> Seq<Seq<char>> {
    Seq::new(lines.len(), |i: int| lines[i].item@)
}

/// The distinct items in order of first appearance.
pub open spec fn firsts(items: Seq<Seq<char>>) -> Seq<Seq<char>>
    decreases items.len(),
{
    if items.len() == 0 {
        Seq::empty()
    } else {
        let f = firsts(items.drop_last());
        if f.contains(items.last()) {
            f
        } else {
            f.push(items.last())
        }
    }
}

/// `id` has an entry with edges in the tree.
pub open spec fn parsed_entry(t: Seq<EntryView>, id: Seq<char>) -> bool {
    exists|i: int| 0 <= i < t.len() && (#[trigger] t[i]).id == id && t[i].deps is Some
}

/// Line `k` is numbered by the first appearance of its module and styled by
/// what the module is and whether it appeared before.
pub open spec fn line_ok(lines: Seq<TreeLine>, t: Seq<EntryView>, k: int) -> bool {
    let items = line_items(lines);
    let item = items[k];
    &&& lines[k].number < firsts(items.take(k + 1)).len()
    &&& firsts(items.take(k + 1))[lines[k].number as int] == item
    &&& (lines[k].style == LineStyle::Builtin) == is_builtin(item)
    &&& (lines[k].style == LineStyle::Repeated) == (!is_builtin(item) && items.take(k).contains(item))
    &&& (lines[k].style == LineStyle::Unparsed) == (!is_builtin(item) && !items.take(k).contains(item) && !parsed_entry(t, item))
}

pub open spec fn lines_ok(lines: Seq<TreeLine>, t: Seq<EntryView>) -> bool {
    forall|k: int| 0 <= k < lines.len() ==> #[trigger] line_ok(lines, t, k)
}

/// The number of keys of the tree not yet listed.
pub open spec fn unlisted_keys(t: Seq<EntryView>, seen: Seq<Seq<char>>) -> nat
    decreases t.len(),
{
    if t.len() == 0 {
        0
    } else {
        unlisted_keys(t.drop_last(), seen) + if seen.contains(t.last().id) { 0nat } else { 1nat }
    }
}

proof fn lemma_unlisted_push(t: Seq<EntryView>, seen: Seq<Seq<char>>, x: Seq<char>)
    ensures
        unlisted_keys(t, seen.push(x)) <= unlisted_keys(t, seen),
        parsed_entry(t, x) && !seen.contains(x) ==> unlisted_keys(t, seen.push(x)) < unlisted_keys(t, seen),
    decreases t.len(),
{
    if t.len() > 0 {
        lemma_unlisted_push(t.drop_last(), seen, x);
        let y = t.last().id;
        assert(seen.push(x).contains(y) <==> (seen.contains(y) || y == x)) by {
            if seen.push(x).contains(y) {
                let k = choose|k: int| 0 <= k < seen.len() + 1 && seen.push(x)[k] == y;
                if k < seen.len() {
                    assert(seen[k] == y);
                }
            }
            if seen.contains(y) {
                let k = choose|k: int| 0 <= k < seen.len() && seen[k] == y;
                assert(seen.push(x)[k] == y);
            }
            if y == x {
                assert(seen.push(x)[seen.len() as int] == y);
            }
        }
        if parsed_entry(t, x) && !seen.contains(x) {
            let i = choose|i: int| 0 <= i < t.len() && (#[trigger] t[i]).id == x && t[i].deps is Some;
            if i < t.len() - 1 {
                assert(t.drop_last()[i].id == x);
                assert(parsed_entry(t.drop_last(), x));
            }
        }
    }
}

proof fn lemma_firsts_contains(items: Seq<Seq<char>>, x: Seq<char>)
    ensures
        firsts(items).contains(x) <==> items.contains(x),
    decreases items.len(),
{
    if items.len() == 0 {
        assert(!items.contains(x));
        assert(!firsts(items).contains(x));
    } else {
        let d = items.drop_last();
        let last = items.last();
        lemma_firsts_contains(d, x);
        let f = firsts(d);
        assert(items =~= d.push(last));
        assert(items.contains(x) <==> (d.contains(x) || x == last)) by {
            if items.contains(x) {
                let k = choose|k: int| 0 <= k < items.len() && items[k] == x;
                if k < d.len() {
                    assert(d[k] == x);
                }
            }
            if d.contains(x) {
                let k = choose|k: int| 0 <= k < d.len() && d[k] == x;
                assert(items[k] == x);
            }
            if x == last {
                assert(items[items.len() - 1] == x);
            }
        }
        if f.contains(last) {
            assert(firsts(items) == f);
            if x == last {
                assert(f.contains(x));
            }
        } else {
            assert(firsts(items) == f.push(last));
            assert(f.push(last).contains(x) <==> (f.contains(x) || x == last)) by {
                if f.push(last).contains(x) {
                    let k = choose|k: int| 0 <= k < f.len() + 1 && f.push(last)[k] == x;
                    if k < f.len() {
                        assert(f[k] == x);
                    }
                }
                if f.contains(x) {
                    let k = choose|k: int| 0 <= k < f.len() && f[k] == x;
                    assert(f.push(last)[k] == x);
                }
                if x == last {
                    assert(f.push(last)[f.len() as int] == x);
                }
            }
        }
    }
}

proof fn lemma_push_line(lines: Seq<TreeLine>, t: Seq<EntryView>, l: TreeLine)
    requires
        lines_ok(lines, t),
        line_ok(lines.push(l), t, lines.len() as int),
    ensures
        lines_ok(lines.push(l), t),
{
    let n = lines.push(l);
    assert forall|k: int| 0 <= k < n.len() implies #[trigger] line_ok(n, t, k) by {
        if k < lines.len() {
            assert(line_ok(lines, t, k));
            assert(line_items(n).take(k + 1) =~= line_items(lines).take(k + 1));
            assert(line_items(n).take(k) =~= line_items(lines).take(k));
            assert(n[k] == lines[k]);
        }
    }
}

/// A line as the listing describes it.
pub ghost struct LineView {
    pub prefix: Seq<char>,
    pub number: nat,
    pub item: Seq<char>,
    pub style: LineStyle,
}

impl View for TreeLine {
    type V = LineView;

    open spec fn view(&self) -> LineView {
        LineView { prefix: self.prefix@, number: self.number as nat, item: self.item@, style: self.style }
    }
}

pub open spec fn lines_view(ls: Seq<TreeLine>) -> Seq<LineView> {
    Seq::new(ls.len(), |i: int| ls[i]@)
}

/// The position of the first `x` in `seen`.
pub open spec fn first_index(seen: Seq<Seq<char>>, x: Seq<char>) -> int {
    choose|i: int| 0 <= i < seen.len() && seen[i] == x && forall|k: int| 0 <= k < i ==> seen[k] != x
}

/// How `item` is shown when the modules in `seen` were listed before it.
pub open spec fn style_of(t: Seq<EntryView>, seen: Seq<Seq<char>>, item: Seq<char>) -> LineStyle {
    if is_builtin(item) {
        LineStyle::Builtin
    } else if seen.contains(item) {
        LineStyle::Repeated
    } else if !parsed_entry(t, item) {
        LineStyle::Unparsed
    } else {
        LineStyle::Parsed
    }
}

/// The module a dependency is listed as: its resolved id, else its request.
pub open spec fn child_of(d: crate::types::DependencyView) -> Seq<char> {
    match d.id {
        Some(x) => x,
        None => d.request,
    }
}

/// The prefix of the lines below a line with `prefix`.
pub open spec fn indent(prefix: Seq<char>, has_more: bool) -> Seq<char> {
    prefix + if has_more { "\u{b7}   "@ } else { "    "@ }
}

/// The edges of the entry of `id`.
pub open spec fn entry_deps(t: Seq<EntryView>, id: Seq<char>) -> Seq<crate::types::DependencyView> {
    t[key_index(t, id)].deps->0
}

/// The lines of `item` and, at its first appearance as a parsed module, of
/// its dependencies below it; with the modules listed afterwards. `n` bounds
/// the modules still to expand.
pub open spec fn list_item(t: Seq<EntryView>, item: Seq<char>, prefix: Seq<char>, has_more: bool, seen: Seq<Seq<char>>, n: nat) -> (Seq<LineView>, Seq<Seq<char>>)
    decreases n, 0int, 0int,
{
    let is_new = !seen.contains(item);
    let number: nat = if is_new { seen.len() } else { first_index(seen, item) as nat };
    let seen1 = if is_new { seen.push(item) } else { seen };
    let line = LineView { prefix, number, item, style: style_of(t, seen, item) };
    if style_of(t, seen, item) == LineStyle::Parsed && unlisted_keys(t, seen1) < n {
        let rest = list_children(t, entry_deps(t, item), 0, indent(prefix, has_more), seen1, unlisted_keys(t, seen1));
        (seq![line] + rest.0, rest.1)
    } else {
        (seq![line], seen1)
    }
}

/// The lines of the dependencies from the `j`-th on, each with its own.
pub open spec fn list_children(t: Seq<EntryView>, ds: Seq<crate::types::DependencyView>, j: int, prefix: Seq<char>, seen: Seq<Seq<char>>, n: nat) -> (Seq<LineView>, Seq<Seq<char>>)
    decreases n, 1int, ds.len() - j,
{
    if j < 0 || j >= ds.len() {
        (Seq::empty(), seen)
    } else {
        let a = list_item(t, child_of(ds[j]), prefix, j + 1 < ds.len(), seen, n);
        let b = list_children(t, ds, j + 1, prefix, a.1, n);
        (a.0 + b.0, b.1)
    }
}

/// The lines of the entries from the `i`-th on.
pub open spec fn list_roots(t: Seq<EntryView>, es: Seq<Seq<char>>, i: int, prefix: Seq<char>, seen: Seq<Seq<char>>) -> (Seq<LineView>, Seq<Seq<char>>)
    decreases es.len() - i,
{
    if i < 0 || i >= es.len() {
        (Seq::empty(), seen)
    } else {
        let a = list_item(t, es[i], prefix, i + 1 < es.len(), seen, unlisted_keys(t, seen) + 1);
        let b = list_roots(t, es, i + 1, prefix, a.1);
        (a.0 + b.0, b.1)
    }
}

fn find_string(v: &Vec<String>, x: &str) -> (r: Option<usize>)
    ensures
        r matches Some(i) ==> i < v.len() && v@[i as int]@ == x@ && forall|k: int| 0 <= k < i ==> v@[k]@ != x@,
        r is None <==> !strings_view(v@).contains(x@),
{
    let mut i: usize = 0;
    while i < v.len()
        invariant
            i <= v.len(),
            forall|k: int| 0 <= k < i ==> v@[k]@ != x@,
        decreases v.len() - i,
    {
        if str_eq(v[i].as_str(), x) {
            assert(strings_view(v@)[i as int] == x@);
            return Some(i);
        }
        i = i + 1;
    }
    assert(!strings_view(v@).contains(x@)) by {
        if strings_view(v@).contains(x@) {
            let k = choose|k: int| 0 <= k < v@.len() && strings_view(v@)[k] == x@;
            assert(v@[k]@ == x@);
        }
    }
    None
}

fn copy_string(s: &String) -> (r: String)
    ensures
        r@ == s@,
{
    s.clone()
}

/// Lists `item` and, at its first appearance, what it depends on.
fn visit_item(
    tree: &DependencyTree,
    item: String,
    prefix: String,
    has_more: bool,
    lines: &mut Vec<TreeLine>,
    seen: &mut Vec<String>,
)
    requires
        tree.wf(),
        strings_view(old(seen)@) == firsts(line_items(old(lines)@)),
        lines_ok(old(lines)@, tree@),
    ensures
        strings_view(final(seen)@) == firsts(line_items(final(lines)@)),
        lines_ok(final(lines)@, tree@),
        unlisted_keys(tree@, strings_view(final(seen)@)) <= unlisted_keys(tree@, strings_view(old(seen)@)),
        final(lines)@.len() > old(lines)@.len(),
        forall|k: int| 0 <= k < old(lines)@.len() ==> #[trigger] final(lines)@[k] == old(lines)@[k],
        final(lines)@[old(lines)@.len() as int].item@ == item@,
        final(lines)@[old(lines)@.len() as int].prefix@ == prefix@,
        forall|n: nat| n >= unlisted_keys(tree@, strings_view(old(seen)@)) ==>
            #[trigger] list_item(tree@, item@, prefix@, has_more, strings_view(old(seen)@), n)
                == (lines_view(final(lines)@).skip(old(lines)@.len() as int), strings_view(final(seen)@)),
    decreases unlisted_keys(tree@, strings_view(old(seen)@)),
{
    let ghost t = tree@;
    let ghost seen0 = strings_view(seen@);
    let ghost items0 = line_items(lines@);
    let found = find_string(seen, item.as_str());
    let is_new = found.is_none();
    let number = match found {
        Some(p) => p,
        None => {
            seen.push(copy_string(&item));
            seen.len() - 1
        }
    };
    let builtin = is_builtin_name(item.as_str());
    let pos = tree.position(item.as_str());
    let parsed = match pos {
        Some(i) => tree.entries[i].deps.is_some(),
        None => false,
    };
    proof {
        lemma_firsts_contains(items0, item@);
        lemma_unlisted_push(t, seen0, item@);
        if parsed {
            let i = pos.unwrap();
            assert(t[i as int].id == item@ && t[i as int].deps is Some);
            assert(parsed_entry(t, item@));
        } else {
            if parsed_entry(t, item@) {
                let i = choose|i: int| 0 <= i < t.len() && (#[trigger] t[i]).id == item@ && t[i].deps is Some;
                assert(t[i].id == item@);
                assert(crate::types::has_key(t, item@));
            }
        }
    }
    let style = if builtin {
        LineStyle::Builtin
    } else if !is_new {
        LineStyle::Repeated
    } else if !parsed {
        LineStyle::Unparsed
    } else {
        LineStyle::Parsed
    };
    let ghost seen1v = strings_view(seen@);
    proof {
        assert(style == style_of(t, seen0, item@));
        if is_new {
            assert(seen1v =~= seen0.push(item@));
            assert(number == seen0.len());
        } else {
            assert(seen1v =~= seen0);
            let p = found.unwrap();
            let c = first_index(seen0, item@);
            assert(seen0[p as int] == item@);
            assert(0 <= c < seen0.len() && seen0[c] == item@ && forall|k: int| 0 <= k < c ==> seen0[k] != item@);
            assert(c == p);
        }
    }
    let line = TreeLine { prefix: copy_string(&prefix), number, item: copy_string(&item), style };
    let ghost old_lines = lines@;
    let ghost the_line = line;
    lines.push(line);
    proof {
        let items1 = line_items(lines@);
        assert(items1 =~= items0.push(item@));
        assert(items1.take(old_lines.len() as int) =~= items0);
        assert(items1.take(old_lines.len() as int + 1) =~= items1);
        assert(items1.drop_last() =~= items0);
        if is_new {
            assert(strings_view(seen@) =~= seen0.push(item@));
        } else {
            assert(strings_view(seen@) =~= seen0);
        }
        assert(line_ok(lines@, t, old_lines.len() as int));
        lemma_push_line(old_lines, t, line);
    }
    if style == LineStyle::Parsed {
        let i = pos.unwrap();
        let mut new_prefix = copy_string(&prefix);
        if has_more {
            push_str(&mut new_prefix, "\u{b7}   ");
        } else {
            push_str(&mut new_prefix, "    ");
        }
        let ghost p2 = new_prefix@;
        assert(p2 == indent(prefix@, has_more));
        match &tree.entries[i].deps {
            Some(deps) => {
                let ghost seen1 = strings_view(seen@);
                let ghost ds = crate::types::deps_view(deps@);
                let ghost n1 = unlisted_keys(t, seen1);
                let ghost l1: int = old_lines.len() as int + 1;
                proof {
                    assert(t[i as int].id == item@);
                    assert(crate::types::has_key(t, item@));
                    let ki = key_index(t, item@);
                    assert(t[ki].id == item@);
                    assert(ki == i);
                    assert(ds == entry_deps(t, item@));
                    assert(lines_view(lines@).skip(l1) =~= Seq::<LineView>::empty());
                    assert(list_children(t, ds, 0, p2, seen1, n1).0 =~= lines_view(lines@).skip(l1) + list_children(t, ds, 0, p2, seen1, n1).0);
                }
                let mut j: usize = 0;
                while j < deps.len()
                    invariant
                        new_prefix@ == p2,
                        ds == crate::types::deps_view(deps@),
                        l1 == old_lines.len() + 1,
                        n1 == unlisted_keys(t, seen1),
                        list_children(t, ds, 0, p2, seen1, n1).0
                            == lines_view(lines@).skip(l1) + list_children(t, ds, j as int, p2, strings_view(seen@), n1).0,
                        list_children(t, ds, 0, p2, seen1, n1).1 == list_children(t, ds, j as int, p2, strings_view(seen@), n1).1,
                        tree.wf(),
                        t == tree@,
                        j <= deps.len(),
                        seen0 == strings_view(old(seen)@),
                        strings_view(seen@) == firsts(line_items(lines@)),
                        lines_ok(lines@, t),
                        unlisted_keys(t, strings_view(seen@)) <= unlisted_keys(t, seen1),
                        unlisted_keys(t, seen1) < unlisted_keys(t, seen0),
                        lines@.len() > old_lines.len(),
                        forall|k: int| 0 <= k <= old_lines.len() ==> #[trigger] lines@[k] == old_lines.push(the_line)[k],
                    decreases deps.len() - j,
                {
                    let child = match &deps[j].id {
                        Some(x) => copy_string(x),
                        None => copy_string(&deps[j].request),
                    };
                    let ghost before = lines@;
                    let ghost sj = strings_view(seen@);
                    let ghost cv = child@;
                    assert(ds[j as int] == deps@[j as int]@);
                    assert(cv == child_of(ds[j as int]));
                    visit_item(tree, child, copy_string(&new_prefix), j + 1 < deps.len(), lines, seen);
                    assert forall|k: int| 0 <= k <= old_lines.len() implies #[trigger] lines@[k] == old_lines.push(the_line)[k] by {
                        assert(lines@[k] == before[k]);
                    }
                    proof {
                        let a = list_item(t, cv, p2, j + 1 < deps.len(), sj, n1);
                        assert(a == (lines_view(lines@).skip(before.len() as int), strings_view(seen@)));
                        assert(lines_view(lines@).skip(l1) =~= lines_view(before).skip(l1) + lines_view(lines@).skip(before.len() as int)) by {
                            assert forall|k: int| 0 <= k < before.len() implies lines_view(lines@)[k] == lines_view(before)[k] by {
                                assert(lines@[k] == before[k]);
                            }
                        }
                        let rest = list_children(t, ds, j + 1, p2, a.1, n1);
                        assert(list_children(t, ds, j as int, p2, sj, n1) == (a.0 + rest.0, rest.1));
                        assert(list_children(t, ds, 0, p2, seen1, n1).0 =~= lines_view(lines@).skip(l1) + rest.0);
                    }
                    j = j + 1;
                }
                proof {
                    let sv = strings_view(seen@);
                    assert(list_children(t, ds, deps.len() as int, p2, sv, n1) == (Seq::<LineView>::empty(), sv));
                    assert(lines_view(lines@).skip(old_lines.len() as int) =~= seq![the_line@] + lines_view(lines@).skip(l1)) by {
                        assert(lines@[old_lines.len() as int] == the_line);
                    }
                    assert forall|n: nat| n >= unlisted_keys(t, seen0) implies #[trigger] list_item(t, item@, prefix@, has_more, seen0, n)
                        == (lines_view(lines@).skip(old_lines.len() as int), sv) by {
                        assert(unlisted_keys(t, seen1) < n);
                    }
                }
            }
            None => {}
        }
    } else {
        proof {
            assert(lines_view(lines@).skip(old_lines.len() as int) =~= seq![the_line@]);
            assert forall|n: nat| n >= unlisted_keys(t, seen0) implies #[trigger] list_item(t, item@, prefix@, has_more, seen0, n)
                == (lines_view(lines@).skip(old_lines.len() as int), strings_view(seen@)) by {
            }
        }
    }
}


/// The listing of the tree from `entries`, as `list_roots` says: a
/// depth-first walk where a module is expanded below its first line only,
/// children indented under their parent. Each line is numbered by the first
/// appearance of its module and styled by what the module is; each entry has
/// a line with `prefix`.
pub fn tree_lines(tree: &DependencyTree, entries: &Vec<String>, prefix: &str) -> (r: Vec<TreeLine>)
    requires
        tree.wf(),
    ensures
        lines_view(r@) == list_roots(tree@, strings_view(entries@), 0, prefix@, Seq::empty()).0,
        lines_ok(r@, tree@),
        forall|e: int| 0 <= e < entries@.len() ==> exists|k: int| 0 <= k < r@.len() && #[trigger] r@[k].item@ == (#[trigger] entries@[e])@ && r@[k].prefix@ == prefix@,
{
    let mut lines: Vec<TreeLine> = Vec::new();
    let mut seen: Vec<String> = Vec::new();
    let mut p = String::new();
    push_str(&mut p, prefix);
    assert(p@ =~= prefix@);
    assert(strings_view(seen@) =~= firsts(line_items(lines@)));
    let ghost es = strings_view(entries@);
    let ghost whole = list_roots(tree@, es, 0, prefix@, Seq::empty());
    assert(lines_view(lines@) =~= Seq::<LineView>::empty());
    assert(whole.0 =~= lines_view(lines@) + whole.0);
    let mut i: usize = 0;
    while i < entries.len()
        invariant
            es == strings_view(entries@),
            whole == list_roots(tree@, es, 0, prefix@, Seq::empty()),
            whole.0 == lines_view(lines@) + list_roots(tree@, es, i as int, prefix@, strings_view(seen@)).0,
            tree.wf(),
            i <= entries.len(),
            p@ == prefix@,
            strings_view(seen@) == firsts(line_items(lines@)),
            lines_ok(lines@, tree@),
            forall|e: int| 0 <= e < i ==> exists|k: int| 0 <= k < lines@.len() && #[trigger] lines@[k].item@ == (#[trigger] entries@[e])@ && lines@[k].prefix@ == prefix@,
        decreases entries.len() - i,
    {
        let ghost before = lines@;
        let ghost sv = strings_view(seen@);
        visit_item(tree, copy_string(&entries[i]), copy_string(&p), i + 1 < entries.len(), &mut lines, &mut seen);
        proof {
            let a = list_item(tree@, es[i as int], prefix@, i + 1 < entries.len(), sv, unlisted_keys(tree@, sv) + 1);
            assert(a == (lines_view(lines@).skip(before.len() as int), strings_view(seen@)));
            assert(lines_view(lines@) =~= lines_view(before) + lines_view(lines@).skip(before.len() as int)) by {
                assert forall|k: int| 0 <= k < before.len() implies lines_view(lines@)[k] == lines_view(before)[k] by {
                    assert(lines@[k] == before[k]);
                }
            }
            let rest = list_roots(tree@, es, i + 1, prefix@, a.1);
            assert(list_roots(tree@, es, i as int, prefix@, sv) == (a.0 + rest.0, rest.1));
            assert(whole.0 =~= lines_view(lines@) + rest.0);
        }
        assert forall|e: int| 0 <= e < i + 1 implies exists|k: int| 0 <= k < lines@.len() && #[trigger] lines@[k].item@ == (#[trigger] entries@[e])@ && lines@[k].prefix@ == prefix@ by {
            if e < i {
                let k = choose|k: int| 0 <= k < before.len() && #[trigger] before[k].item@ == entries@[e]@ && before[k].prefix@ == prefix@;
                assert(lines@[k] == before[k]);
            } else {
                assert(lines@[before.len() as int].item@ == entries@[e]@);
            }
        }
        i = i + 1;
    }
    assert(list_roots(tree@, es, entries.len() as int, prefix@, strings_view(seen@)).0 =~= Seq::<LineView>::empty());
    assert(lines_view(lines@) =~= whole.0);
    lines
}

} // verus!
