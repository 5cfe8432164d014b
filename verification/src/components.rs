//! The match graph between files and its connected parts, the model that
//! duplicate groups are stated in.
//!
//! A graph lists, for each file, the files it matches: an entry is a file's
//! path and the paths that it matches, in the order they were found.
use vstd::prelude::*;
use crate::paths::{lemma_path_before_properties, path_before, path_order, same_path, strictly_sorted, views};

verus! {

broadcast use vstd::seq_lib::group_seq_properties, vstd::seq_lib::group_to_multiset_ensures;

/// The view of an adjacency list: each file's path and the paths it matches.
pub open spec fn graph_of(adj: Seq<(String, Vec<String>)>) -> Seq<(Seq<char>, Seq<Seq<char>>)> {
    adj.map_values(|e: (String, Vec<String>)| (e.0@, views(e.1@)))
}

/// No file is listed twice.
pub open spec fn keys_distinct(g: Seq<(Seq<char>, Seq<Seq<char>>)>) -> bool {
    forall|i: int, j: int| 0 <= i < j < g.len() ==> #[trigger] g[i].0 != #[trigger] g[j].0
}

/// `x` is listed in `g`.
pub open spec fn is_key(g: Seq<(Seq<char>, Seq<Seq<char>>)>, x: Seq<char>) -> bool {
    exists|i: int| 0 <= i < g.len() && #[trigger] g[i].0 == x
}

/// The files listed as matches of `x`; none when `x` is not listed.
pub open spec fn neighbours(g: Seq<(Seq<char>, Seq<Seq<char>>)>, x: Seq<char>) -> Seq<Seq<char>> {
    if is_key(g, x) {
        g[choose|i: int| 0 <= i < g.len() && #[trigger] g[i].0 == x].1
    } else {
        Seq::empty()
    }
}

/// `x` is listed with `y` among its matches.
pub open spec fn edge(g: Seq<(Seq<char>, Seq<Seq<char>>)>, x: Seq<char>, y: Seq<char>) -> bool {
    exists|i: int| 0 <= i < g.len() && #[trigger] g[i].0 == x && g[i].1.contains(y)
}

/// `p` is a walk along matches.
pub open spec fn is_walk(g: Seq<(Seq<char>, Seq<Seq<char>>)>, p: Seq<Seq<char>>) -> bool {
    &&& p.len() >= 1
    &&& forall|k: int| 0 <= k < p.len() - 1 ==> edge(g, #[trigger] p[k], p[k + 1])
}

/// `y` can be reached from `x` by following matches (every file reaches itself).
pub open spec fn reaches(g: Seq<(Seq<char>, Seq<Seq<char>>)>, x: Seq<char>, y: Seq<char>) -> bool {
    exists|p: Seq<Seq<char>>| #[trigger] is_walk(g, p) && p[0] == x && p.last() == y
}

/// Every file reachable from `x`, `x` included.
pub open spec fn component(g: Seq<(Seq<char>, Seq<Seq<char>>)>, x: Seq<char>) -> Set<Seq<char>> {
    Set::new(|y: Seq<char>| reaches(g, x, y))
}

/// The listed files in the path order.
pub open spec fn sorted_keys(g: Seq<(Seq<char>, Seq<Seq<char>>)>) -> Seq<Seq<char>> {
    g.map_values(|e: (Seq<char>, Seq<Seq<char>>)| e.0).sort_by(path_order())
}

/// The groups found, and the files they cover, after the first `i` of `keys`
/// have been considered in turn: a file that is not yet covered and has at
/// least one match opens the group of everything reachable from it.
pub open spec fn groups_after(
    g: Seq<(Seq<char>, Seq<Seq<char>>)>,
    keys: Seq<Seq<char>>,
    i: nat,
) -> (Seq<Set<Seq<char>>>, Set<Seq<char>>)
    decreases i,
{
    if i == 0 || i > keys.len() {
        (Seq::empty(), Set::empty())
    } else {
        let prev = groups_after(g, keys, (i - 1) as nat);
        let k = keys[i - 1];
        if prev.1.contains(k) || neighbours(g, k).len() == 0 {
            prev
        } else {
            (prev.0.push(component(g, k)), prev.1.union(component(g, k)))
        }
    }
}

/// The duplicate groups of a match graph, as sets of paths, in the order of
/// the files that open them.
pub open spec fn duplicate_sets(g: Seq<(Seq<char>, Seq<Seq<char>>)>) -> Seq<Set<Seq<char>>> {
    groups_after(g, sorted_keys(g), sorted_keys(g).len()).0
}

/// Every path that occurs in the graph, as a key or as a match.
pub open spec fn vertex_list(g: Seq<(Seq<char>, Seq<Seq<char>>)>) -> Seq<Seq<char>>
    decreases g.len(),
{
    if g.len() == 0 {
        Seq::empty()
    } else {
        vertex_list(g.drop_last()) + seq![g.last().0] + g.last().1
    }
}

/// Each file of the graph is written one way: two names in the graph that
/// name one path, component by component, are the same text. On such a graph
/// comparing names as text compares them as paths.
pub open spec fn one_spelling(g: Seq<(Seq<char>, Seq<Seq<char>>)>) -> bool {
    forall|a: Seq<char>, b: Seq<char>|
        #![trigger vertex_list(g).contains(a), vertex_list(g).contains(b)]
        vertex_list(g).contains(a) && vertex_list(g).contains(b) && same_path(a, b) ==> a == b
}

/// Every name in the graph is a file listed in it or one of its matches.
pub proof fn lemma_vertex_list_members(g: Seq<(Seq<char>, Seq<Seq<char>>)>, y: Seq<char>)
    requires
        vertex_list(g).contains(y),
    ensures
        exists|i: int| 0 <= i < g.len() && (#[trigger] g[i].0 == y || g[i].1.contains(y)),
    decreases g.len(),
{
    if g.len() > 0 {
        let a = vertex_list(g.drop_last());
        let k = choose|k: int| 0 <= k < vertex_list(g).len() && vertex_list(g)[k] == y;
        let last = g.len() - 1;
        if k < a.len() {
            assert(a[k] == y);
            lemma_vertex_list_members(g.drop_last(), y);
            let i = choose|i: int| 0 <= i < g.drop_last().len() && (#[trigger] g.drop_last()[i].0 == y || g.drop_last()[i].1.contains(y));
            assert(g[i] == g.drop_last()[i]);
        } else if k == a.len() {
            assert(g[last].0 == y);
        } else {
            assert(g[last].1[k - a.len() - 1] == y);
            assert(g[last].1.contains(y));
        }
    }
}

pub proof fn lemma_vertex_list_contains(g: Seq<(Seq<char>, Seq<Seq<char>>)>, i: int, y: Seq<char>)
    requires
        0 <= i < g.len(),
        y == g[i].0 || g[i].1.contains(y),
    ensures
        vertex_list(g).contains(y),
    decreases g.len(),
{
    if i < g.len() - 1 {
        lemma_vertex_list_contains(g.drop_last(), i, y);
        let a = vertex_list(g.drop_last());
        let j = choose|j: int| 0 <= j < a.len() && a[j] == y;
        assert(vertex_list(g)[j] == y);
    } else {
        let a = vertex_list(g.drop_last());
        if y == g[i].0 {
            assert(vertex_list(g)[a.len() as int] == y);
        } else {
            let j = choose|j: int| 0 <= j < g[i].1.len() && g[i].1[j] == y;
            assert(vertex_list(g)[a.len() + 1 + j] == y);
        }
    }
}

/// With distinct keys, the matches of the file at position `i` are its neighbours.
pub proof fn lemma_neighbours_at(g: Seq<(Seq<char>, Seq<Seq<char>>)>, i: int)
    requires
        keys_distinct(g),
        0 <= i < g.len(),
    ensures
        is_key(g, g[i].0),
        neighbours(g, g[i].0) == g[i].1,
        forall|y: Seq<char>| edge(g, g[i].0, y) <==> g[i].1.contains(y),
{
    assert(is_key(g, g[i].0));
    let j = choose|j: int| 0 <= j < g.len() && #[trigger] g[j].0 == g[i].0;
    assert(j == i);
    assert forall|y: Seq<char>| edge(g, g[i].0, y) implies g[i].1.contains(y) by {
        let k = choose|k: int| 0 <= k < g.len() && #[trigger] g[k].0 == g[i].0 && g[k].1.contains(y);
        assert(k == i);
    }
}

/// A file that is not listed has no matches.
pub proof fn lemma_no_key_no_edge(g: Seq<(Seq<char>, Seq<Seq<char>>)>, x: Seq<char>, y: Seq<char>)
    requires
        !is_key(g, x),
    ensures
        !edge(g, x, y),
{
}

/// Every file reaches itself.
pub proof fn lemma_reaches_self(g: Seq<(Seq<char>, Seq<Seq<char>>)>, x: Seq<char>)
    ensures
        reaches(g, x, x),
{
    let p = seq![x];
    assert(is_walk(g, p));
}

/// A walk extended by one match is a walk.
pub proof fn lemma_reaches_step(
    g: Seq<(Seq<char>, Seq<Seq<char>>)>,
    x: Seq<char>,
    m: Seq<char>,
    y: Seq<char>,
)
    requires
        reaches(g, x, m),
        edge(g, m, y),
    ensures
        reaches(g, x, y),
{
    let p = choose|p: Seq<Seq<char>>| #[trigger] is_walk(g, p) && p[0] == x && p.last() == m;
    let q = p.push(y);
    assert forall|k: int| 0 <= k < q.len() - 1 implies edge(g, #[trigger] q[k], q[k + 1]) by {
        if k < p.len() - 1 {
            assert(q[k] == p[k] && q[k + 1] == p[k + 1]);
        }
    }
    assert(is_walk(g, q));
}

/// A set that holds `x` and is closed under matches holds everything `x` reaches.
pub proof fn lemma_closed_holds_component(
    g: Seq<(Seq<char>, Seq<Seq<char>>)>,
    s: Set<Seq<char>>,
    x: Seq<char>,
    y: Seq<char>,
)
    requires
        s.contains(x),
        forall|m: Seq<char>, z: Seq<char>| s.contains(m) && #[trigger] edge(g, m, z) ==> s.contains(z),
        reaches(g, x, y),
    ensures
        s.contains(y),
{
    let p = choose|p: Seq<Seq<char>>| #[trigger] is_walk(g, p) && p[0] == x && p.last() == y;
    lemma_walk_stays(g, s, p, p.len() - 1);
}

proof fn lemma_walk_stays(g: Seq<(Seq<char>, Seq<Seq<char>>)>, s: Set<Seq<char>>, p: Seq<Seq<char>>, k: int)
    requires
        is_walk(g, p),
        0 <= k < p.len(),
        s.contains(p[0]),
        forall|m: Seq<char>, z: Seq<char>| s.contains(m) && #[trigger] edge(g, m, z) ==> s.contains(z),
    ensures
        s.contains(p[k]),
    decreases k,
{
    if k > 0 {
        lemma_walk_stays(g, s, p, k - 1);
        assert(edge(g, p[k - 1], p[k]));
    }
}


/// Every match is mutual: `x` lists `y` exactly when `y` lists `x`.
pub open spec fn symmetric_graph(g: Seq<(Seq<char>, Seq<Seq<char>>)>) -> bool {
    forall|x: Seq<char>, y: Seq<char>| #[trigger] edge(g, x, y) ==> edge(g, y, x)
}

/// No file lists itself among its matches.
pub open spec fn irreflexive_graph(g: Seq<(Seq<char>, Seq<Seq<char>>)>) -> bool {
    forall|x: Seq<char>| !#[trigger] edge(g, x, x)
}

proof fn lemma_reaches_trans(g: Seq<(Seq<char>, Seq<Seq<char>>)>, x: Seq<char>, y: Seq<char>, z: Seq<char>)
    requires
        reaches(g, x, y),
        reaches(g, y, z),
    ensures
        reaches(g, x, z),
{
    let q = choose|q: Seq<Seq<char>>| #[trigger] is_walk(g, q) && q[0] == y && q.last() == z;
    lemma_reaches_along(g, x, q, q.len() - 1);
}

proof fn lemma_reaches_along(g: Seq<(Seq<char>, Seq<Seq<char>>)>, x: Seq<char>, q: Seq<Seq<char>>, k: int)
    requires
        is_walk(g, q),
        reaches(g, x, q[0]),
        0 <= k < q.len(),
    ensures
        reaches(g, x, q[k]),
    decreases k,
{
    if k > 0 {
        lemma_reaches_along(g, x, q, k - 1);
        assert(edge(g, q[k - 1], q[k]));
        lemma_reaches_step(g, x, q[k - 1], q[k]);
    }
}

proof fn lemma_reaches_symmetric(g: Seq<(Seq<char>, Seq<Seq<char>>)>, x: Seq<char>, y: Seq<char>)
    requires
        symmetric_graph(g),
        reaches(g, x, y),
    ensures
        reaches(g, y, x),
{
    let p = choose|p: Seq<Seq<char>>| #[trigger] is_walk(g, p) && p[0] == x && p.last() == y;
    lemma_reaches_back(g, p, p.len() - 1);
}

proof fn lemma_reaches_back(g: Seq<(Seq<char>, Seq<Seq<char>>)>, p: Seq<Seq<char>>, k: int)
    requires
        symmetric_graph(g),
        is_walk(g, p),
        0 <= k < p.len(),
    ensures
        reaches(g, p[k], p[0]),
    decreases k,
{
    if k == 0 {
        lemma_reaches_self(g, p[0]);
    } else {
        lemma_reaches_back(g, p, k - 1);
        assert(edge(g, p[k - 1], p[k]));
        assert(edge(g, p[k], p[k - 1]));
        lemma_reaches_self(g, p[k]);
        lemma_reaches_step(g, p[k], p[k], p[k - 1]);
        lemma_reaches_trans(g, p[k], p[k - 1], p[0]);
    }
}

/// One step of `groups_after`: the state after considering `k`.
pub open spec fn grouping_step(
    g: Seq<(Seq<char>, Seq<Seq<char>>)>,
    prev: (Seq<Set<Seq<char>>>, Set<Seq<char>>),
    k: Seq<char>,
) -> (Seq<Set<Seq<char>>>, Set<Seq<char>>) {
    if prev.1.contains(k) || neighbours(g, k).len() == 0 {
        prev
    } else {
        (prev.0.push(component(g, k)), prev.1.union(component(g, k)))
    }
}

/// `s` is the component of one of its files, and that file has matches.
pub open spec fn opened_by_member(g: Seq<(Seq<char>, Seq<Seq<char>>)>, s: Set<Seq<char>>) -> bool {
    exists|k: Seq<char>| s == component(g, k) && neighbours(g, k).len() > 0 && #[trigger] s.contains(k)
}

/// Each group is the component of a file that has matches and lies in it.
pub open spec fn groups_opened(g: Seq<(Seq<char>, Seq<Seq<char>>)>, gs: Seq<Set<Seq<char>>>) -> bool {
    forall|i: int| 0 <= i < gs.len() ==> opened_by_member(g, #[trigger] gs[i])
}

/// The groups and the covered files of a grouping state agree, and no two groups meet.
pub open spec fn state_consistent(st: (Seq<Set<Seq<char>>>, Set<Seq<char>>)) -> bool {
    &&& forall|i: int| 0 <= i < st.0.len() ==> (#[trigger] st.0[i]).subset_of(st.1)
    &&& forall|x: Seq<char>| st.1.contains(x) ==> exists|i: int| 0 <= i < st.0.len() && #[trigger] st.0[i].contains(x)
    &&& forall|i: int, j: int| 0 <= i < j < st.0.len() ==> (#[trigger] st.0[i]).disjoint(#[trigger] st.0[j])
}

proof fn lemma_opened_at(
    g: Seq<(Seq<char>, Seq<Seq<char>>)>,
    prev: (Seq<Set<Seq<char>>>, Set<Seq<char>>),
    k: Seq<char>,
    i: int,
)
    requires
        groups_opened(g, prev.0),
        !prev.1.contains(k),
        neighbours(g, k).len() > 0,
        0 <= i <= prev.0.len(),
    ensures
        opened_by_member(g, prev.0.push(component(g, k))[i]),
{
    let gs = prev.0.push(component(g, k));
    if i < prev.0.len() {
        assert(gs[i] == prev.0[i]);
        let k2 = choose|k2: Seq<char>| prev.0[i] == component(g, k2) && neighbours(g, k2).len() > 0
            && #[trigger] prev.0[i].contains(k2);
        assert(gs[i].contains(k2));
    } else {
        assert(gs[i] == component(g, k));
        lemma_reaches_self(g, k);
        assert(gs[i].contains(k));
    }
}

proof fn lemma_opened_push(
    g: Seq<(Seq<char>, Seq<Seq<char>>)>,
    prev: (Seq<Set<Seq<char>>>, Set<Seq<char>>),
    k: Seq<char>,
)
    requires
        groups_opened(g, prev.0),
        !prev.1.contains(k),
        neighbours(g, k).len() > 0,
    ensures
        groups_opened(g, prev.0.push(component(g, k))),
{
    let gs = prev.0.push(component(g, k));
    assert forall|i: int| 0 <= i < gs.len() implies opened_by_member(g, #[trigger] gs[i]) by {
        lemma_opened_at(g, prev, k, i);
    }
}

proof fn lemma_step_keeps_state(
    g: Seq<(Seq<char>, Seq<Seq<char>>)>,
    prev: (Seq<Set<Seq<char>>>, Set<Seq<char>>),
    k: Seq<char>,
)
    requires
        symmetric_graph(g),
        groups_opened(g, prev.0),
        state_consistent(prev),
    ensures
        groups_opened(g, grouping_step(g, prev, k).0),
        state_consistent(grouping_step(g, prev, k)),
        neighbours(g, k).len() > 0 ==> grouping_step(g, prev, k).1.contains(k),
        prev.1.subset_of(grouping_step(g, prev, k).1),
{
    if prev.1.contains(k) || neighbours(g, k).len() == 0 {
    } else {
        let st = grouping_step(g, prev, k);
        let c = component(g, k);
        lemma_reaches_self(g, k);
        assert(c.contains(k));
        lemma_opened_push(g, prev, k);
        assert(st.0 == prev.0.push(c));
        assert forall|i: int| 0 <= i < st.0.len() implies (#[trigger] st.0[i]).subset_of(st.1) by {
            if i < prev.0.len() {
                assert(st.0[i] == prev.0[i]);
            }
        }
        assert forall|x: Seq<char>| st.1.contains(x) implies exists|i: int| 0 <= i < st.0.len() && #[trigger] st.0[i].contains(x) by {
            if prev.1.contains(x) {
                let i = choose|i: int| 0 <= i < prev.0.len() && #[trigger] prev.0[i].contains(x);
                assert(st.0[i] == prev.0[i]);
            } else {
                assert(st.0[prev.0.len() as int] == c);
            }
        }
        assert forall|i: int, j: int| 0 <= i < j < st.0.len() implies (#[trigger] st.0[i]).disjoint(
            #[trigger] st.0[j],
        ) by {
            if j == prev.0.len() {
                lemma_new_group_disjoint(g, prev, k, i);
                assert(st.0[i] == prev.0[i]);
                assert(st.0[j] == c);
            } else {
                assert(st.0[i] == prev.0[i]);
                assert(st.0[j] == prev.0[j]);
            }
        }
    }
}

proof fn lemma_new_group_disjoint(
    g: Seq<(Seq<char>, Seq<Seq<char>>)>,
    prev: (Seq<Set<Seq<char>>>, Set<Seq<char>>),
    k: Seq<char>,
    i: int,
)
    requires
        symmetric_graph(g),
        groups_opened(g, prev.0),
        state_consistent(prev),
        !prev.1.contains(k),
        0 <= i < prev.0.len(),
    ensures
        prev.0[i].disjoint(component(g, k)),
{
    let c = component(g, k);
    let ki = choose|k2: Seq<char>| prev.0[i] == component(g, k2) && neighbours(g, k2).len() > 0
        && #[trigger] prev.0[i].contains(k2);
    assert forall|x: Seq<char>| !(prev.0[i].contains(x) && c.contains(x)) by {
        if prev.0[i].contains(x) && c.contains(x) {
            lemma_reaches_symmetric(g, k, x);
            lemma_reaches_trans(g, ki, x, k);
            assert(prev.0[i].contains(k));
            assert(prev.0[i].subset_of(prev.1));
        }
    }
}

proof fn lemma_groups_after_facts(g: Seq<(Seq<char>, Seq<Seq<char>>)>, keys: Seq<Seq<char>>, n: nat)
    requires
        symmetric_graph(g),
        n <= keys.len(),
    ensures
        groups_opened(g, groups_after(g, keys, n).0),
        state_consistent(groups_after(g, keys, n)),
        forall|q: int| 0 <= q < n && q < keys.len() && neighbours(g, keys[q]).len() > 0 ==> groups_after(
            g,
            keys,
            n,
        ).1.contains(#[trigger] keys[q]),
    decreases n,
{
    if n == 0 {
    } else {
        lemma_groups_after_facts(g, keys, (n - 1) as nat);
        let prev = groups_after(g, keys, (n - 1) as nat);
        let k = keys[n - 1];
        assert(groups_after(g, keys, n) == grouping_step(g, prev, k));
        lemma_step_keeps_state(g, prev, k);
    }
}

/// Law: in a graph of mutual matches, duplicate groups never share a file.
pub proof fn lemma_duplicate_groups_disjoint(g: Seq<(Seq<char>, Seq<Seq<char>>)>, i: int, j: int)
    requires
        symmetric_graph(g),
        0 <= i < j < duplicate_sets(g).len(),
    ensures
        duplicate_sets(g)[i].disjoint(duplicate_sets(g)[j]),
{
    lemma_groups_after_facts(g, sorted_keys(g), sorted_keys(g).len());
}

/// Law: a duplicate group holds every file that one of its files matches, so
/// matching is followed transitively (if A matches B and B matches C, they
/// are all in one group).
pub proof fn lemma_duplicate_group_closed(
    g: Seq<(Seq<char>, Seq<Seq<char>>)>,
    i: int,
    x: Seq<char>,
    y: Seq<char>,
)
    requires
        symmetric_graph(g),
        0 <= i < duplicate_sets(g).len(),
        duplicate_sets(g)[i].contains(x),
        edge(g, x, y),
    ensures
        duplicate_sets(g)[i].contains(y),
{
    lemma_groups_after_facts(g, sorted_keys(g), sorted_keys(g).len());
    let st = groups_after(g, sorted_keys(g), sorted_keys(g).len());
    let k = choose|k: Seq<char>| st.0[i] == component(g, k) && neighbours(g, k).len() > 0
        && #[trigger] st.0[i].contains(k);
    lemma_reaches_step(g, k, x, y);
}

/// Law: every listed file that has a match belongs to a duplicate group.
pub proof fn lemma_matched_file_grouped(g: Seq<(Seq<char>, Seq<Seq<char>>)>, x: Seq<char>)
    requires
        symmetric_graph(g),
        is_key(g, x),
        neighbours(g, x).len() > 0,
    ensures
        exists|i: int| 0 <= i < duplicate_sets(g).len() && #[trigger] duplicate_sets(g)[i].contains(x),
{
    let ks = sorted_keys(g);
    lemma_groups_after_facts(g, ks, ks.len());
    let key_seq = g.map_values(|e: (Seq<char>, Seq<Seq<char>>)| e.0);
    crate::paths::lemma_path_order_total();
    key_seq.lemma_sort_by_ensures(path_order());
    let p = choose|p: int| 0 <= p < g.len() && #[trigger] g[p].0 == x;
    assert(key_seq[p] == x);
    assert(key_seq.contains(x));
    assert(key_seq.to_multiset().count(x) > 0);
    assert(ks.to_multiset().count(x) > 0);
    assert(ks.contains(x));
    let q = choose|q: int| 0 <= q < ks.len() && ks[q] == x;
    let st = groups_after(g, ks, ks.len());
    assert(neighbours(g, ks[q]).len() > 0);
    assert(st.1.contains(ks[q]));
    assert(st.1.contains(x));
    let i = choose|i: int| 0 <= i < st.0.len() && #[trigger] st.0[i].contains(x);
    assert(duplicate_sets(g)[i].contains(x));
}

proof fn lemma_entry_in_other(g1: Seq<(Seq<char>, Seq<Seq<char>>)>, g2: Seq<(Seq<char>, Seq<Seq<char>>)>, i: int)
    requires
        g1.to_set() == g2.to_set(),
        0 <= i < g1.len(),
    ensures
        exists|j: int| 0 <= j < g2.len() && g2[j] == g1[i],
{
    assert(g1.to_set().contains(g1[i]));
    assert(g2.to_set().contains(g1[i]));
}

proof fn lemma_same_edges(g1: Seq<(Seq<char>, Seq<Seq<char>>)>, g2: Seq<(Seq<char>, Seq<Seq<char>>)>, x: Seq<char>, y: Seq<char>)
    requires
        g1.to_set() == g2.to_set(),
    ensures
        edge(g1, x, y) == edge(g2, x, y),
{
    if edge(g1, x, y) {
        let i = choose|i: int| 0 <= i < g1.len() && #[trigger] g1[i].0 == x && g1[i].1.contains(y);
        lemma_entry_in_other(g1, g2, i);
        let j = choose|j: int| 0 <= j < g2.len() && g2[j] == g1[i];
        assert(g2[j].0 == x && g2[j].1.contains(y));
    }
    if edge(g2, x, y) {
        let i = choose|i: int| 0 <= i < g2.len() && #[trigger] g2[i].0 == x && g2[i].1.contains(y);
        lemma_entry_in_other(g2, g1, i);
        let j = choose|j: int| 0 <= j < g1.len() && g1[j] == g2[i];
        assert(g1[j].0 == x && g1[j].1.contains(y));
    }
}

proof fn lemma_same_neighbours(g1: Seq<(Seq<char>, Seq<Seq<char>>)>, g2: Seq<(Seq<char>, Seq<Seq<char>>)>, x: Seq<char>)
    requires
        g1.to_set() == g2.to_set(),
        keys_distinct(g1),
        keys_distinct(g2),
    ensures
        is_key(g1, x) == is_key(g2, x),
        neighbours(g1, x) == neighbours(g2, x),
{
    if is_key(g1, x) {
        let i = choose|i: int| 0 <= i < g1.len() && #[trigger] g1[i].0 == x;
        lemma_entry_in_other(g1, g2, i);
        let j = choose|j: int| 0 <= j < g2.len() && g2[j] == g1[i];
        assert(g2[j].0 == x);
        let j2 = choose|j2: int| 0 <= j2 < g2.len() && #[trigger] g2[j2].0 == x;
        assert(j2 == j);
    }
    if is_key(g2, x) {
        let j = choose|j: int| 0 <= j < g2.len() && #[trigger] g2[j].0 == x;
        lemma_entry_in_other(g2, g1, j);
        let i = choose|i: int| 0 <= i < g1.len() && g1[i] == g2[j];
        assert(g1[i].0 == x);
    }
}

proof fn lemma_same_component(g1: Seq<(Seq<char>, Seq<Seq<char>>)>, g2: Seq<(Seq<char>, Seq<Seq<char>>)>, x: Seq<char>)
    requires
        g1.to_set() == g2.to_set(),
    ensures
        component(g1, x) == component(g2, x),
{
    assert forall|p: Seq<Seq<char>>| #![trigger is_walk(g1, p)] #![trigger is_walk(g2, p)] is_walk(g1, p) == is_walk(g2, p) by {
        assert forall|k: int| 0 <= k < p.len() - 1 implies edge(g1, #[trigger] p[k], p[k + 1]) == edge(g2, p[k], p[k + 1]) by {
            lemma_same_edges(g1, g2, p[k], p[k + 1]);
        }
    }
    assert forall|y: Seq<char>| reaches(g1, x, y) == reaches(g2, x, y) by {
        if reaches(g1, x, y) {
            let p = choose|p: Seq<Seq<char>>| #[trigger] is_walk(g1, p) && p[0] == x && p.last() == y;
            assert(is_walk(g2, p));
        }
        if reaches(g2, x, y) {
            let p = choose|p: Seq<Seq<char>>| #[trigger] is_walk(g2, p) && p[0] == x && p.last() == y;
            assert(is_walk(g1, p));
        }
    }
    assert(component(g1, x) =~= component(g2, x));
}

proof fn lemma_same_groups_after(
    g1: Seq<(Seq<char>, Seq<Seq<char>>)>,
    g2: Seq<(Seq<char>, Seq<Seq<char>>)>,
    keys: Seq<Seq<char>>,
    n: nat,
)
    requires
        g1.to_set() == g2.to_set(),
        keys_distinct(g1),
        keys_distinct(g2),
    ensures
        groups_after(g1, keys, n) == groups_after(g2, keys, n),
    decreases n,
{
    if n > 0 && n <= keys.len() {
        lemma_same_groups_after(g1, g2, keys, (n - 1) as nat);
        lemma_same_neighbours(g1, g2, keys[n - 1]);
        lemma_same_component(g1, g2, keys[n - 1]);
    }
}

proof fn lemma_same_sorted_keys(g1: Seq<(Seq<char>, Seq<Seq<char>>)>, g2: Seq<(Seq<char>, Seq<Seq<char>>)>)
    requires
        g1.to_set() == g2.to_set(),
        keys_distinct(g1),
        keys_distinct(g2),
    ensures
        sorted_keys(g1) == sorted_keys(g2),
{
    let k1 = g1.map_values(|e: (Seq<char>, Seq<Seq<char>>)| e.0);
    let k2 = g2.map_values(|e: (Seq<char>, Seq<Seq<char>>)| e.0);
    assert(k1.no_duplicates());
    assert(k2.no_duplicates());
    assert forall|x: Seq<char>| k1.to_set().contains(x) == k2.to_set().contains(x) by {
        if k1.contains(x) {
            let i = choose|i: int| 0 <= i < k1.len() && k1[i] == x;
            lemma_entry_in_other(g1, g2, i);
            let j = choose|j: int| 0 <= j < g2.len() && g2[j] == g1[i];
            assert(k2[j] == x);
        }
        if k2.contains(x) {
            let j = choose|j: int| 0 <= j < k2.len() && k2[j] == x;
            lemma_entry_in_other(g2, g1, j);
            let i = choose|i: int| 0 <= i < g1.len() && g1[i] == g2[j];
            assert(k1[i] == x);
        }
    }
    assert(k1.to_set() =~= k2.to_set());
    crate::paths::lemma_sort_distinct(k1);
    crate::paths::lemma_sort_distinct(k2);
    crate::paths::lemma_strictly_sorted_unique(k1.sort_by(path_order()), k2.sort_by(path_order()));
}

/// Law: the duplicate groups depend on which files match which, not on the
/// order in which the files are listed.
pub proof fn lemma_duplicate_sets_ignore_listing_order(
    g1: Seq<(Seq<char>, Seq<Seq<char>>)>,
    g2: Seq<(Seq<char>, Seq<Seq<char>>)>,
)
    requires
        keys_distinct(g1),
        keys_distinct(g2),
        g1.to_set() == g2.to_set(),
    ensures
        duplicate_sets(g1) == duplicate_sets(g2),
{
    lemma_same_sorted_keys(g1, g2);
    lemma_same_groups_after(g1, g2, sorted_keys(g1), sorted_keys(g1).len());
}

/// Every match of `g1` is a match of `g2`.
pub open spec fn matches_within(g1: Seq<(Seq<char>, Seq<Seq<char>>)>, g2: Seq<(Seq<char>, Seq<Seq<char>>)>) -> bool {
    forall|x: Seq<char>, y: Seq<char>| #[trigger] edge(g1, x, y) ==> edge(g2, x, y)
}

proof fn lemma_component_within(g1: Seq<(Seq<char>, Seq<Seq<char>>)>, g2: Seq<(Seq<char>, Seq<Seq<char>>)>, x: Seq<char>)
    requires
        matches_within(g1, g2),
    ensures
        component(g1, x).subset_of(component(g2, x)),
{
    assert forall|y: Seq<char>| component(g1, x).contains(y) implies component(g2, x).contains(y) by {
        let p = choose|p: Seq<Seq<char>>| #[trigger] is_walk(g1, p) && p[0] == x && p.last() == y;
        assert forall|k: int| 0 <= k < p.len() - 1 implies edge(g2, #[trigger] p[k], p[k + 1]) by {
            assert(edge(g1, p[k], p[k + 1]));
        }
        assert(is_walk(g2, p));
    }
}

proof fn lemma_first_match(g: Seq<(Seq<char>, Seq<Seq<char>>)>, k: Seq<char>)
    requires
        neighbours(g, k).len() > 0,
    ensures
        edge(g, k, neighbours(g, k)[0]),
{
    assert(is_key(g, k));
    assert(exists|j: int| 0 <= j < g.len() && #[trigger] g[j].0 == k && g[j].1 == neighbours(g, k));
    let j = choose|j: int| 0 <= j < g.len() && #[trigger] g[j].0 == k && g[j].1 == neighbours(g, k);
    assert(g[j].1.contains(neighbours(g, k)[0]));
}

proof fn lemma_edge_gives_neighbour(g: Seq<(Seq<char>, Seq<Seq<char>>)>, k: Seq<char>, y: Seq<char>)
    requires
        keys_distinct(g),
        edge(g, k, y),
    ensures
        neighbours(g, k).len() > 0,
{
    let i = choose|i: int| 0 <= i < g.len() && #[trigger] g[i].0 == k && g[i].1.contains(y);
    assert(is_key(g, k));
    let i2 = choose|i: int| 0 <= i < g.len() && #[trigger] g[i].0 == k;
    assert(i2 == i);
    assert(neighbours(g, k).contains(y));
}

/// Law: with more matches, groups only grow and merge: each duplicate group
/// of `g1` lies within a duplicate group of `g2` when every match of `g1` is
/// one of `g2`.
pub proof fn lemma_more_matches_merge_groups(
    g1: Seq<(Seq<char>, Seq<Seq<char>>)>,
    g2: Seq<(Seq<char>, Seq<Seq<char>>)>,
    i: int,
)
    requires
        symmetric_graph(g1),
        symmetric_graph(g2),
        keys_distinct(g2),
        matches_within(g1, g2),
        0 <= i < duplicate_sets(g1).len(),
    ensures
        exists|j: int| 0 <= j < duplicate_sets(g2).len() && duplicate_sets(g1)[i].subset_of(#[trigger] duplicate_sets(g2)[j]),
{
    lemma_groups_after_facts(g1, sorted_keys(g1), sorted_keys(g1).len());
    lemma_groups_after_facts(g2, sorted_keys(g2), sorted_keys(g2).len());
    let s1 = duplicate_sets(g1)[i];
    let k = choose|k: Seq<char>| s1 == component(g1, k) && neighbours(g1, k).len() > 0 && #[trigger] s1.contains(k);
    lemma_first_match(g1, k);
    lemma_edge_gives_neighbour(g2, k, neighbours(g1, k)[0]);
    lemma_matched_file_grouped(g2, k);
    let j = choose|j: int| 0 <= j < duplicate_sets(g2).len() && #[trigger] duplicate_sets(g2)[j].contains(k);
    let s2 = duplicate_sets(g2)[j];
    let k2 = choose|k2: Seq<char>| s2 == component(g2, k2) && neighbours(g2, k2).len() > 0 && #[trigger] s2.contains(k2);
    lemma_component_within(g1, g2, k);
    assert forall|x: Seq<char>| s1.contains(x) implies s2.contains(x) by {
        assert(component(g2, k).contains(x));
        lemma_reaches_trans(g2, k2, k, x);
    }
    assert(s1.subset_of(s2));
}

/// `m` is the first file of `s` in the path order.
pub open spec fn is_least(s: Set<Seq<char>>, m: Seq<char>) -> bool {
    &&& s.contains(m)
    &&& forall|x: Seq<char>| #[trigger] s.contains(x) && x != m ==> path_before(m, x)
}

/// The first file of `s` in the path order.
pub open spec fn least(s: Set<Seq<char>>) -> Seq<char> {
    choose|m: Seq<char>| is_least(s, m)
}

proof fn lemma_least_unique(s: Set<Seq<char>>, a: Seq<char>, b: Seq<char>)
    requires
        is_least(s, a),
        is_least(s, b),
    ensures
        a == b,
{
    if a != b {
        lemma_path_before_properties(a, b, a);
    }
}

proof fn lemma_reached_file_matched(g: Seq<(Seq<char>, Seq<Seq<char>>)>, k: Seq<char>, x: Seq<char>)
    requires
        symmetric_graph(g),
        keys_distinct(g),
        reaches(g, k, x),
        x != k,
    ensures
        is_key(g, x),
        neighbours(g, x).len() > 0,
{
    let p = choose|p: Seq<Seq<char>>| #[trigger] is_walk(g, p) && p[0] == k && p.last() == x;
    assert(p.len() >= 2);
    let m = p[p.len() - 2];
    assert(edge(g, p[p.len() - 2], p[p.len() - 1]));
    assert(edge(g, x, m));
    lemma_edge_gives_neighbour(g, x, m);
    let i = choose|i: int| 0 <= i < g.len() && #[trigger] g[i].0 == x && g[i].1.contains(m);
    assert(is_key(g, x));
}

/// Each group of the state after `n` keys is the component of its first file,
/// which is one of those keys, and the first files come in the path order.
pub open spec fn groups_in_order(g: Seq<(Seq<char>, Seq<Seq<char>>)>, keys: Seq<Seq<char>>, n: nat) -> bool {
    let gs = groups_after(g, keys, n).0;
    &&& forall|i: int| 0 <= i < gs.len() ==> is_least(#[trigger] gs[i], least(gs[i]))
    &&& forall|i: int| 0 <= i < gs.len() ==> #[trigger] gs[i] == component(g, least(gs[i]))
    &&& forall|i: int| 0 <= i < gs.len() ==> exists|q: int| 0 <= q < n && keys[q] == least(#[trigger] gs[i])
    &&& forall|i: int, j: int| 0 <= i < j < gs.len() ==> path_before(least(#[trigger] gs[i]), least(#[trigger] gs[j]))
}

proof fn lemma_new_group_least(g: Seq<(Seq<char>, Seq<Seq<char>>)>, keys: Seq<Seq<char>>, n: nat)
    requires
        symmetric_graph(g),
        keys_distinct(g),
        strictly_sorted(keys),
        forall|x: Seq<char>| is_key(g, x) ==> keys.contains(x),
        1 <= n <= keys.len(),
        groups_in_order(g, keys, (n - 1) as nat),
        state_consistent(groups_after(g, keys, (n - 1) as nat)),
        forall|q: int| 0 <= q < n - 1 && neighbours(g, keys[q]).len() > 0 ==> groups_after(
            g,
            keys,
            (n - 1) as nat,
        ).1.contains(#[trigger] keys[q]),
        !groups_after(g, keys, (n - 1) as nat).1.contains(keys[n - 1]),
    ensures
        is_least(component(g, keys[n - 1]), keys[n - 1]),
{
    let prev = groups_after(g, keys, (n - 1) as nat);
    let k = keys[n - 1];
    let c = component(g, k);
    lemma_reaches_self(g, k);
    assert forall|x: Seq<char>| #[trigger] c.contains(x) && x != k implies path_before(k, x) by {
        if !path_before(k, x) {
            lemma_path_before_properties(k, x, k);
            lemma_reached_file_matched(g, k, x);
            let q = choose|q: int| 0 <= q < keys.len() && keys[q] == x;
            if q > n - 1 {
                assert(path_before(keys[n - 1], keys[q]));
            }
            assert(q < n - 1);
            assert(prev.1.contains(keys[q]));
            let i = choose|i: int| 0 <= i < prev.0.len() && #[trigger] prev.0[i].contains(x);
            let m = least(prev.0[i]);
            assert(prev.0[i] == component(g, m));
            lemma_reaches_symmetric(g, k, x);
            lemma_reaches_trans(g, m, x, k);
            assert(prev.0[i].contains(k));
            assert(prev.0[i].subset_of(prev.1));
        }
    }
}

proof fn lemma_order_after_push(
    g: Seq<(Seq<char>, Seq<Seq<char>>)>,
    keys: Seq<Seq<char>>,
    n: nat,
    gs0: Seq<Set<Seq<char>>>,
)
    requires
        strictly_sorted(keys),
        1 <= n <= keys.len(),
        gs0 == groups_after(g, keys, (n - 1) as nat).0,
        groups_in_order(g, keys, (n - 1) as nat),
        is_least(component(g, keys[n - 1]), keys[n - 1]),
        groups_after(g, keys, n).0 == gs0.push(component(g, keys[n - 1])),
    ensures
        groups_in_order(g, keys, n),
{
    let k = keys[n - 1];
    let c = component(g, k);
    let gs = gs0.push(c);
    lemma_least_unique(c, k, least(c));
    assert forall|i: int| 0 <= i < gs.len() implies is_least(#[trigger] gs[i], least(gs[i])) by {
        if i < gs0.len() {
            assert(gs[i] == gs0[i]);
        }
    }
    assert forall|i: int| 0 <= i < gs.len() implies #[trigger] gs[i] == component(g, least(gs[i])) by {
        if i < gs0.len() {
            assert(gs[i] == gs0[i]);
        }
    }
    assert forall|i: int| 0 <= i < gs.len() implies exists|q: int| 0 <= q < n && keys[q] == least(
        #[trigger] gs[i],
    ) by {
        if i < gs0.len() {
            assert(gs[i] == gs0[i]);
            let q = choose|q: int| 0 <= q < n - 1 && keys[q] == least(gs0[i]);
        } else {
            assert(keys[n - 1] == least(gs[i]));
        }
    }
    assert forall|i: int, j: int| 0 <= i < j < gs.len() implies path_before(
        least(#[trigger] gs[i]),
        least(#[trigger] gs[j]),
    ) by {
        assert(gs[i] == gs0[i]);
        if j < gs0.len() {
            assert(gs[j] == gs0[j]);
        } else {
            let q = choose|q: int| 0 <= q < n - 1 && keys[q] == least(gs0[i]);
            assert(path_before(keys[q], keys[n - 1]));
        }
    }
}

proof fn lemma_order_unchanged(g: Seq<(Seq<char>, Seq<Seq<char>>)>, keys: Seq<Seq<char>>, n: nat)
    requires
        1 <= n <= keys.len(),
        groups_in_order(g, keys, (n - 1) as nat),
        groups_after(g, keys, n) == groups_after(g, keys, (n - 1) as nat),
    ensures
        groups_in_order(g, keys, n),
{
    let gs = groups_after(g, keys, n).0;
    assert forall|i: int| 0 <= i < gs.len() implies exists|q: int| 0 <= q < n && keys[q] == least(
        #[trigger] gs[i],
    ) by {
        let q = choose|q: int| 0 <= q < n - 1 && keys[q] == least(gs[i]);
    }
}

proof fn lemma_groups_in_order(g: Seq<(Seq<char>, Seq<Seq<char>>)>, keys: Seq<Seq<char>>, n: nat)
    requires
        symmetric_graph(g),
        keys_distinct(g),
        strictly_sorted(keys),
        forall|x: Seq<char>| is_key(g, x) ==> keys.contains(x),
        n <= keys.len(),
    ensures
        groups_in_order(g, keys, n),
    decreases n,
{
    if n > 0 {
        lemma_groups_in_order(g, keys, (n - 1) as nat);
        lemma_groups_after_facts(g, keys, (n - 1) as nat);
        let prev = groups_after(g, keys, (n - 1) as nat);
        let k = keys[n - 1];
        if !(prev.1.contains(k) || neighbours(g, k).len() == 0) {
            lemma_new_group_least(g, keys, n);
            lemma_order_after_push(g, keys, n, prev.0);
        } else {
            lemma_order_unchanged(g, keys, n);
        }
    }
}

/// Law: in a graph of mutual matches where each file is listed once, every
/// duplicate group is the component of its first file, and the first files
/// of the groups come in the path order: kept files increase from group to
/// group.
pub proof fn lemma_groups_ordered_by_first_file(g: Seq<(Seq<char>, Seq<Seq<char>>)>)
    requires
        symmetric_graph(g),
        keys_distinct(g),
    ensures
        forall|i: int| 0 <= i < duplicate_sets(g).len() ==> is_least(#[trigger] duplicate_sets(g)[i], least(duplicate_sets(g)[i])),
        forall|i: int, j: int|
            0 <= i < j < duplicate_sets(g).len() ==> path_before(
                least(#[trigger] duplicate_sets(g)[i]),
                least(#[trigger] duplicate_sets(g)[j]),
            ),
{
    let key_seq = g.map_values(|e: (Seq<char>, Seq<Seq<char>>)| e.0);
    assert(key_seq.no_duplicates());
    crate::paths::lemma_sort_distinct(key_seq);
    let ks = sorted_keys(g);
    assert forall|x: Seq<char>| is_key(g, x) implies ks.contains(x) by {
        let i = choose|i: int| 0 <= i < g.len() && #[trigger] g[i].0 == x;
        assert(key_seq[i] == x);
        assert(key_seq.to_set().contains(x));
        assert(ks.to_set().contains(x));
    }
    lemma_groups_in_order(g, ks, ks.len());
}

} // verus!
