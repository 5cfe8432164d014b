//! Media file selection and the grouping of matching files.
use vstd::prelude::*;
use crate::components::{
    component, duplicate_sets, edge, graph_of, groups_after, irreflexive_graph, is_key, is_least, keys_distinct, least,
    lemma_duplicate_groups_disjoint, lemma_groups_ordered_by_first_file, symmetric_graph, lemma_closed_holds_component, lemma_neighbours_at, lemma_no_key_no_edge, lemma_reaches_self,
    lemma_more_matches_merge_groups, lemma_reaches_step, lemma_vertex_list_contains, lemma_vertex_list_members, neighbours,
    one_spelling, reaches, sorted_keys, vertex_list,
};
use crate::dedupe::{
    group_members, groups_well_apart,
    hashed_prefix, partition_outcomes, skipped_prefix, skipped_view, DuplicateGroup, HashedFile,
    MediaKind, SkippedFile,
};
use crate::hash::{capped_distance, hash_distance, hash_distance_exec, lemma_hash_distance_properties};
use crate::paths::{
    same_path, same_path_exec,
    path_extension, path_extension_exec,
    contains_path, first_occurrences, lemma_path_before_properties, lemma_path_order_total, names_distinct, path_before, lemma_sort_distinct,
    lemma_sorted_set_of, path_order, sort_paths, sorted_first_paths, sorted_set, strictly_sorted, views,
};

verus! {

broadcast use vstd::seq_lib::group_seq_properties, vstd::seq_lib::group_to_multiset_ensures;

/// A copy of a list of paths.
pub fn copy_paths(v: &Vec<String>) -> (r: Vec<String>)
    ensures
        views(r@) == views(v@),
{
    let mut r: Vec<String> = Vec::new();
    let mut i: usize = 0;
    while i < v.len()
        invariant
            i <= v.len(),
            r.len() == i,
            views(r@) == views(v@).take(i as int),
        decreases v.len() - i,
    {
        let c = v[i].clone();
        let ghost before = r@;
        r.push(c);
        assert(r@ == before.push(c));
        assert(views(r@) =~= views(v@).take(i + 1)) by {
            assert forall|k: int| 0 <= k < i + 1 implies #[trigger] views(r@)[k] == views(v@).take(i + 1)[k] by {
                if k < i {
                    assert(views(r@)[k] == views(before)[k]);
                }
            }
        }
        i = i + 1;
    }
    assert(views(v@).take(v.len() as int) =~= views(v@));
    r
}

/// Position of the file `x` in the adjacency list.
fn find_key(adj: &Vec<(String, Vec<String>)>, x: &String) -> (r: Option<usize>)
    ensures
        match r {
            Some(i) => i < adj.len() && graph_of(adj@)[i as int].0 == x@,
            None => !is_key(graph_of(adj@), x@),
        },
{
    let ghost g = graph_of(adj@);
    let mut i: usize = 0;
    while i < adj.len()
        invariant
            g == graph_of(adj@),
            i <= adj.len(),
            forall|k: int| 0 <= k < i ==> #[trigger] g[k].0 != x@,
        decreases adj.len() - i,
    {
        if adj[i].0 == *x {
            return Some(i);
        }
        i = i + 1;
    }
    None
}

proof fn lemma_distinct_bounded(s: Seq<Seq<char>>, u: Seq<Seq<char>>)
    requires
        s.no_duplicates(),
        forall|k: int| 0 <= k < s.len() ==> u.contains(#[trigger] s[k]),
    ensures
        s.len() <= u.len(),
{
    s.unique_seq_to_set();
    u.lemma_cardinality_of_set();
    assert(s.to_set().subset_of(u.to_set()));
    vstd::set_lib::lemma_len_subset(s.to_set(), u.to_set());
}

/// Every file reachable from `start` by following matches, `start` first.
fn explore(adj: &Vec<(String, Vec<String>)>, start: &String, start_pos: usize) -> (group: Vec<String>)
    requires
        keys_distinct(graph_of(adj@)),
        start_pos < adj.len(),
        graph_of(adj@)[start_pos as int].0 == start@,
    ensures
        views(group@).no_duplicates(),
        views(group@).to_set() == component(graph_of(adj@), start@),
{
    let ghost g = graph_of(adj@);
    let ghost u = vertex_list(g);
    let mut group: Vec<String> = Vec::new();
    group.push(start.clone());
    let mut stack = copy_paths(&adj[start_pos].1);
    proof {
        lemma_neighbours_at(g, start_pos as int);
        lemma_reaches_self(g, start@);
        lemma_vertex_list_contains(g, start_pos as int, start@);
        assert(views(group@) =~= seq![start@]);
        assert forall|k: int| 0 <= k < stack.len() implies reaches(g, start@, #[trigger] views(stack@)[k])
            && u.contains(views(stack@)[k]) by {
            assert(g[start_pos as int].1.contains(views(stack@)[k]));
            lemma_reaches_step(g, start@, start@, views(stack@)[k]);
            lemma_vertex_list_contains(g, start_pos as int, views(stack@)[k]);
        }
    }
    while stack.len() > 0
        invariant
            g == graph_of(adj@),
            u == vertex_list(g),
            keys_distinct(g),
            views(group@).no_duplicates(),
            views(group@).contains(start@),
            forall|k: int| 0 <= k < group.len() ==> reaches(g, start@, #[trigger] views(group@)[k]),
            forall|k: int| 0 <= k < group.len() ==> u.contains(#[trigger] views(group@)[k]),
            forall|k: int| 0 <= k < stack.len() ==> reaches(g, start@, #[trigger] views(stack@)[k]),
            forall|k: int| 0 <= k < stack.len() ==> u.contains(#[trigger] views(stack@)[k]),
            forall|m: Seq<char>, y: Seq<char>|
                views(group@).contains(m) && #[trigger] edge(g, m, y) ==> views(group@).contains(y)
                    || views(stack@).contains(y),
        decreases u.len() - group.len(), stack.len(),
    {
        proof {
            lemma_distinct_bounded(views(group@), u);
        }
        let ghost old_group = views(group@);
        let ghost old_stack = views(stack@);
        let current = stack.pop().unwrap();
        proof {
            assert(views(stack@) =~= old_stack.drop_last());
            assert(current@ == old_stack.last());
            assert forall|m: Seq<char>, y: Seq<char>|
                views(group@).contains(m) && #[trigger] edge(g, m, y) implies views(group@).contains(y)
                    || views(stack@).contains(y) || y == current@ by {
                if old_stack.contains(y) && y != current@ {
                    let k = choose|k: int| 0 <= k < old_stack.len() && old_stack[k] == y;
                    assert(k < old_stack.len() - 1);
                    assert(views(stack@)[k] == y);
                }
            }
        }
        if contains_path(&group, &current) {
            continue;
        }
        group.push(current.clone());
        proof {
            assert(views(group@) =~= old_group.push(current@));
            assert(reaches(g, start@, current@));
            assert(u.contains(current@));
            assert(views(group@).no_duplicates());
        }
        let ghost mid_group = views(group@);
        match find_key(adj, &current) {
            Some(ci) => {
                proof {
                    lemma_neighbours_at(g, ci as int);
                }
                let nb = &adj[ci].1;
                let mut j: usize = 0;
                while j < nb.len()
                    invariant
                        g == graph_of(adj@),
                        u == vertex_list(g),
                        keys_distinct(g),
                        ci < adj.len(),
                        g[ci as int].0 == current@,
                        nb == &adj[ci as int].1,
                        views(group@) == mid_group,
                        mid_group.contains(current@),
                        j <= nb.len(),
                        forall|k: int| 0 <= k < stack.len() ==> reaches(g, start@, #[trigger] views(stack@)[k]),
                        forall|k: int| 0 <= k < stack.len() ==> u.contains(#[trigger] views(stack@)[k]),
                        reaches(g, start@, current@),
                        forall|m: Seq<char>, y: Seq<char>|
                            mid_group.contains(m) && m != current@ && #[trigger] edge(g, m, y) ==> mid_group.contains(y)
                                || views(stack@).contains(y),
                        forall|q: int| 0 <= q < j ==> mid_group.contains(#[trigger] views(nb@)[q])
                            || views(stack@).contains(views(nb@)[q]),
                    decreases nb.len() - j,
                {
                    let ghost before = views(stack@);
                    if !contains_path(&group, &nb[j]) {
                        stack.push(nb[j].clone());
                        proof {
                            assert(views(stack@) =~= before.push(views(nb@)[j as int]));
                            assert(g[ci as int].1.contains(views(nb@)[j as int]));
                            lemma_reaches_step(g, start@, current@, views(nb@)[j as int]);
                            lemma_vertex_list_contains(g, ci as int, views(nb@)[j as int]);
                            assert forall|y: Seq<char>| before.contains(y) implies views(stack@).contains(y) by {
                                let k = choose|k: int| 0 <= k < before.len() && before[k] == y;
                                assert(views(stack@)[k] == y);
                            }
                            assert(views(stack@)[before.len() as int] == views(nb@)[j as int]);
                        }
                    }
                    j = j + 1;
                }
                proof {
                    assert forall|y: Seq<char>| #[trigger] edge(g, current@, y) implies mid_group.contains(y)
                        || views(stack@).contains(y) by {
                        assert(g[ci as int].1.contains(y));
                        let q = choose|q: int| 0 <= q < views(nb@).len() && views(nb@)[q] == y;
                    }
                }
            },
            None => {
                proof {
                    assert forall|y: Seq<char>| !edge(g, current@, y) by {
                        lemma_no_key_no_edge(g, current@, y);
                    }
                }
            },
        }
        proof {
            lemma_distinct_bounded(views(group@), u);
        }
    }
    proof {
        let s = views(group@).to_set();
        assert forall|m: Seq<char>, z: Seq<char>| s.contains(m) && #[trigger] edge(g, m, z) implies s.contains(z) by {
            assert(views(group@).contains(m));
        }
        assert forall|y: Seq<char>| s.contains(y) <==> component(g, start@).contains(y) by {
            if component(g, start@).contains(y) {
                lemma_closed_holds_component(g, s, start@, y);
            }
            if s.contains(y) {
                let k = choose|k: int| 0 <= k < group.len() && views(group@)[k] == y;
            }
        }
        assert(s =~= component(g, start@));
    }
    group
}


/// `grp` is the group of `members` for media kind `kind`: the first path in the
/// path order is kept and the others, in order, are its duplicates.
pub open spec fn group_is(grp: DuplicateGroup, kind: MediaKind, members: Set<Seq<char>>) -> bool {
    &&& grp.kind == kind
    &&& seq![grp.keep@] + views(grp.duplicates@) == sorted_set(members)
    &&& strictly_sorted(seq![grp.keep@] + views(grp.duplicates@))
    &&& (seq![grp.keep@] + views(grp.duplicates@)).to_set() == members
}

/// The kept file of a group of `members` listed by `group_is` is the first
/// file of `members`.
proof fn lemma_kept_is_least(grp: DuplicateGroup, kind: MediaKind, members: Set<Seq<char>>, m: Seq<char>)
    requires
        group_is(grp, kind, members),
        is_least(members, m),
    ensures
        grp.keep@ == m,
{
    let l = seq![grp.keep@] + views(grp.duplicates@);
    assert(l[0] == grp.keep@);
    assert(l.to_set().contains(m));
    let t = choose|t: int| 0 <= t < l.len() && l[t] == m;
    if t > 0 {
        assert(path_before(l[0], l[t]));
        assert(l.to_set().contains(l[0]));
        assert(members.contains(grp.keep@));
        lemma_path_before_properties(m, grp.keep@, m);
    }
}

/// The files listed in an adjacency list, in its order.
fn key_paths(adj: &Vec<(String, Vec<String>)>) -> (r: Vec<String>)
    ensures
        views(r@) == graph_of(adj@).map_values(|e: (Seq<char>, Seq<Seq<char>>)| e.0),
{
    let ghost ks = graph_of(adj@).map_values(|e: (Seq<char>, Seq<Seq<char>>)| e.0);
    let mut r: Vec<String> = Vec::new();
    let mut i: usize = 0;
    while i < adj.len()
        invariant
            ks == graph_of(adj@).map_values(|e: (Seq<char>, Seq<Seq<char>>)| e.0),
            i <= adj.len(),
            r.len() == i,
            views(r@) == ks.take(i as int),
        decreases adj.len() - i,
    {
        let c = adj[i].0.clone();
        let ghost before = r@;
        r.push(c);
        assert(r@ == before.push(c));
        assert(views(r@) =~= ks.take(i + 1)) by {
            assert forall|k: int| 0 <= k < i + 1 implies #[trigger] views(r@)[k] == ks.take(i + 1)[k] by {
                if k < i {
                    assert(views(r@)[k] == views(before)[k]);
                }
            }
        }
        i = i + 1;
    }
    assert(ks.take(adj.len() as int) =~= ks);
    r
}

/// Every name in the adjacency list, keys and matches, in order.
fn vertex_names(adj: &Vec<(String, Vec<String>)>) -> (r: Vec<String>)
    ensures
        views(r@) == vertex_list(graph_of(adj@)),
{
    let ghost g = graph_of(adj@);
    let mut r: Vec<String> = Vec::new();
    let mut i: usize = 0;
    while i < adj.len()
        invariant
            g == graph_of(adj@),
            i <= adj.len(),
            views(r@) == vertex_list(g.take(i as int)),
        decreases adj.len() - i,
    {
        let ghost before = views(r@);
        let key = adj[i].0.clone();
        r.push(key);
        proof {
            assert(views(r@) =~= before + seq![g[i as int].0]);
        }
        let mut j: usize = 0;
        while j < adj[i].1.len()
            invariant
                g == graph_of(adj@),
                i < adj.len(),
                j <= adj[i as int].1.len(),
                g[i as int].1 == views(adj[i as int].1@),
                views(r@) == before + seq![g[i as int].0] + g[i as int].1.take(j as int),
            decreases adj[i as int].1.len() - j,
        {
            let ghost mid = views(r@);
            let name = adj[i].1[j].clone();
            r.push(name);
            proof {
                assert(g[i as int].1.take(j + 1) =~= g[i as int].1.take(j as int).push(g[i as int].1[j as int]));
                assert(views(r@) =~= mid.push(g[i as int].1[j as int]));
            }
            j = j + 1;
        }
        proof {
            assert(g[i as int].1.take(j as int) =~= g[i as int].1);
            assert(g.take(i + 1).drop_last() =~= g.take(i as int));
            assert(g.take(i + 1).last() == g[i as int]);
        }
        i = i + 1;
    }
    assert(g.take(adj.len() as int) =~= g);
    r
}

/// Whether the adjacency list writes each file one way (see `one_spelling`).
pub fn graph_has_one_spelling(adj: &Vec<(String, Vec<String>)>) -> (r: bool)
    ensures
        r == one_spelling(graph_of(adj@)),
{
    let names = vertex_names(adj);
    let ghost u = views(names@);
    let ghost g = graph_of(adj@);
    let mut i: usize = 0;
    while i < names.len()
        invariant
            g == graph_of(adj@),
            u == views(names@),
            u == vertex_list(g),
            i <= names.len(),
            forall|a: int, b: int| 0 <= a < i && 0 <= b < u.len() && same_path(#[trigger] u[a], #[trigger] u[b]) ==> u[a] == u[b],
        decreases names.len() - i,
    {
        let mut j: usize = 0;
        while j < names.len()
            invariant
                g == graph_of(adj@),
                u == views(names@),
                u == vertex_list(g),
                i < names.len(),
                j <= names.len(),
                forall|a: int, b: int| 0 <= a < i && 0 <= b < u.len() && same_path(#[trigger] u[a], #[trigger] u[b]) ==> u[a] == u[b],
                forall|b: int| 0 <= b < j && same_path(u[i as int], #[trigger] u[b]) ==> u[i as int] == u[b],
            decreases names.len() - j,
        {
            if same_path_exec(names[i].as_str(), names[j].as_str()) && names[i] != names[j] {
                proof {
                    assert(u[i as int] != u[j as int]);
                    assert(vertex_list(g).contains(u[i as int]));
                    assert(vertex_list(g).contains(u[j as int]));
                    assert(same_path(u[i as int], u[j as int]));
                    assert(!one_spelling(g));
                }
                return false;
            }
            j = j + 1;
        }
        i = i + 1;
    }
    proof {
        assert forall|a: Seq<char>, b: Seq<char>|
            vertex_list(g).contains(a) && vertex_list(g).contains(b) && same_path(a, b) implies a == b by {
            let ka = choose|k: int| 0 <= k < u.len() && u[k] == a;
            let kb = choose|k: int| 0 <= k < u.len() && u[k] == b;
            assert(same_path(u[ka], u[kb]));
        }
    }
    true
}

/// Groups files that match each other, directly or through other files.
///
/// `duplicates` lists each file with the files it matches. Files are taken in
/// the path order; a file that has matches and is not yet in a group opens a
/// group of every file reachable from it by following matches. In each group
/// the first path in the path order is kept and the rest are duplicates.
/// Files are compared as paths; the list writes each file one way
/// (`one_spelling`), so that comparing names compares the paths they name.
pub fn build_duplicate_groups(duplicates: &Vec<(String, Vec<String>)>, kind: MediaKind) -> (groups: Vec<
    DuplicateGroup,
>)
    requires
        keys_distinct(graph_of(duplicates@)),
        one_spelling(graph_of(duplicates@)),
    ensures
        groups.len() == duplicate_sets(graph_of(duplicates@)).len(),
        forall|i: int|
            0 <= i < groups.len() ==> group_is(
                #[trigger] groups[i],
                kind,
                duplicate_sets(graph_of(duplicates@))[i],
            ),
        irreflexive_graph(graph_of(duplicates@)) ==> forall|i: int|
            0 <= i < groups.len() ==> (#[trigger] groups[i]).duplicates.len() >= 1,
        symmetric_graph(graph_of(duplicates@)) ==> forall|i: int, j: int|
            0 <= i < j < groups.len() ==> path_before(#[trigger] groups[i].keep@, #[trigger] groups[j].keep@),
        symmetric_graph(graph_of(duplicates@)) ==> groups_well_apart(groups@),
{
    let ghost g = graph_of(duplicates@);
    let key_list = key_paths(duplicates);
    let ghost key_seq = views(key_list@);
    let keys = sort_paths(key_list);
    let ghost ks = sorted_keys(g);
    proof {
        lemma_path_order_total();
        key_seq.lemma_sort_by_ensures(path_order());
    }
    let mut visited: Vec<String> = Vec::new();
    let mut groups: Vec<DuplicateGroup> = Vec::new();
    let mut idx: usize = 0;
    while idx < keys.len()
        invariant
            g == graph_of(duplicates@),
            keys_distinct(g),
            ks == sorted_keys(g),
            views(keys@) == ks,
            key_seq == g.map_values(|e: (Seq<char>, Seq<Seq<char>>)| e.0),
            ks.to_multiset() == key_seq.to_multiset(),
            idx <= keys.len(),
            groups.len() == groups_after(g, ks, idx as nat).0.len(),
            forall|i: int|
                0 <= i < groups.len() ==> group_is(#[trigger] groups[i], kind, groups_after(g, ks, idx as nat).0[i]),
            views(visited@).to_set() == groups_after(g, ks, idx as nat).1,
            irreflexive_graph(g) ==> forall|i: int| 0 <= i < groups.len() ==> (#[trigger] groups[i]).duplicates.len() >= 1,
        decreases keys.len() - idx,
    {
        let filename = &keys[idx];
        let ghost prev = groups_after(g, ks, idx as nat);
        proof {
            assert(ks[idx as int] == filename@);
            assert(ks.contains(filename@));
            assert(ks.to_multiset().count(filename@) > 0);
            assert(key_seq.to_multiset().count(filename@) > 0);
            assert(key_seq.contains(filename@));
            let p = choose|p: int| 0 <= p < key_seq.len() && key_seq[p] == filename@;
            assert(g[p].0 == filename@);
            assert(is_key(g, filename@));
            assert(groups_after(g, ks, (idx + 1) as nat) == (if prev.1.contains(filename@) || neighbours(g, filename@).len() == 0 {
                prev
            } else {
                (prev.0.push(component(g, filename@)), prev.1.union(component(g, filename@)))
            }));
        }
        let pos = match find_key(duplicates, filename) {
            Some(p) => p,
            None => {
                proof {
                    assert(false);
                }
                idx = idx + 1;
                continue;
            },
        };
        proof {
            lemma_neighbours_at(g, pos as int);
        }
        if contains_path(&visited, filename) || duplicates[pos].1.len() == 0 {
            idx = idx + 1;
            continue;
        }
        let grp = explore(duplicates, filename, pos);
        let ghost comp = component(g, filename@);
        let ghost old_visited = views(visited@);
        let mut j: usize = 0;
        while j < grp.len()
            invariant
                j <= grp.len(),
                views(visited@).to_set() == old_visited.to_set().union(views(grp@).take(j as int).to_set()),
            decreases grp.len() - j,
        {
            let c = grp[j].clone();
            let ghost before = views(visited@);
            visited.push(c);
            proof {
                assert(views(visited@) =~= before.push(views(grp@)[j as int]));
                assert(views(grp@).take(j + 1) =~= views(grp@).take(j as int).push(views(grp@)[j as int]));
                assert(views(visited@).to_set() =~= before.to_set().insert(views(grp@)[j as int]));
                assert(views(grp@).take(j + 1).to_set() =~= views(grp@).take(j as int).to_set().insert(
                    views(grp@)[j as int],
                ));
            }
            j = j + 1;
        }
        proof {
            assert(views(grp@).take(grp.len() as int) =~= views(grp@));
            assert(views(visited@).to_set() =~= prev.1.union(comp));
        }
        let ghost grp_views = views(grp@);
        let mut sorted = sort_paths(grp);
        proof {
            lemma_sort_distinct(grp_views);
            lemma_sorted_set_of(views(sorted@));
            lemma_reaches_self(g, filename@);
            assert(comp.contains(filename@));
            assert(views(sorted@).to_set().contains(filename@));
            assert(sorted.len() > 0);
        }
        let ghost sorted_views = views(sorted@);
        proof {
            if irreflexive_graph(g) {
                let n0 = g[pos as int].1[0];
                assert(g[pos as int].1.contains(n0));
                assert(edge(g, filename@, n0));
                assert(n0 != filename@);
                lemma_reaches_step(g, filename@, filename@, n0);
                assert(comp.contains(n0));
                assert(sorted_views.to_set().contains(n0));
                if sorted_views.len() == 1 {
                    assert(sorted_views.contains(n0));
                    assert(sorted_views.contains(filename@));
                }
            }
        }
        let keep = sorted.remove(0);
        proof {
            assert(seq![keep@] + views(sorted@) =~= sorted_views);
            assert(sorted_views == sorted_set(comp));
        }
        let ghost old_groups = groups@;
        groups.push(DuplicateGroup { kind, keep, duplicates: sorted });
        proof {
            assert forall|i: int|
                0 <= i < groups.len() implies group_is(#[trigger] groups[i], kind, groups_after(g, ks, (idx + 1) as nat).0[i]) by {
                if i < old_groups.len() {
                    assert(groups[i] == old_groups[i]);
                }
            }
        }
        idx = idx + 1;
    }
    proof {
        if symmetric_graph(g) {
            lemma_groups_ordered_by_first_file(g);
            let ds = duplicate_sets(g);
            assert forall|i: int, j: int| 0 <= i < j < groups.len() implies path_before(
                #[trigger] groups[i].keep@,
                #[trigger] groups[j].keep@,
            ) by {
                lemma_kept_is_least(groups[i], kind, ds[i], least(ds[i]));
                lemma_kept_is_least(groups[j], kind, ds[j], least(ds[j]));
            }
            assert forall|i: int, j: int| 0 <= i < j < groups@.len() implies group_members(
                #[trigger] groups@[i],
            ).disjoint(group_members(#[trigger] groups@[j])) by {
                assert(groups@[i] == groups[i] && groups@[j] == groups[j]);
                lemma_duplicate_groups_disjoint(g, i, j);
            }
            assert forall|i: int| 0 <= i < groups@.len() implies !views(
                (#[trigger] groups@[i]).duplicates@,
            ).contains(groups@[i].keep@) by {
                let l = seq![groups[i].keep@] + views(groups[i].duplicates@);
                if views(groups[i].duplicates@).contains(groups[i].keep@) {
                    let t = choose|t: int| 0 <= t < views(groups[i].duplicates@).len() && views(groups[i].duplicates@)[t] == groups[i].keep@;
                    assert(l[0] == l[t + 1]);
                    assert(path_before(l[0], l[t + 1]));
                    lemma_path_before_properties(l[0], l[0], l[0]);
                }
            }
        }
    }
    groups
}


/// The paths and hashes of hashed files.
pub open spec fn hashed_view(files: Seq<HashedFile>) -> Seq<(Seq<char>, Seq<u8>)> {
    files.map_values(|f: HashedFile| (f.path@, f.hash@))
}

/// The files among the first `n` that file `i` matches: every other file whose
/// hash lies within `threshold` bits of file `i`'s hash, in list order.
pub open spec fn matches_among(files: Seq<(Seq<char>, Seq<u8>)>, i: int, threshold: u32, n: nat) -> Seq<Seq<char>>
    decreases n,
{
    if n == 0 {
        Seq::empty()
    } else {
        let prev = matches_among(files, i, threshold, (n - 1) as nat);
        let j = n - 1;
        if j != i && capped_distance(files[i].1, files[j].1) <= threshold {
            prev.push(files[j].0)
        } else {
            prev
        }
    }
}

/// The match graph of hashed files: each file with the files it matches.
pub open spec fn match_graph(files: Seq<(Seq<char>, Seq<u8>)>, threshold: u32) -> Seq<(Seq<char>, Seq<Seq<char>>)> {
    Seq::new(files.len(), |i: int| (files[i].0, matches_among(files, i, threshold, files.len())))
}

/// Compares every pair of hashed files: each file is listed with every other
/// file whose hash lies within `threshold` bits of its own.
pub fn pairwise_compare(hashed: &Vec<HashedFile>, threshold: u32) -> (adj: Vec<(String, Vec<String>)>)
    ensures
        graph_of(adj@) == match_graph(hashed_view(hashed@), threshold),
{
    let ghost files = hashed_view(hashed@);
    let n = hashed.len();
    let mut adj: Vec<(String, Vec<String>)> = Vec::new();
    let mut i: usize = 0;
    while i < n
        invariant
            n == hashed.len(),
            files == hashed_view(hashed@),
            i <= n,
            adj.len() == i,
            forall|k: int| 0 <= k < i ==> #[trigger] graph_of(adj@)[k] == match_graph(files, threshold)[k],
        decreases n - i,
    {
        let mut found: Vec<String> = Vec::new();
        let mut j: usize = 0;
        while j < n
            invariant
                n == hashed.len(),
                files == hashed_view(hashed@),
                i < n,
                j <= n,
                views(found@) == matches_among(files, i as int, threshold, j as nat),
            decreases n - j,
        {
            let ghost before = found@;
            if j != i {
                let d = hash_distance_exec(&hashed[i].hash, &hashed[j].hash);
                assert(files[i as int].1 == hashed@[i as int].hash@);
                assert(files[j as int].1 == hashed@[j as int].hash@);
                
                if d <= threshold {
                    found.push(hashed[j].path.clone());
                    assert(views(found@) =~= views(before).push(files[j as int].0));
                }
            }
            j = j + 1;
        }
        let ghost before_adj = adj@;
        let ghost found_views = views(found@);
        assert(found_views == matches_among(files, i as int, threshold, n as nat));
        let p = hashed[i].path.clone();
        assert(p@ == files[i as int].0);
        adj.push((p, found));
        proof {
            assert(graph_of(adj@)[i as int] == (files[i as int].0, found_views));
            assert forall|k: int| 0 <= k < i + 1 implies #[trigger] graph_of(adj@)[k] == match_graph(files, threshold)[k] by {
                if k < i {
                    assert(adj@[k] == before_adj[k]);
                    assert(graph_of(adj@)[k] == graph_of(before_adj)[k]);
                } else {
                    assert(files.len() == n);
                    assert(match_graph(files, threshold)[k] == (files[k].0, matches_among(files, k, threshold, n as nat)));
                }
            }
        }
        i = i + 1;
    }
    proof {
        assert(graph_of(adj@) =~= match_graph(files, threshold));
    }
    adj
}

proof fn lemma_matches_among_contains(files: Seq<(Seq<char>, Seq<u8>)>, i: int, threshold: u32, n: nat, y: Seq<char>)
    requires
        n <= files.len(),
        0 <= i < files.len(),
    ensures
        matches_among(files, i, threshold, n).contains(y) <==> exists|j: int| 0 <= j < n && j != i
            && capped_distance(files[i].1, files[j].1) <= threshold && #[trigger] files[j].0 == y,
    decreases n,
{
    if n > 0 {
        lemma_matches_among_contains(files, i, threshold, (n - 1) as nat, y);
        let prev = matches_among(files, i, threshold, (n - 1) as nat);
        let j = n - 1;
        if j != i && capped_distance(files[i].1, files[j].1) <= threshold {
            assert(prev.push(files[j].0).contains(y) <==> prev.contains(y) || files[j].0 == y) by {
                if prev.push(files[j].0).contains(y) {
                    let k = choose|k: int| 0 <= k < prev.len() + 1 && prev.push(files[j].0)[k] == y;
                    if k < prev.len() {
                        assert(prev[k] == y);
                    }
                }
                if prev.contains(y) {
                    let k = choose|k: int| 0 <= k < prev.len() && prev[k] == y;
                    assert(prev.push(files[j].0)[k] == y);
                }
                if files[j].0 == y {
                    assert(prev.push(files[j].0)[prev.len() as int] == y);
                }
            }
        }
    }
}

/// No path occurs twice among the files.
pub open spec fn paths_distinct(files: Seq<(Seq<char>, Seq<u8>)>) -> bool {
    forall|i: int, j: int| 0 <= i < j < files.len() ==> #[trigger] files[i].0 != #[trigger] files[j].0
}

/// Law: for files with distinct paths, the match graph lists each file once,
/// every match is mutual, and no file matches itself.
pub proof fn lemma_match_graph_shape(files: Seq<(Seq<char>, Seq<u8>)>, threshold: u32)
    requires
        paths_distinct(files),
    ensures
        keys_distinct(match_graph(files, threshold)),
        symmetric_graph(match_graph(files, threshold)),
        irreflexive_graph(match_graph(files, threshold)),
{
    let g = match_graph(files, threshold);
    assert forall|x: Seq<char>, y: Seq<char>| #[trigger] edge(g, x, y) implies edge(g, y, x) && x != y by {
        let i = choose|i: int| 0 <= i < g.len() && #[trigger] g[i].0 == x && g[i].1.contains(y);
        lemma_matches_among_contains(files, i, threshold, files.len(), y);
        let j = choose|j: int| 0 <= j < files.len() && j != i && capped_distance(files[i].1, files[j].1) <= threshold
            && #[trigger] files[j].0 == y;
        lemma_hash_distance_properties(files[i].1, files[j].1);
        lemma_matches_among_contains(files, j, threshold, files.len(), x);
        assert(files[i].0 == x);
        assert(g[j].0 == y);
        assert(g[j].1.contains(x));
        if i < j {
            assert(files[i].0 != files[j].0);
        } else {
            assert(files[j].0 != files[i].0);
        }
    }
}


/// Law: raising the threshold only grows and merges groups: every duplicate
/// group found at threshold `t1` lies within a group found at any `t2 >= t1`.
pub proof fn lemma_higher_threshold_merges_groups(files: Seq<(Seq<char>, Seq<u8>)>, t1: u32, t2: u32, i: int)
    requires
        paths_distinct(files),
        t1 <= t2,
        0 <= i < duplicate_sets(match_graph(files, t1)).len(),
    ensures
        exists|j: int|
            0 <= j < duplicate_sets(match_graph(files, t2)).len() && duplicate_sets(match_graph(files, t1))[i].subset_of(
                #[trigger] duplicate_sets(match_graph(files, t2))[j],
            ),
{
    let g1 = match_graph(files, t1);
    let g2 = match_graph(files, t2);
    lemma_match_graph_shape(files, t1);
    lemma_match_graph_shape(files, t2);
    assert forall|x: Seq<char>, y: Seq<char>| #[trigger] edge(g1, x, y) implies edge(g2, x, y) by {
        let a = choose|a: int| 0 <= a < g1.len() && #[trigger] g1[a].0 == x && g1[a].1.contains(y);
        lemma_matches_among_contains(files, a, t1, files.len(), y);
        lemma_matches_among_contains(files, a, t2, files.len(), y);
        assert(g2[a].0 == x);
        assert(g2[a].1.contains(y));
    }
    lemma_more_matches_merge_groups(g1, g2, i);
}

/// No two of the files name one path, however their names are written.
pub open spec fn file_names_distinct(files: Seq<(Seq<char>, Seq<u8>)>) -> bool {
    forall|i: int, j: int|
        0 <= i < files.len() && 0 <= j < files.len() && i != j ==> !same_path(#[trigger] files[i].0, #[trigger] files[j].0)
}

/// A name in the match graph is the path of one of the files.
proof fn lemma_vertex_is_file(files: Seq<(Seq<char>, Seq<u8>)>, threshold: u32, y: Seq<char>) -> (k: int)
    requires
        vertex_list(match_graph(files, threshold)).contains(y),
    ensures
        0 <= k < files.len(),
        files[k].0 == y,
{
    let g = match_graph(files, threshold);
    lemma_vertex_list_members(g, y);
    let i = choose|i: int| 0 <= i < g.len() && (#[trigger] g[i].0 == y || g[i].1.contains(y));
    if g[i].0 == y {
        i
    } else {
        lemma_matches_among_contains(files, i, threshold, files.len(), y);
        choose|j: int| 0 <= j < files.len() && j != i && capped_distance(files[i].1, files[j].1) <= threshold
            && #[trigger] files[j].0 == y
    }
}

/// Files whose names name distinct paths have distinct names, and their match
/// graph writes each file one way.
proof fn lemma_match_graph_one_spelling(files: Seq<(Seq<char>, Seq<u8>)>, threshold: u32)
    requires
        file_names_distinct(files),
    ensures
        paths_distinct(files),
        one_spelling(match_graph(files, threshold)),
{
    assert forall|i: int, j: int| 0 <= i < j < files.len() implies #[trigger] files[i].0 != #[trigger] files[j].0 by {
        if files[i].0 == files[j].0 {
            assert(same_path(files[i].0, files[j].0));
        }
    }
    let g = match_graph(files, threshold);
    assert forall|a: Seq<char>, b: Seq<char>|
        vertex_list(g).contains(a) && vertex_list(g).contains(b) && same_path(a, b) implies a == b by {
        let ka = lemma_vertex_is_file(files, threshold, a);
        let kb = lemma_vertex_is_file(files, threshold, b);
        if ka != kb {
            assert(!same_path(files[ka].0, files[kb].0));
        }
    }
}

/// Groups the hashed files of one media kind: files whose hashes lie within
/// `threshold` bits of each other, directly or through other files, form a
/// group; the first path of each group in the path order is kept. No two of
/// the files name one path.
pub fn group_hashed_files(hashed: &Vec<HashedFile>, threshold: u32, kind: MediaKind) -> (groups: Vec<DuplicateGroup>)
    requires
        file_names_distinct(hashed_view(hashed@)),
    ensures
        groups.len() == duplicate_sets(match_graph(hashed_view(hashed@), threshold)).len(),
        forall|i: int|
            0 <= i < groups.len() ==> group_is(
                #[trigger] groups[i],
                kind,
                duplicate_sets(match_graph(hashed_view(hashed@), threshold))[i],
            ),
        forall|i: int| 0 <= i < groups.len() ==> (#[trigger] groups[i]).duplicates.len() >= 1,
        forall|i: int, j: int| 0 <= i < j < groups.len() ==> path_before(#[trigger] groups[i].keep@, #[trigger] groups[j].keep@),
        groups_well_apart(groups@),
{
    let adj = pairwise_compare(hashed, threshold);
    proof {
        lemma_match_graph_one_spelling(hashed_view(hashed@), threshold);
        lemma_match_graph_shape(hashed_view(hashed@), threshold);
    }
    build_duplicate_groups(&adj, kind)
}


/// The image extensions, in lowercase.
pub open spec fn image_extension_list() -> Seq<Seq<char>> {
    seq!["jpg"@, "jpeg"@, "png"@, "bmp"@, "gif"@, "tiff"@, "webp"@]
}

/// The video extensions, in lowercase.
pub open spec fn video_extension_list() -> Seq<Seq<char>> {
    seq!["mp4"@, "mov"@, "avi"@, "mkv"@, "wmv"@, "flv"@, "webm"@, "m4v"@, "3gp"@]
}

/// The image extensions: jpg, jpeg, png, bmp, gif, tiff, webp.
pub fn image_extensions() -> (r: Vec<String>)
    ensures
        views(r@) == image_extension_list(),
{
    let r = vec![
        String::from_str("jpg"),
        String::from_str("jpeg"),
        String::from_str("png"),
        String::from_str("bmp"),
        String::from_str("gif"),
        String::from_str("tiff"),
        String::from_str("webp"),
    ];
    assert(views(r@) =~= image_extension_list());
    r
}

/// The video extensions: mp4, mov, avi, mkv, wmv, flv, webm, m4v, 3gp.
pub fn video_extensions() -> (r: Vec<String>)
    ensures
        views(r@) == video_extension_list(),
{
    let r = vec![
        String::from_str("mp4"),
        String::from_str("mov"),
        String::from_str("avi"),
        String::from_str("mkv"),
        String::from_str("wmv"),
        String::from_str("flv"),
        String::from_str("webm"),
        String::from_str("m4v"),
        String::from_str("3gp"),
    ];
    assert(views(r@) =~= video_extension_list());
    r
}

/// The audio extensions, in lowercase.
pub open spec fn audio_extension_list() -> Seq<Seq<char>> {
    seq!["mp3"@, "flac"@, "ogg"@, "opus"@, "m4a"@, "aac"@, "wav"@, "wma"@, "aiff"@]
}

/// The audio extensions: mp3, flac, ogg, opus, m4a, aac, wav, wma, aiff.
pub fn audio_extensions() -> (r: Vec<String>)
    ensures
        views(r@) == audio_extension_list(),
{
    let r = vec![
        String::from_str("mp3"),
        String::from_str("flac"),
        String::from_str("ogg"),
        String::from_str("opus"),
        String::from_str("m4a"),
        String::from_str("aac"),
        String::from_str("wav"),
        String::from_str("wma"),
        String::from_str("aiff"),
    ];
    assert(views(r@) =~= audio_extension_list());
    r
}

/// Every media extension: the image extensions, then the video extensions.
pub fn all_media_extensions() -> (r: Vec<String>)
    ensures
        views(r@) == image_extension_list() + video_extension_list(),
{
    let mut r = image_extensions();
    let mut v = video_extensions();
    let ghost a = r@;
    let ghost b = v@;
    r.append(&mut v);
    assert(views(r@) =~= views(a) + views(b));
    r
}

/// A file system entry as a directory walk reports it.
pub struct WalkEntry {
    pub path: String,
    pub is_file: bool,
    pub len: u64,
}

/// The lowercase form of a text, as `str::to_lowercase` gives it.
pub uninterp spec fn lowercase(s: Seq<char>) -> Seq<char>;

/// A character below 128.
pub open spec fn is_ascii_char(c: char) -> bool {
    (c as int) < 128
}

/// The ASCII lowercase form of a character: `A` to `Z` become `a` to `z`.
pub open spec fn ascii_lower(c: char) -> char {
    if 'A' <= c && c <= 'Z' {
        ((c as int) + 32) as char
    } else {
        c
    }
}

/// Calls `str::to_lowercase`; claimed: the result is `lowercase` of the
/// argument, and an ASCII text has its letters `A` to `Z` lowered and its
/// other characters kept, as the Unicode lowercase mapping does for ASCII.
#[verifier::external_body]
fn to_lowercase(s: &str) -> (r: String)
    ensures
        r@ == lowercase(s@),
        (forall|i: int| 0 <= i < s@.len() ==> is_ascii_char(#[trigger] s@[i])) ==> r@ == s@.map_values(
            |c: char| ascii_lower(c),
        ),
{
    s.to_lowercase()
}

/// The path has an extension whose lowercase form is one of `extensions`.
pub open spec fn has_media_extension(path: Seq<char>, extensions: Seq<Seq<char>>) -> bool {
    match path_extension(path) {
        Some(e) => extensions.contains(lowercase(e)),
        None => false,
    }
}

/// A media file of the wanted size class: a regular file with a listed
/// extension that is empty exactly when `empty` is asked for.
pub open spec fn entry_wanted(e: WalkEntry, extensions: Seq<Seq<char>>, empty: bool) -> bool {
    &&& e.is_file
    &&& has_media_extension(e.path@, extensions)
    &&& (e.len == 0) == empty
}

/// The paths of the wanted entries among the first `n`, in walk order.
pub open spec fn wanted_paths(entries: Seq<WalkEntry>, extensions: Seq<Seq<char>>, empty: bool, n: nat) -> Seq<Seq<char>>
    decreases n,
{
    if n == 0 || n > entries.len() {
        Seq::empty()
    } else {
        let prev = wanted_paths(entries, extensions, empty, (n - 1) as nat);
        if entry_wanted(entries[n - 1], extensions, empty) {
            prev.push(entries[n - 1].path@)
        } else {
            prev
        }
    }
}

/// Whether the entry is a media file of the wanted size class.
fn is_wanted(e: &WalkEntry, extensions: &Vec<String>, empty: bool) -> (r: bool)
    ensures
        r == entry_wanted(*e, views(extensions@), empty),
{
    if !e.is_file {
        return false;
    }
    let ext = match path_extension_exec(e.path.as_str()) {
        Some(x) => x,
        None => return false,
    };
    let lower = to_lowercase(ext.as_str());
    if !contains_path(extensions, &lower) {
        return false;
    }
    (e.len == 0) == empty
}

/// The paths of the wanted entries, in walk order.
fn wanted_entries(entries: &Vec<WalkEntry>, extensions: &Vec<String>, empty: bool) -> (r: Vec<String>)
    ensures
        views(r@) == wanted_paths(entries@, views(extensions@), empty, entries.len() as nat),
{
    let mut r: Vec<String> = Vec::new();
    let mut i: usize = 0;
    while i < entries.len()
        invariant
            i <= entries.len(),
            views(r@) == wanted_paths(entries@, views(extensions@), empty, i as nat),
        decreases entries.len() - i,
    {
        if is_wanted(&entries[i], extensions, empty) {
            let ghost before = r@;
            r.push(entries[i].path.clone());
            assert(views(r@) =~= views(before).push(entries@[i as int].path@));
        }
        i = i + 1;
    }
    r
}

/// A path is wanted exactly when one of the first `n` entries is a wanted
/// file at that path: a regular file with a listed extension, empty exactly
/// when `empty` is asked for.
pub proof fn lemma_wanted_paths_members(
    entries: Seq<WalkEntry>,
    extensions: Seq<Seq<char>>,
    empty: bool,
    n: nat,
    x: Seq<char>,
)
    requires
        n <= entries.len(),
    ensures
        wanted_paths(entries, extensions, empty, n).contains(x) <==> exists|i: int|
            0 <= i < n && entry_wanted(#[trigger] entries[i], extensions, empty) && entries[i].path@ == x,
    decreases n,
{
    if n > 0 {
        lemma_wanted_paths_members(entries, extensions, empty, (n - 1) as nat, x);
        let prev = wanted_paths(entries, extensions, empty, (n - 1) as nat);
        let e = entries[n - 1];
        if entry_wanted(e, extensions, empty) {
            let cur = prev.push(e.path@);
            if cur.contains(x) {
                let k = choose|k: int| 0 <= k < cur.len() && cur[k] == x;
                if k < prev.len() {
                    assert(prev[k] == x);
                }
            }
            if prev.contains(x) {
                let k = choose|k: int| 0 <= k < prev.len() && prev[k] == x;
                assert(cur[k] == x);
            }
            if e.path@ == x {
                assert(cur[prev.len() as int] == x);
            }
        }
    }
}

/// The non-empty media files among walked entries whose extension, in
/// lowercase, is one of `extensions`, each path once (named by the first text
/// found for it, as when directories overlap), sorted by the path order.
pub fn select_media_files(entries: &Vec<WalkEntry>, extensions: &Vec<String>) -> (files: Vec<String>)
    ensures
        strictly_sorted(views(files@)),
        names_distinct(views(files@)),
        views(files@) == sorted_set(
            first_occurrences(wanted_paths(entries@, views(extensions@), false, entries.len() as nat)).to_set(),
        ),
        forall|k: int|
            0 <= k < files.len() ==> wanted_paths(entries@, views(extensions@), false, entries.len() as nat).contains(
                #[trigger] views(files@)[k],
            ),
        forall|x: Seq<char>|
            #[trigger] wanted_paths(entries@, views(extensions@), false, entries.len() as nat).contains(x) ==> exists|k: int|
                0 <= k < files.len() && same_path(#[trigger] views(files@)[k], x),
{
    let found = wanted_entries(entries, extensions, false);
    let ghost w = views(found@);
    let files = sorted_first_paths(found);
    proof {
        assert forall|x: Seq<char>| #[trigger] w.contains(x) implies exists|k: int| 0 <= k < files.len() && same_path(
            #[trigger] views(files@)[k],
            x,
        ) by {
            let j = choose|j: int| 0 <= j < w.len() && w[j] == x;
        }
    }
    files
}

/// The empty (zero-byte) files among walked entries whose extension, in
/// lowercase, is one of `extensions`, each path once (named by the first text
/// found for it), sorted by the path order.
pub fn select_zero_byte_files(entries: &Vec<WalkEntry>, extensions: &Vec<String>) -> (files: Vec<String>)
    ensures
        strictly_sorted(views(files@)),
        names_distinct(views(files@)),
        views(files@) == sorted_set(
            first_occurrences(wanted_paths(entries@, views(extensions@), true, entries.len() as nat)).to_set(),
        ),
        forall|k: int|
            0 <= k < files.len() ==> wanted_paths(entries@, views(extensions@), true, entries.len() as nat).contains(
                #[trigger] views(files@)[k],
            ),
        forall|x: Seq<char>|
            #[trigger] wanted_paths(entries@, views(extensions@), true, entries.len() as nat).contains(x) ==> exists|k: int|
                0 <= k < files.len() && same_path(#[trigger] views(files@)[k], x),
{
    let found = wanted_entries(entries, extensions, true);
    let ghost w = views(found@);
    let files = sorted_first_paths(found);
    proof {
        assert forall|x: Seq<char>| #[trigger] w.contains(x) implies exists|k: int| 0 <= k < files.len() && same_path(
            #[trigger] views(files@)[k],
            x,
        ) by {
            let j = choose|j: int| 0 <= j < w.len() && w[j] == x;
        }
    }
    files
}


#[verifier::spinoff_prover]
proof fn lemma_hashed_prefix_distinct(files: Seq<String>, outcomes: Seq<Result<Vec<u8>, String>>, n: nat)
    requires
        strictly_sorted(views(files)),
        n <= files.len(),
        outcomes.len() == files.len(),
    ensures
        paths_distinct(hashed_prefix(files, outcomes, n)),
        forall|k: int| 0 <= k < hashed_prefix(files, outcomes, n).len() ==> exists|j: int| 0 <= j < n
            && #[trigger] hashed_prefix(files, outcomes, n)[k].0 == views(files)[j],
    decreases n,
{
    if n > 0 {
        lemma_hashed_prefix_distinct(files, outcomes, (n - 1) as nat);
        let prev = hashed_prefix(files, outcomes, (n - 1) as nat);
        let cur = hashed_prefix(files, outcomes, n);
        match outcomes[n - 1] {
            Ok(h) => {
                assert(cur == prev.push((files[n - 1]@, h@)));
                assert(views(files)[n - 1] == files[n - 1]@);
                assert forall|k: int| 0 <= k < cur.len() implies exists|j: int| 0 <= j < n
                    && #[trigger] cur[k].0 == views(files)[j] by {
                    if k < prev.len() {
                        assert(cur[k] == prev[k]);
                        let j = choose|j: int| 0 <= j < n - 1 && #[trigger] prev[k].0 == views(files)[j];
                    } else {
                        assert(cur[k].0 == views(files)[n - 1]);
                    }
                }
                assert forall|a: int, b: int| 0 <= a < b < cur.len() implies #[trigger] cur[a].0 != #[trigger] cur[b].0 by {
                    if b < prev.len() {
                        assert(cur[a] == prev[a] && cur[b] == prev[b]);
                    } else {
                        assert(cur[a] == prev[a]);
                        let j = choose|j: int| 0 <= j < n - 1 && #[trigger] prev[a].0 == views(files)[j];
                        assert(path_before(views(files)[j], views(files)[n - 1]));
                        crate::paths::lemma_path_before_properties(views(files)[j], views(files)[n - 1], views(files)[j]);
                    }
                }
            },
            Err(_) => {
                assert(cur == prev);
                assert forall|k: int| 0 <= k < cur.len() implies exists|j: int| 0 <= j < n
                    && #[trigger] cur[k].0 == views(files)[j] by {
                    let j = choose|j: int| 0 <= j < n - 1 && #[trigger] prev[k].0 == views(files)[j];
                }
            },
        }
    }
}

/// The files that were hashed name distinct paths when the files do.
proof fn lemma_hashed_prefix_names_distinct(files: Seq<String>, outcomes: Seq<Result<Vec<u8>, String>>, n: nat)
    requires
        strictly_sorted(views(files)),
        names_distinct(views(files)),
        n <= files.len(),
        outcomes.len() == files.len(),
    ensures
        file_names_distinct(hashed_prefix(files, outcomes, n)),
{
    lemma_hashed_prefix_distinct(files, outcomes, n);
    let h = hashed_prefix(files, outcomes, n);
    assert forall|a: int, b: int| 0 <= a < h.len() && 0 <= b < h.len() && a != b implies !same_path(
        #[trigger] h[a].0,
        #[trigger] h[b].0,
    ) by {
        let ja = choose|j: int| 0 <= j < n && #[trigger] hashed_prefix(files, outcomes, n)[a].0 == views(files)[j];
        let jb = choose|j: int| 0 <= j < n && #[trigger] hashed_prefix(files, outcomes, n)[b].0 == views(files)[j];
        if a < b {
            assert(h[a].0 != h[b].0);
        } else {
            assert(h[b].0 != h[a].0);
        }
        assert(ja != jb);
        assert(!same_path(views(files)[ja], views(files)[jb]));
    }
}

/// The matching pass over the files of one media kind, given how hashing each
/// of them went: the files that could not be hashed are skipped with their
/// reasons, and the hashed files are grouped by `group_hashed_files`.
pub fn match_pass(
    files: &Vec<String>,
    outcomes: Vec<Result<Vec<u8>, String>>,
    threshold: u32,
    kind: MediaKind,
) -> (r: (Vec<DuplicateGroup>, Vec<SkippedFile>))
    requires
        strictly_sorted(views(files@)),
        names_distinct(views(files@)),
        outcomes.len() == files.len(),
    ensures
        r.0.len() == duplicate_sets(match_graph(hashed_prefix(files@, outcomes@, files.len() as nat), threshold)).len(),
        forall|i: int|
            0 <= i < r.0.len() ==> group_is(
                #[trigger] r.0[i],
                kind,
                duplicate_sets(match_graph(hashed_prefix(files@, outcomes@, files.len() as nat), threshold))[i],
            ),
        forall|i: int| 0 <= i < r.0.len() ==> (#[trigger] r.0[i]).duplicates.len() >= 1,
        forall|i: int, j: int| 0 <= i < j < r.0.len() ==> path_before(#[trigger] r.0[i].keep@, #[trigger] r.0[j].keep@),
        groups_well_apart(r.0@),
        skipped_view(r.1@) == skipped_prefix(files@, outcomes@, files.len() as nat),
{
    proof {
        lemma_hashed_prefix_names_distinct(files@, outcomes@, files.len() as nat);
    }
    let (hashed, skipped) = partition_outcomes(files, outcomes);
    let groups = group_hashed_files(&hashed, threshold, kind);
    (groups, skipped)
}

} // verus!
