//! The deduplication report and the decisions that assemble it.
use vstd::prelude::*;
use crate::paths::views;

verus! {

/// Whether a media file is handled as an image, a video or an audio track.
#[derive(Clone, Copy, Debug, PartialEq, Eq, Structural)]
pub enum MediaKind {
    Image,
    Video,
    Audio,
}

/// What a deduplication run does.
pub struct Config {
    /// Largest hamming distance at which two perceptual hashes match.
    pub threshold: u32,
    /// Restrict the run to one media kind.
    pub only: Option<MediaKind>,
    /// Report zero-byte media files and schedule them for deletion.
    pub include_empty: bool,
}

/// A media file that could not be hashed, and why.
#[derive(Debug)]
pub struct SkippedFile {
    pub path: String,
    pub reason: String,
}

/// A media file with its perceptual hash.
#[derive(Debug)]
pub struct HashedFile {
    pub path: String,
    pub hash: Vec<u8>,
}

/// Files of one media kind that match each other: one is kept, the rest are
/// duplicates.
#[derive(Debug)]
pub struct DuplicateGroup {
    pub kind: MediaKind,
    pub keep: String,
    pub duplicates: Vec<String>,
}

/// The outcome of a deduplication run.
#[derive(Debug)]
pub struct DeduplicationReport {
    pub groups: Vec<DuplicateGroup>,
    pub empty_files: Vec<String>,
    pub skipped: Vec<SkippedFile>,
    pub to_delete: Vec<String>,
}


/// Whether the pass over files of `kind` runs when the run is restricted to `only`.
pub open spec fn pass_runs(only: Option<MediaKind>, kind: MediaKind) -> bool {
    match only {
        None => true,
        Some(k) => k == kind,
    }
}

/// Law: an unrestricted run runs every pass; a run restricted to one kind
/// runs the pass of that kind and no other.
pub proof fn lemma_only_one_kind(k: MediaKind, kind: MediaKind)
    ensures
        pass_runs(None, kind),
        pass_runs(Some(k), kind) <==> k == kind,
        pass_runs(Some(k), k),
{
}

/// Whether the pass over files of `kind` runs: every pass runs unless the run
/// is restricted to another media kind.
pub fn pass_enabled(only: Option<MediaKind>, kind: MediaKind) -> (r: bool)
    ensures
        only is None ==> r,
        only matches Some(k) ==> (r <==> k == kind),
        r == pass_runs(only, kind),
{
    match only {
        None => true,
        Some(k) => k == kind,
    }
}

/// The hashed files among the first `n`, in order.
pub open spec fn hashed_prefix(files: Seq<String>, outcomes: Seq<Result<Vec<u8>, String>>, n: nat) -> Seq<(Seq<char>, Seq<u8>)>
    decreases n,
{
    if n == 0 {
        Seq::empty()
    } else {
        let prev = hashed_prefix(files, outcomes, (n - 1) as nat);
        match outcomes[n - 1] {
            Ok(h) => prev.push((files[n - 1]@, h@)),
            Err(_) => prev,
        }
    }
}

/// The skipped files among the first `n`, with their reasons, in order.
pub open spec fn skipped_prefix(files: Seq<String>, outcomes: Seq<Result<Vec<u8>, String>>, n: nat) -> Seq<(Seq<char>, Seq<char>)>
    decreases n,
{
    if n == 0 {
        Seq::empty()
    } else {
        let prev = skipped_prefix(files, outcomes, (n - 1) as nat);
        match outcomes[n - 1] {
            Ok(_) => prev,
            Err(e) => prev.push((files[n - 1]@, e@)),
        }
    }
}

/// Law: every file is either hashed or skipped, exactly once: the hashed and
/// the skipped files among the first `n` number `n` together.
pub proof fn lemma_every_file_hashed_or_skipped(files: Seq<String>, outcomes: Seq<Result<Vec<u8>, String>>, n: nat)
    ensures
        hashed_prefix(files, outcomes, n).len() + skipped_prefix(files, outcomes, n).len() == n,
    decreases n,
{
    if n > 0 {
        lemma_every_file_hashed_or_skipped(files, outcomes, (n - 1) as nat);
    }
}

/// The paths and reasons of skipped files.
pub open spec fn skipped_view(s: Seq<SkippedFile>) -> Seq<(Seq<char>, Seq<char>)> {
    s.map_values(|f: SkippedFile| (f.path@, f.reason@))
}

/// Splits the hashing outcomes of `files` into the hashed files and the
/// skipped ones, each in the order of `files`.
pub fn partition_outcomes(files: &Vec<String>, outcomes: Vec<Result<Vec<u8>, String>>) -> (r: (
    Vec<HashedFile>,
    Vec<SkippedFile>,
))
    requires
        outcomes.len() == files.len(),
    ensures
        crate::scan::hashed_view(r.0@) == hashed_prefix(files@, outcomes@, files.len() as nat),
        skipped_view(r.1@) == skipped_prefix(files@, outcomes@, files.len() as nat),
{
    let ghost all = outcomes@;
    let mut hashed: Vec<HashedFile> = Vec::new();
    let mut skipped: Vec<SkippedFile> = Vec::new();
    let n = files.len();
    let mut source = outcomes;
    let mut rest: Vec<Result<Vec<u8>, String>> = Vec::new();
    while source.len() > 0
        invariant
            all.len() == n,
            source.len() + rest.len() == n,
            forall|k: int| 0 <= k < source.len() ==> #[trigger] source@[k] == all[k],
            forall|k: int| 0 <= k < rest.len() ==> #[trigger] rest@[k] == all[n - 1 - k],
        decreases source.len(),
    {
        let ghost before_source = source@;
        let ghost before_rest = rest@;
        let x = source.pop().unwrap();
        rest.push(x);
        assert forall|k: int| 0 <= k < source.len() implies #[trigger] source@[k] == all[k] by {
            assert(source@[k] == before_source[k]);
        }
        assert forall|k: int| 0 <= k < rest.len() implies #[trigger] rest@[k] == all[n - 1 - k] by {
            if k < before_rest.len() {
                assert(rest@[k] == before_rest[k]);
            }
        }
    }
    let mut i: usize = 0;
    while i < n
        invariant
            n == files.len(),
            all.len() == n,
            i <= n,
            rest.len() == n - i,
            forall|k: int| 0 <= k < rest.len() ==> #[trigger] rest@[k] == all[n - 1 - k],
            crate::scan::hashed_view(hashed@) == hashed_prefix(files@, all, i as nat),
            skipped_view(skipped@) == skipped_prefix(files@, all, i as nat),
        decreases n - i,
    {
        let ghost before_rest = rest@;
        let outcome = rest.pop().unwrap();
        assert(outcome == all[i as int]);
        assert forall|k: int| 0 <= k < rest.len() implies #[trigger] rest@[k] == all[n - 1 - k] by {
            assert(rest@[k] == before_rest[k]);
        }
        match outcome {
            Ok(h) => {
                let ghost before = hashed@;
                let p = files[i].clone();
                hashed.push(HashedFile { path: p, hash: h });
                assert(crate::scan::hashed_view(hashed@) =~= crate::scan::hashed_view(before).push((files@[i as int]@, h@)));
            },
            Err(e) => {
                let ghost before = skipped@;
                let p = files[i].clone();
                skipped.push(SkippedFile { path: p, reason: e });
                assert(skipped_view(skipped@) =~= skipped_view(before).push((files@[i as int]@, e@)));
            },
        }
        i = i + 1;
    }
    (hashed, skipped)
}

/// The duplicates of all groups, group after group.
pub open spec fn all_duplicates(groups: Seq<DuplicateGroup>) -> Seq<Seq<char>>
    decreases groups.len(),
{
    if groups.len() == 0 {
        Seq::empty()
    } else {
        all_duplicates(groups.drop_last()) + views(groups.last().duplicates@)
    }
}

/// How many duplicates the groups hold together: the sum of their numbers of
/// duplicates.
pub open spec fn duplicate_count(groups: Seq<DuplicateGroup>) -> nat
    decreases groups.len(),
{
    if groups.len() == 0 {
        0
    } else {
        duplicate_count(groups.drop_last()) + groups.last().duplicates@.len()
    }
}

/// Law: the duplicates of all groups, together, are as many as the groups'
/// numbers of duplicates added up.
pub proof fn lemma_all_duplicates_count(groups: Seq<DuplicateGroup>)
    ensures
        all_duplicates(groups).len() == duplicate_count(groups),
    decreases groups.len(),
{
    if groups.len() > 0 {
        lemma_all_duplicates_count(groups.drop_last());
    }
}

/// The files of a group: its kept file and its duplicates.
pub open spec fn group_members(g: DuplicateGroup) -> Set<Seq<char>> {
    (seq![g.keep@] + views(g.duplicates@)).to_set()
}

/// No file belongs to two groups, and no group lists its kept file among its
/// duplicates.
pub open spec fn groups_well_apart(groups: Seq<DuplicateGroup>) -> bool {
    &&& forall|i: int, j: int|
        0 <= i < j < groups.len() ==> group_members(#[trigger] groups[i]).disjoint(group_members(#[trigger] groups[j]))
    &&& forall|i: int| 0 <= i < groups.len() ==> !views((#[trigger] groups[i]).duplicates@).contains(groups[i].keep@)
}

proof fn lemma_duplicate_in_some_group(groups: Seq<DuplicateGroup>, x: Seq<char>)
    requires
        all_duplicates(groups).contains(x),
    ensures
        exists|m: int| 0 <= m < groups.len() && views((#[trigger] groups[m]).duplicates@).contains(x),
    decreases groups.len(),
{
    let prev = groups.drop_last();
    let last = views(groups.last().duplicates@);
    let k = choose|k: int| 0 <= k < all_duplicates(groups).len() && all_duplicates(groups)[k] == x;
    if k < all_duplicates(prev).len() {
        assert(all_duplicates(prev)[k] == x);
        lemma_duplicate_in_some_group(prev, x);
        let m = choose|m: int| 0 <= m < prev.len() && views((#[trigger] prev[m]).duplicates@).contains(x);
        assert(groups[m] == prev[m]);
    } else {
        assert(last[k - all_duplicates(prev).len()] == x);
        assert(groups[groups.len() - 1] == groups.last());
    }
}

/// Law: when no file belongs to two groups and no group lists its kept file
/// among its duplicates, no kept file is among the files to delete.
pub proof fn lemma_kept_files_not_deleted(groups: Seq<DuplicateGroup>, i: int)
    requires
        groups_well_apart(groups),
        0 <= i < groups.len(),
    ensures
        !all_duplicates(groups).contains(groups[i].keep@),
{
    let x = groups[i].keep@;
    if all_duplicates(groups).contains(x) {
        lemma_duplicate_in_some_group(groups, x);
        let m = choose|m: int| 0 <= m < groups.len() && views((#[trigger] groups[m]).duplicates@).contains(x);
        assert(m != i);
        assert(group_members(groups[i]).contains(x)) by {
            assert((seq![x] + views(groups[i].duplicates@))[0] == x);
        }
        assert(group_members(groups[m]).contains(x)) by {
            let t = choose|t: int| 0 <= t < views(groups[m].duplicates@).len() && views(groups[m].duplicates@)[t] == x;
            assert((seq![groups[m].keep@] + views(groups[m].duplicates@))[t + 1] == x);
        }
        if i < m {
            assert(group_members(groups[i]).disjoint(group_members(groups[m])));
        } else {
            assert(group_members(groups[m]).disjoint(group_members(groups[i])));
        }
    }
}

/// The duplicates of all groups, group after group: the files a run deletes.
pub fn duplicate_paths(groups: &Vec<DuplicateGroup>) -> (r: Vec<String>)
    ensures
        views(r@) == all_duplicates(groups@),
{
    let mut r: Vec<String> = Vec::new();
    let mut i: usize = 0;
    while i < groups.len()
        invariant
            i <= groups.len(),
            views(r@) == all_duplicates(groups@.take(i as int)),
        decreases groups.len() - i,
    {
        let dups = &groups[i].duplicates;
        let ghost start = views(r@);
        let mut j: usize = 0;
        while j < dups.len()
            invariant
                j <= dups.len(),
                views(r@) == start + views(dups@).take(j as int),
            decreases dups.len() - j,
        {
            let c = dups[j].clone();
            let ghost before = r@;
            r.push(c);
            assert(views(r@) =~= views(before).push(c@));
            assert(views(dups@).take(j + 1) =~= views(dups@).take(j as int).push(c@));
            assert(views(r@) =~= start + views(dups@).take(j + 1));
            j = j + 1;
        }
        proof {
            assert(views(dups@).take(dups.len() as int) =~= views(dups@));
            assert(groups@.take(i + 1).drop_last() =~= groups@.take(i as int));
        }
        i = i + 1;
    }
    assert(groups@.take(groups.len() as int) =~= groups@);
    r
}

/// Number of files marked for deletion across all groups.
pub fn total_duplicates(groups: &Vec<DuplicateGroup>) -> (n: usize)
    ensures
        n == all_duplicates(groups@).len(),
{
    duplicate_paths(groups).len()
}

/// Assembles the report of a run: the empty files are reported only when they
/// were asked for, and the files to delete are the duplicates of every group,
/// in order, then those empty files.
pub fn finish_report(
    groups: Vec<DuplicateGroup>,
    empty_files: Vec<String>,
    skipped: Vec<SkippedFile>,
    include_empty: bool,
) -> (r: DeduplicationReport)
    ensures
        r.groups@ == groups@,
        include_empty ==> r.empty_files@ == empty_files@,
        !include_empty ==> r.empty_files@.len() == 0,
        r.skipped@ == skipped@,
        views(r.to_delete@) == all_duplicates(groups@) + (if include_empty {
            views(empty_files@)
        } else {
            Seq::empty()
        }),
        groups_well_apart(groups@) ==> forall|i: int|
            0 <= i < groups.len() && views(r.to_delete@).contains(#[trigger] groups@[i].keep@) ==> include_empty
                && views(empty_files@).contains(groups@[i].keep@),
{
    let empty_files = if include_empty { empty_files } else { Vec::new() };
    let mut to_delete = duplicate_paths(&groups);
    if include_empty {
        let ghost start = views(to_delete@);
        let mut j: usize = 0;
        while j < empty_files.len()
            invariant
                j <= empty_files.len(),
                views(to_delete@) == start + views(empty_files@).take(j as int),
            decreases empty_files.len() - j,
        {
            let c = empty_files[j].clone();
            let ghost before = to_delete@;
            to_delete.push(c);
            assert(views(to_delete@) =~= views(before).push(c@));
            assert(views(empty_files@).take(j + 1) =~= views(empty_files@).take(j as int).push(c@));
            assert(views(to_delete@) =~= start + views(empty_files@).take(j + 1));
            j = j + 1;
        }
        assert(views(empty_files@).take(empty_files.len() as int) =~= views(empty_files@));
    } else {
        assert(views(to_delete@) =~= views(to_delete@) + Seq::<Seq<char>>::empty());
    }
    proof {
        if groups_well_apart(groups@) {
            assert forall|i: int|
                0 <= i < groups.len() && views(to_delete@).contains(#[trigger] groups@[i].keep@) implies include_empty
                    && views(empty_files@).contains(groups@[i].keep@) by {
                lemma_kept_files_not_deleted(groups@, i);
                let a = all_duplicates(groups@);
                let b = if include_empty { views(empty_files@) } else { Seq::empty() };
                let t = choose|t: int| 0 <= t < views(to_delete@).len() && views(to_delete@)[t] == groups@[i].keep@;
                if t < a.len() {
                    assert(a[t] == groups@[i].keep@);
                } else {
                    assert(b[t - a.len()] == groups@[i].keep@);
                }
            }
        }
    }
    DeduplicationReport { groups, empty_files, skipped, to_delete }
}


/// `path` lies in the directory `dir` or below it, both taken as written.
pub open spec fn inside_dir(path: Seq<char>, dir: Seq<char>) -> bool {
    ||| path == dir
    ||| (dir.len() > 0 && dir.last() == '/' && dir.is_prefix_of(path))
    ||| (dir.len() > 0 && dir.last() != '/' && dir.push('/').is_prefix_of(path))
}

/// Whether `path` lies in the directory `dir` or below it.
pub fn is_inside_dir(path: &str, dir: &str) -> (r: bool)
    ensures
        r == inside_dir(path@, dir@),
{
    let n = path.unicode_len();
    let m = dir.unicode_len();
    if m == 0 {
        proof {
            if n == 0 {
                assert(path@ =~= dir@);
            }
        }
        return n == 0;
    }
    if m > n {
        return false;
    }
    let mut i: usize = 0;
    while i < m
        invariant
            m == dir@.len(),
            n == path@.len(),
            0 < m <= n,
            i <= m,
            forall|k: int| 0 <= k < i ==> path@[k] == dir@[k],
        decreases m - i,
    {
        if path.get_char(i) != dir.get_char(i) {
            proof {
                assert(path@[i as int] != dir@[i as int]);
                assert(!dir.view().is_prefix_of(path@));
                assert(path@ != dir@);
                assert(!dir@.push('/').is_prefix_of(path@)) by {
                    assert(dir@.push('/')[i as int] == dir@[i as int]);
                }
            }
            return false;
        }
        i = i + 1;
    }
    assert(dir@ =~= path@.subrange(0, m as int));
    assert(dir@.is_prefix_of(path@));
    if n == m {
        assert(path@ =~= dir@);
        return true;
    }
    let last = dir.get_char(m - 1);
    if last == '/' {
        true
    } else {
        let next = path.get_char(m);
        proof {
            if next == '/' {
                assert(dir@.push('/') =~= path@.subrange(0, m + 1));
            } else {
                assert(dir@.push('/')[m as int] != path@[m as int]);
            }
        }
        next == '/'
    }
}

/// The position, in `locations`, of the file to keep by the directory
/// preference `keep_dirs`: the first listed file inside the first directory
/// that holds any of them; `None` when no directory holds one.
pub open spec fn preferred_position(locations: Seq<Seq<char>>, keep_dirs: Seq<Seq<char>>) -> Option<int>
    decreases keep_dirs.len(),
{
    if keep_dirs.len() == 0 {
        None
    } else {
        let d = keep_dirs[0];
        if exists|k: int| 0 <= k < locations.len() && inside_dir(#[trigger] locations[k], d) {
            Some(choose|k: int| 0 <= k < locations.len() && inside_dir(#[trigger] locations[k], d)
                && forall|q: int| 0 <= q < k ==> !inside_dir(#[trigger] locations[q], d))
        } else {
            preferred_position(locations, keep_dirs.drop_first())
        }
    }
}

/// The first position among `locations` inside `dir`.
fn first_inside(locations: &Vec<String>, dir: &String) -> (r: Option<usize>)
    ensures
        match r {
            Some(k) => k < locations.len() && inside_dir(views(locations@)[k as int], dir@) && forall|q: int|
                0 <= q < k ==> !inside_dir(#[trigger] views(locations@)[q], dir@),
            None => forall|q: int| 0 <= q < locations.len() ==> !inside_dir(#[trigger] views(locations@)[q], dir@),
        },
{
    let mut k: usize = 0;
    while k < locations.len()
        invariant
            k <= locations.len(),
            forall|q: int| 0 <= q < k ==> !inside_dir(#[trigger] views(locations@)[q], dir@),
        decreases locations.len() - k,
    {
        if is_inside_dir(locations[k].as_str(), dir.as_str()) {
            return Some(k);
        }
        k = k + 1;
    }
    None
}

/// Moves the kept file of a group by the directory preference: the members of
/// `group` are its kept file then its duplicates, and `locations` holds where
/// each of them lies, in the same order. When one of `keep_dirs` holds a
/// member, the first such member of the first such directory becomes the kept
/// file and the others, in order, its duplicates; otherwise the group is
/// unchanged.
pub fn prefer_kept(group: DuplicateGroup, locations: &Vec<String>, keep_dirs: &Vec<String>) -> (r: DuplicateGroup)
    requires
        locations.len() == group.duplicates.len() + 1,
    ensures
        r.kind == group.kind,
        match preferred_position(views(locations@), views(keep_dirs@)) {
            None => r.keep@ == group.keep@ && views(r.duplicates@) == views(group.duplicates@),
            Some(k) => seq![r.keep@] + views(r.duplicates@) == (seq![group.keep@] + views(group.duplicates@)).remove(k).insert(0, (seq![group.keep@] + views(group.duplicates@))[k]),
        },
{
    let ghost locs = views(locations@);
    let mut d: usize = 0;
    assert(views(keep_dirs@).skip(0) =~= views(keep_dirs@));
    while d < keep_dirs.len()
        invariant
            d <= keep_dirs.len(),
            locs == views(locations@),
            locations.len() == group.duplicates.len() + 1,
            preferred_position(locs, views(keep_dirs@)) == preferred_position(locs, views(keep_dirs@).skip(d as int)),
        decreases keep_dirs.len() - d,
    {
        let ghost rest = views(keep_dirs@).skip(d as int);
        assert(rest[0] == keep_dirs@[d as int]@);
        assert(rest.drop_first() =~= views(keep_dirs@).skip(d + 1));
        match first_inside(locations, &keep_dirs[d]) {
            Some(k) => {
                proof {
                    assert(exists|q: int| 0 <= q < locs.len() && inside_dir(#[trigger] locs[q], rest[0])) by {
                        assert(inside_dir(locs[k as int], rest[0]));
                    }
                    let c = choose|q: int| 0 <= q < locs.len() && inside_dir(#[trigger] locs[q], rest[0])
                        && forall|p: int| 0 <= p < q ==> !inside_dir(#[trigger] locs[p], rest[0]);
                    assert(c == k as int) by {
                        if c < k {
                            assert(!inside_dir(locs[c], rest[0]));
                        }
                        if c > k {
                            assert(!inside_dir(locs[k as int], rest[0]));
                        }
                    }
                    assert(preferred_position(locs, rest) == Some(k as int));
                }
                let ghost listing = seq![group.keep@] + views(group.duplicates@);
                let mut members: Vec<String> = Vec::new();
                members.push(group.keep);
                let mut dups = group.duplicates;
                let ghost dv = views(dups@);
                members.append(&mut dups);
                assert(views(members@) =~= listing);
                let ghost before = members@;
                let keep = members.remove(k);
                assert(keep@ == listing[k as int]);
                assert(views(members@) =~= listing.remove(k as int)) by {
                    assert(members@ == before.remove(k as int));
                }
                assert(seq![keep@] + views(members@) =~= listing.remove(k as int).insert(0, listing[k as int]));
                return DuplicateGroup { kind: group.kind, keep, duplicates: members };
            },
            None => {
                proof {
                    assert(!exists|q: int| 0 <= q < locs.len() && inside_dir(#[trigger] locs[q], rest[0]));
                }
            },
        }
        d = d + 1;
    }
    assert(views(keep_dirs@).skip(keep_dirs.len() as int).len() == 0);
    group
}

} // verus!
