//! What a run does once its report is ready: what it prints, what it
//! deletes, and the exit status it ends with.
use vstd::prelude::*;
use crate::dedupe::{all_duplicates, duplicate_paths, total_duplicates, DuplicateGroup};
use crate::paths::views;
use crate::scan::copy_paths;

verus! {

/// One step of a run after planning, in the order they are taken.
pub enum OutputStep {
    /// Print the report as JSON.
    Json,
    /// Print the table of empty files.
    EmptyTable,
    /// Print the table of duplicates.
    DuplicatesTable,
    /// Print that no duplicates were found.
    NoDuplicates,
    /// Ask, unless told yes, and delete these files of this kind.
    Delete(String, Vec<String>),
    /// Print how many files a dry run would delete.
    WouldDelete(usize),
    /// Print how many files the deletions removed, if any.
    RemovedTotal,
}

/// The model of a step.
pub enum StepView {
    Json,
    EmptyTable,
    DuplicatesTable,
    NoDuplicates,
    Delete(Seq<char>, Seq<Seq<char>>),
    WouldDelete(nat),
    RemovedTotal,
}

/// The model of a step.
pub open spec fn step_view(s: OutputStep) -> StepView {
    match s {
        OutputStep::Json => StepView::Json,
        OutputStep::EmptyTable => StepView::EmptyTable,
        OutputStep::DuplicatesTable => StepView::DuplicatesTable,
        OutputStep::NoDuplicates => StepView::NoDuplicates,
        OutputStep::Delete(label, paths) => StepView::Delete(label@, views(paths@)),
        OutputStep::WouldDelete(n) => StepView::WouldDelete(n as nat),
        OutputStep::RemovedTotal => StepView::RemovedTotal,
    }
}

/// The models of a list of steps.
pub open spec fn steps_view(s: Seq<OutputStep>) -> Seq<StepView> {
    s.map_values(|x: OutputStep| step_view(x))
}

/// The steps that print the report: the JSON report, or the tables of the
/// empty files and of the duplicates that there are, and that no duplicates
/// were found when there is neither.
pub open spec fn print_steps(groups: Seq<DuplicateGroup>, empty_files: Seq<Seq<char>>, json: bool) -> Seq<StepView> {
    if json {
        seq![StepView::Json]
    } else {
        (if empty_files.len() > 0 {
            seq![StepView::EmptyTable]
        } else {
            Seq::empty()
        }) + (if groups.len() > 0 {
            seq![StepView::DuplicatesTable]
        } else if empty_files.len() == 0 {
            seq![StepView::NoDuplicates]
        } else {
            Seq::empty()
        })
    }
}

/// The deletions: none in a dry run; otherwise the empty files, then the
/// duplicates of every group, each when there are any.
pub open spec fn delete_steps(groups: Seq<DuplicateGroup>, empty_files: Seq<Seq<char>>, dry_run: bool) -> Seq<StepView> {
    if dry_run {
        Seq::empty()
    } else {
        (if empty_files.len() > 0 {
            seq![StepView::Delete("empty"@, empty_files)]
        } else {
            Seq::empty()
        }) + (if groups.len() > 0 {
            seq![StepView::Delete("duplicate"@, all_duplicates(groups))]
        } else {
            Seq::empty()
        })
    }
}

/// The closing line, outside JSON output: in a dry run that found duplicates,
/// how many files would be deleted; in a run that deletes, how many were.
pub open spec fn closing_steps(groups: Seq<DuplicateGroup>, dry_run: bool, json: bool) -> Seq<StepView> {
    if json {
        Seq::empty()
    } else if dry_run {
        if groups.len() > 0 {
            seq![StepView::WouldDelete(all_duplicates(groups).len())]
        } else {
            Seq::empty()
        }
    } else {
        seq![StepView::RemovedTotal]
    }
}

/// The steps of a run, in order.
pub open spec fn planned_steps(
    groups: Seq<DuplicateGroup>,
    empty_files: Seq<Seq<char>>,
    dry_run: bool,
    json: bool,
) -> Seq<StepView> {
    print_steps(groups, empty_files, json) + delete_steps(groups, empty_files, dry_run) + closing_steps(
        groups,
        dry_run,
        json,
    )
}

/// The deletion steps among `s`, in order.
pub open spec fn deletions(s: Seq<StepView>) -> Seq<StepView>
    decreases s.len(),
{
    if s.len() == 0 {
        Seq::empty()
    } else if s.last() is Delete {
        deletions(s.drop_last()).push(s.last())
    } else {
        deletions(s.drop_last())
    }
}

proof fn lemma_deletions_add(a: Seq<StepView>, b: Seq<StepView>)
    ensures
        deletions(a + b) == deletions(a) + deletions(b),
    decreases b.len(),
{
    if b.len() == 0 {
        assert(a + b =~= a);
        assert(deletions(a) + deletions(b) =~= deletions(a));
    } else {
        lemma_deletions_add(a, b.drop_last());
        assert((a + b).drop_last() =~= a + b.drop_last());
        assert((a + b).last() == b.last());
        if b.last() is Delete {
            assert(deletions(a) + deletions(b.drop_last()).push(b.last()) =~= (deletions(a) + deletions(
                b.drop_last(),
            )).push(b.last()));
        }
    }
}

proof fn lemma_deletions_one(x: StepView)
    ensures
        deletions(seq![x]) == (if x is Delete { seq![x] } else { Seq::<StepView>::empty() }),
{
    assert(seq![x].drop_last() =~= Seq::<StepView>::empty());
    assert(deletions(seq![x].drop_last()) =~= Seq::<StepView>::empty());
    assert(seq![x].last() == x);
    assert(Seq::<StepView>::empty().push(x) =~= seq![x]);
}

/// Law: of the steps of a run, only the deletions delete: none in a dry run,
/// and otherwise the empty files, then the duplicates of every group.
pub proof fn lemma_deletes_of_run(groups: Seq<DuplicateGroup>, empty_files: Seq<Seq<char>>, dry_run: bool, json: bool)
    ensures
        deletions(planned_steps(groups, empty_files, dry_run, json)) == delete_steps(groups, empty_files, dry_run),
{
    let p = print_steps(groups, empty_files, json);
    let d = delete_steps(groups, empty_files, dry_run);
    let c = closing_steps(groups, dry_run, json);
    lemma_deletions_add(p + d, c);
    lemma_deletions_add(p, d);
    lemma_deletions_add(Seq::<StepView>::empty(), Seq::<StepView>::empty());
    lemma_deletions_one(StepView::Json);
    lemma_deletions_one(StepView::EmptyTable);
    lemma_deletions_one(StepView::DuplicatesTable);
    lemma_deletions_one(StepView::NoDuplicates);
    lemma_deletions_one(StepView::RemovedTotal);
    lemma_deletions_one(StepView::WouldDelete(all_duplicates(groups).len()));
    lemma_deletions_one(StepView::Delete("empty"@, empty_files));
    lemma_deletions_one(StepView::Delete("duplicate"@, all_duplicates(groups)));
    lemma_deletions_add(seq![StepView::EmptyTable], seq![StepView::DuplicatesTable]);
    lemma_deletions_add(seq![StepView::EmptyTable], seq![StepView::NoDuplicates]);
    lemma_deletions_add(seq![StepView::EmptyTable], Seq::<StepView>::empty());
    lemma_deletions_add(Seq::<StepView>::empty(), seq![StepView::DuplicatesTable]);
    lemma_deletions_add(Seq::<StepView>::empty(), seq![StepView::NoDuplicates]);
    lemma_deletions_add(seq![StepView::Delete("empty"@, empty_files)], seq![StepView::Delete("duplicate"@, all_duplicates(groups))]);
    lemma_deletions_add(seq![StepView::Delete("empty"@, empty_files)], Seq::<StepView>::empty());
    lemma_deletions_add(Seq::<StepView>::empty(), seq![StepView::Delete("duplicate"@, all_duplicates(groups))]);
    assert(deletions(Seq::<StepView>::empty()) == Seq::<StepView>::empty());
    assert(deletions(p) =~= Seq::<StepView>::empty());
    assert(deletions(c) =~= Seq::<StepView>::empty());
    assert(deletions(d) =~= d);
    assert(deletions(p) + deletions(d) + deletions(c) =~= d);
}

/// Law: a run that is not a dry run deletes the empty files whenever there
/// are any, whatever the groups, and the duplicates of every group whenever
/// there are groups; it deletes nothing else. A dry run deletes nothing.
pub proof fn lemma_what_a_run_deletes(
    groups: Seq<DuplicateGroup>,
    empty_files: Seq<Seq<char>>,
    json: bool,
)
    ensures
        empty_files.len() > 0 ==> deletions(planned_steps(groups, empty_files, false, json)).contains(
            StepView::Delete("empty"@, empty_files),
        ),
        groups.len() > 0 ==> deletions(planned_steps(groups, empty_files, false, json)).contains(
            StepView::Delete("duplicate"@, all_duplicates(groups)),
        ),
        forall|i: int|
            0 <= i < deletions(planned_steps(groups, empty_files, false, json)).len() ==> (#[trigger] deletions(
                planned_steps(groups, empty_files, false, json),
            )[i] == StepView::Delete("empty"@, empty_files) && empty_files.len() > 0) || (deletions(
                planned_steps(groups, empty_files, false, json),
            )[i] == StepView::Delete("duplicate"@, all_duplicates(groups)) && groups.len() > 0),
        deletions(planned_steps(groups, empty_files, true, json)).len() == 0,
{
    lemma_deletes_of_run(groups, empty_files, false, json);
    lemma_deletes_of_run(groups, empty_files, true, json);
    let d = deletions(planned_steps(groups, empty_files, false, json));
    if empty_files.len() > 0 {
        assert(d[0] == StepView::Delete("empty"@, empty_files));
    }
    if groups.len() > 0 {
        if empty_files.len() > 0 {
            assert(d[1] == StepView::Delete("duplicate"@, all_duplicates(groups)));
        } else {
            assert(d[0] == StepView::Delete("duplicate"@, all_duplicates(groups)));
        }
    }
}

/// The steps of a run with these groups and empty files: what it prints and
/// what it deletes. A dry run deletes nothing; otherwise the deletions are
/// the empty files, then the duplicates of every group.
pub fn run_steps(groups: &Vec<DuplicateGroup>, empty_files: &Vec<String>, dry_run: bool, json: bool) -> (steps: Vec<
    OutputStep,
>)
    ensures
        !dry_run && empty_files.len() > 0 ==> deletions(steps_view(steps@)).contains(
            StepView::Delete("empty"@, views(empty_files@)),
        ),
        !dry_run && groups.len() > 0 ==> deletions(steps_view(steps@)).contains(
            StepView::Delete("duplicate"@, all_duplicates(groups@)),
        ),
        steps_view(steps@) == planned_steps(groups@, views(empty_files@), dry_run, json),
        dry_run ==> deletions(steps_view(steps@)) == Seq::<StepView>::empty(),
        !dry_run ==> deletions(steps_view(steps@)) == delete_steps(groups@, views(empty_files@), false),
{
    let ghost g = groups@;
    let ghost e = views(empty_files@);
    let mut steps: Vec<OutputStep> = Vec::new();
    if json {
        steps.push(OutputStep::Json);
    } else {
        if empty_files.len() > 0 {
            steps.push(OutputStep::EmptyTable);
        }
        if groups.len() > 0 {
            steps.push(OutputStep::DuplicatesTable);
        } else if empty_files.len() == 0 {
            steps.push(OutputStep::NoDuplicates);
        }
    }
    assert(steps_view(steps@) =~= print_steps(g, e, json));
    let ghost printed = steps_view(steps@);
    if !dry_run {
        if empty_files.len() > 0 {
            steps.push(OutputStep::Delete(String::from_str("empty"), copy_paths(empty_files)));
        }
        if groups.len() > 0 {
            steps.push(OutputStep::Delete(String::from_str("duplicate"), duplicate_paths(groups)));
        }
    }
    assert(steps_view(steps@) =~= printed + delete_steps(g, e, dry_run));
    let ghost deleting = steps_view(steps@);
    if !json {
        if dry_run {
            if groups.len() > 0 {
                steps.push(OutputStep::WouldDelete(total_duplicates(groups)));
            }
        } else {
            steps.push(OutputStep::RemovedTotal);
        }
    }
    assert(steps_view(steps@) =~= deleting + closing_steps(g, dry_run, json));
    proof {
        lemma_deletes_of_run(g, e, dry_run, json);
        lemma_what_a_run_deletes(g, e, json);
    }
    steps
}

/// The exit status of a run: 1 for a dry run that found duplicates, else 0.
pub fn exit_status(dry_run: bool, found_duplicates: bool) -> (c: u8)
    ensures
        c == (if dry_run && found_duplicates {
            1u8
        } else {
            0u8
        }),
{
    if dry_run && found_duplicates {
        1
    } else {
        0
    }
}

} // verus!
