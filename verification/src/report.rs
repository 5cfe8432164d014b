//! Text reports of a deduplication run.
use vstd::prelude::*;
use crate::dedupe::{all_duplicates, duplicate_count, lemma_all_duplicates_count, total_duplicates, DeduplicationReport, DuplicateGroup};
use crate::paths::views;
use crate::json::{render_json, rendered_json, FieldView, JsonField, JsonLeaf, LeafView, document_view, record_view};
use crate::scan::copy_paths;
use crate::skip::{reason_tag, SkippedFile};

verus! {

/// The decimal digit `d`.
pub open spec fn digit_text(d: nat) -> Seq<char> {
    if d == 0 {
        "0"@
    } else if d == 1 {
        "1"@
    } else if d == 2 {
        "2"@
    } else if d == 3 {
        "3"@
    } else if d == 4 {
        "4"@
    } else if d == 5 {
        "5"@
    } else if d == 6 {
        "6"@
    } else if d == 7 {
        "7"@
    } else if d == 8 {
        "8"@
    } else {
        "9"@
    }
}

/// `n` in decimal, without leading zeros.
pub open spec fn decimal_text(n: nat) -> Seq<char>
    decreases n,
{
    if n < 10 {
        digit_text(n)
    } else {
        decimal_text(n / 10) + digit_text(n % 10)
    }
}

fn digit(d: usize) -> (t: &'static str)
    requires
        d < 10,
    ensures
        t@ == digit_text(d as nat),
{
    if d == 0 {
        "0"
    } else if d == 1 {
        "1"
    } else if d == 2 {
        "2"
    } else if d == 3 {
        "3"
    } else if d == 4 {
        "4"
    } else if d == 5 {
        "5"
    } else if d == 6 {
        "6"
    } else if d == 7 {
        "7"
    } else if d == 8 {
        "8"
    } else {
        "9"
    }
}

/// `n` written in decimal.
pub fn decimal(n: usize) -> (t: String)
    ensures
        t@ == decimal_text(n as nat),
    decreases n,
{
    if n < 10 {
        String::from_str(digit(n))
    } else {
        let mut t = decimal(n / 10);
        t.append(digit(n % 10));
        t
    }
}

/// The table that the `tabled` crate renders for `records`, the first
/// record being the header.
pub uninterp spec fn rendered_table(records: Seq<Seq<Seq<char>>>) -> Seq<char>;

/// The texts of table records.
pub open spec fn records_view(records: Seq<Vec<String>>) -> Seq<Seq<Seq<char>>> {
    records.map_values(|r: Vec<String>| views(r@))
}

/// Calls `tabled::builder::Builder::from`, `Builder::build` and
/// `ToString::to_string` on the table; claimed: the text is `rendered_table`
/// of the records.
#[verifier::external_body]
fn render_table(records: Vec<Vec<String>>) -> (t: String)
    ensures
        t@ == rendered_table(records_view(records@)),
{
    tabled::builder::Builder::from(records).build().to_string()
}

/// The action shown for a file that is to be deleted.
pub open spec fn delete_action(dry_run: bool) -> Seq<char> {
    if dry_run {
        "would delete"@
    } else {
        "delete"@
    }
}

fn delete_action_text(dry_run: bool) -> (t: String)
    ensures
        t@ == delete_action(dry_run),
{
    if dry_run {
        String::from_str("would delete")
    } else {
        String::from_str("delete")
    }
}

/// The rows of the duplicates table, groups numbered from 1: a group's kept
/// file with its number, then each duplicate with an empty number.
pub open spec fn group_rows(groups: Seq<DuplicateGroup>, dry_run: bool) -> Seq<Seq<Seq<char>>>
    decreases groups.len(),
{
    if groups.len() == 0 {
        Seq::empty()
    } else {
        let g = groups.last();
        group_rows(groups.drop_last(), dry_run) + seq![
            seq![decimal_text(groups.len()), g.keep@, "keep"@],
        ] + views(g.duplicates@).map_values(|d: Seq<char>| seq![""@, d, delete_action(dry_run)])
    }
}

/// The header line of the duplicates table.
pub open spec fn table_header(groups: Seq<DuplicateGroup>) -> Seq<char> {
    "Duplicates: "@ + decimal_text(groups.len()) + " group(s), "@ + decimal_text(all_duplicates(groups).len())
        + " to remove"@
}

fn text_row(a: String, b: String, c: String) -> (r: Vec<String>)
    ensures
        views(r@) == seq![a@, b@, c@],
{
    let r = vec![a, b, c];
    assert(views(r@) =~= seq![a@, b@, c@]);
    r
}

/// The duplicates table: a header line with the number of groups and of files
/// to remove, then a table of every group's kept file and its duplicates, each
/// marked `keep`, or `delete` (`would delete` in a dry run).
pub fn format_table(report: &DeduplicationReport, dry_run: bool) -> (t: String)
    ensures
        t@ == table_header(report.groups@) + "\n"@ + rendered_table(
            seq![seq!["Group"@, "File"@, "Action"@]] + group_rows(report.groups@, dry_run),
        ),
{
    let groups = &report.groups;
    let mut records: Vec<Vec<String>> = Vec::new();
    records.push(text_row(String::from_str("Group"), String::from_str("File"), String::from_str("Action")));
    let ghost head = seq![seq!["Group"@, "File"@, "Action"@]];
    assert(records_view(records@) =~= head);
    let mut i: usize = 0;
    while i < groups.len()
        invariant
            i <= groups.len(),
            groups == &report.groups,
            records_view(records@) == head + group_rows(groups@.take(i as int), dry_run),
        decreases groups.len() - i,
    {
        let g = &groups[i];
        let ghost start = records_view(records@);
        let number = decimal(i + 1);
        let row = text_row(number, g.keep.clone(), String::from_str("keep"));
        records.push(row);
        assert(records_view(records@) =~= start + seq![seq![decimal_text((i + 1) as nat), g.keep@, "keep"@]]);
        let ghost mid = records_view(records@);
        let ghost dv = views(g.duplicates@).map_values(|d: Seq<char>| seq![""@, d, delete_action(dry_run)]);
        let mut j: usize = 0;
        while j < g.duplicates.len()
            invariant
                j <= g.duplicates.len(),
                dv == views(g.duplicates@).map_values(|d: Seq<char>| seq![""@, d, delete_action(dry_run)]),
                records_view(records@) == mid + dv.take(j as int),
            decreases g.duplicates.len() - j,
        {
            let ghost before = records_view(records@);
            let row = text_row(String::new(), g.duplicates[j].clone(), delete_action_text(dry_run));
            proof {
                reveal_strlit("");
                assert(""@ =~= Seq::<char>::empty());
                assert(views(row@) =~= dv[j as int]);
            }
            records.push(row);
            assert(records_view(records@) =~= before.push(dv[j as int]));
            assert(dv.take(j + 1) =~= dv.take(j as int).push(dv[j as int]));
            j = j + 1;
        }
        proof {
            assert(dv.take(g.duplicates.len() as int) =~= dv);
            let gs = groups@.take(i + 1);
            assert(gs.drop_last() =~= groups@.take(i as int));
            assert(gs.last() == *g);
            assert(group_rows(gs, dry_run) == group_rows(groups@.take(i as int), dry_run) + seq![
                seq![decimal_text((i + 1) as nat), g.keep@, "keep"@],
            ] + dv);
            assert(records_view(records@) =~= head + group_rows(gs, dry_run));
        }
        i = i + 1;
    }
    assert(groups@.take(groups.len() as int) =~= groups@);
    let table = render_table(records);
    let mut t = String::from_str("Duplicates: ");
    t.append(decimal(groups.len()).as_str());
    t.append(" group(s), ");
    t.append(decimal(total_duplicates(groups)).as_str());
    t.append(" to remove\n");
    t.append(table.as_str());
    assert("Duplicates: "@ + decimal_text(groups.len() as nat) + " group(s), "@ + decimal_text(
        all_duplicates(groups@).len(),
    ) + " to remove\n"@ =~= table_header(groups@) + "\n"@) by {
        reveal_strlit(" to remove\n");
        reveal_strlit(" to remove");
        reveal_strlit("\n");
    }
    t
}

/// The rows of the empty files table.
pub open spec fn empty_rows(files: Seq<Seq<char>>, dry_run: bool) -> Seq<Seq<Seq<char>>> {
    files.map_values(|f: Seq<char>| seq![f, delete_action(dry_run)])
}

/// The empty files table: a header line with their number, then each file
/// marked `delete` (`would delete` in a dry run).
pub fn format_empty_table(empty_files: &Vec<String>, dry_run: bool) -> (t: String)
    ensures
        t@ == "Empty (0-byte) files ("@ + decimal_text(empty_files.len() as nat) + ")\n"@ + rendered_table(
            seq![seq!["File"@, "Action"@]] + empty_rows(views(empty_files@), dry_run),
        ),
{
    let mut records: Vec<Vec<String>> = Vec::new();
    let first = vec![String::from_str("File"), String::from_str("Action")];
    assert(views(first@) =~= seq!["File"@, "Action"@]);
    records.push(first);
    let ghost head = seq![seq!["File"@, "Action"@]];
    let ghost rows = empty_rows(views(empty_files@), dry_run);
    assert(records_view(records@) =~= head + rows.take(0));
    let mut j: usize = 0;
    while j < empty_files.len()
        invariant
            j <= empty_files.len(),
            rows == empty_rows(views(empty_files@), dry_run),
            records_view(records@) == head + rows.take(j as int),
        decreases empty_files.len() - j,
    {
        let ghost before = records_view(records@);
        let row = vec![empty_files[j].clone(), delete_action_text(dry_run)];
        assert(views(row@) =~= rows[j as int]);
        records.push(row);
        assert(records_view(records@) =~= before.push(rows[j as int]));
        assert(rows.take(j + 1) =~= rows.take(j as int).push(rows[j as int]));
        j = j + 1;
    }
    assert(rows.take(empty_files.len() as int) =~= rows);
    let table = render_table(records);
    let mut t = String::from_str("Empty (0-byte) files (");
    t.append(decimal(empty_files.len()).as_str());
    t.append(")\n");
    t.append(table.as_str());
    t
}

/// The record of a group in the JSON report: its kept file and duplicates.
pub open spec fn group_record(g: DuplicateGroup) -> Seq<(Seq<char>, LeafView)> {
    seq![("keep"@, LeafView::Text(g.keep@)), ("duplicates"@, LeafView::Texts(views(g.duplicates@)))]
}

/// The record of a skipped file in the JSON report: its path, the tag of the
/// reason and the description.
pub open spec fn skip_record(s: SkippedFile) -> Seq<(Seq<char>, LeafView)> {
    seq![
        ("path"@, LeafView::Text(s.path@)),
        ("reason"@, LeafView::Text(reason_tag(s.reason))),
        ("detail"@, LeafView::Text(s.detail@)),
    ]
}

/// The JSON report: whether the run was a dry run, the groups, the number of
/// files to remove, the empty files, the skipped files and their number, and
/// the warnings of passes that did not run.
pub open spec fn report_document(
    report: DeduplicationReport,
    dry_run: bool,
    skipped: Seq<SkippedFile>,
    warnings: Seq<Seq<char>>,
) -> Seq<(Seq<char>, FieldView)> {
    seq![
        ("dry_run"@, FieldView::Leaf(LeafView::Bool(dry_run))),
        ("groups"@, FieldView::Records(report.groups@.map_values(|g: DuplicateGroup| group_record(g)))),
        ("total_duplicates"@, FieldView::Leaf(LeafView::Number(all_duplicates(report.groups@).len()))),
        ("empty_files"@, FieldView::Leaf(LeafView::Texts(views(report.empty_files@)))),
        ("skipped"@, FieldView::Records(skipped.map_values(|s: SkippedFile| skip_record(s)))),
        ("total_skipped"@, FieldView::Leaf(LeafView::Number(skipped.len()))),
        ("warnings"@, FieldView::Leaf(LeafView::Texts(warnings))),
    ]
}

/// Law: the JSON report gives as `total_duplicates` the number of files
/// marked for deletion as duplicates, the groups' numbers of duplicates added
/// up, and as `total_skipped` the number of skipped files.
pub proof fn lemma_report_totals(
    report: DeduplicationReport,
    dry_run: bool,
    skipped: Seq<SkippedFile>,
    warnings: Seq<Seq<char>>,
)
    ensures
        report_document(report, dry_run, skipped, warnings)[2] == (
            "total_duplicates"@,
            FieldView::Leaf(LeafView::Number(duplicate_count(report.groups@))),
        ),
        report_document(report, dry_run, skipped, warnings)[5] == (
            "total_skipped"@,
            FieldView::Leaf(LeafView::Number(skipped.len())),
        ),
{
    lemma_all_duplicates_count(report.groups@);
}

fn text(s: &str) -> (t: String)
    ensures
        t@ == s@,
{
    String::from_str(s)
}

/// The report as a JSON object with every field of the JSON output: the run
/// and its groups, the empty files, and the skipped files and warnings that
/// `skipped` and `warnings` give.
pub fn format_json(
    report: &DeduplicationReport,
    dry_run: bool,
    skipped: &Vec<SkippedFile>,
    warnings: &Vec<String>,
) -> (s: String)
    ensures
        report_document(*report, dry_run, skipped@, views(warnings@))[2] == (
            "total_duplicates"@,
            FieldView::Leaf(LeafView::Number(duplicate_count(report.groups@))),
        ),
        s@ == rendered_json(report_document(*report, dry_run, skipped@, views(warnings@))),
{
    let mut groups: Vec<Vec<(String, JsonLeaf)>> = Vec::new();
    let mut i: usize = 0;
    while i < report.groups.len()
        invariant
            i <= report.groups.len(),
            groups@.len() == i,
            forall|k: int| 0 <= k < i ==> record_view(#[trigger] groups@[k]@) == group_record(report.groups@[k]),
        decreases report.groups.len() - i,
    {
        let g = &report.groups[i];
        let r = vec![
            (text("keep"), JsonLeaf::Text(g.keep.clone())),
            (text("duplicates"), JsonLeaf::Texts(copy_paths(&g.duplicates))),
        ];
        assert(record_view(r@) =~= group_record(report.groups@[i as int]));
        groups.push(r);
        i = i + 1;
    }
    let mut skips: Vec<Vec<(String, JsonLeaf)>> = Vec::new();
    let mut j: usize = 0;
    while j < skipped.len()
        invariant
            j <= skipped.len(),
            skips@.len() == j,
            forall|k: int| 0 <= k < j ==> record_view(#[trigger] skips@[k]@) == skip_record(skipped@[k]),
        decreases skipped.len() - j,
    {
        let f = &skipped[j];
        let r = vec![
            (text("path"), JsonLeaf::Text(f.path.clone())),
            (text("reason"), JsonLeaf::Text(text(f.reason.tag()))),
            (text("detail"), JsonLeaf::Text(f.detail.clone())),
        ];
        assert(record_view(r@) =~= skip_record(skipped@[j as int]));
        skips.push(r);
        j = j + 1;
    }
    let total = total_duplicates(&report.groups) as u64;
    let doc = vec![
        (text("dry_run"), JsonField::Leaf(JsonLeaf::Bool(dry_run))),
        (text("groups"), JsonField::Records(groups)),
        (text("total_duplicates"), JsonField::Leaf(JsonLeaf::Number(total))),
        (text("empty_files"), JsonField::Leaf(JsonLeaf::Texts(copy_paths(&report.empty_files)))),
        (text("skipped"), JsonField::Records(skips)),
        (text("total_skipped"), JsonField::Leaf(JsonLeaf::Number(skipped.len() as u64))),
        (text("warnings"), JsonField::Leaf(JsonLeaf::Texts(copy_paths(warnings)))),
    ];
    proof {
        let d = document_view(doc@);
        let want = report_document(*report, dry_run, skipped@, views(warnings@));
        assert(d[1].1 == want[1].1) by {
            assert(groups@.map_values(|r: Vec<(String, JsonLeaf)>| record_view(r@)) =~= report.groups@.map_values(
                |g: DuplicateGroup| group_record(g),
            ));
        }
        assert(d[4].1 == want[4].1) by {
            assert(skips@.map_values(|r: Vec<(String, JsonLeaf)>| record_view(r@)) =~= skipped@.map_values(
                |s: SkippedFile| skip_record(s),
            ));
        }
        assert(d =~= want);
    }
    proof {
        lemma_report_totals(*report, dry_run, skipped@, views(warnings@));
    }
    render_json(&doc)
}

} // verus!
