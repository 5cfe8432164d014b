use dublette::dedupe::{
    duplicate_paths, finish_report, is_inside_dir, partition_outcomes, pass_enabled, prefer_kept,
    total_duplicates, DuplicateGroup, MediaKind, SkippedFile,
};

fn group(keep: &str, duplicates: &[&str]) -> DuplicateGroup {
    DuplicateGroup {
        kind: MediaKind::Image,
        keep: keep.to_string(),
        duplicates: duplicates.iter().map(|d| d.to_string()).collect(),
    }
}

#[test]
fn passes_follow_the_filter() {
    assert!(pass_enabled(None, MediaKind::Image));
    assert!(pass_enabled(None, MediaKind::Video));
    assert!(pass_enabled(Some(MediaKind::Image), MediaKind::Image));
    assert!(!pass_enabled(Some(MediaKind::Image), MediaKind::Video));
    assert!(!pass_enabled(Some(MediaKind::Video), MediaKind::Image));
    assert!(!pass_enabled(Some(MediaKind::Audio), MediaKind::Image));
    assert!(pass_enabled(Some(MediaKind::Audio), MediaKind::Audio));
}

#[test]
fn to_delete_lists_duplicates_then_empty_files() {
    let groups = vec![group("a.png", &["b.png"]), group("c.mp4", &["d.mp4", "e.mp4"])];
    let report = finish_report(groups, vec!["z.jpg".to_string()], vec![], true);
    assert_eq!(report.to_delete, vec!["b.png", "d.mp4", "e.mp4", "z.jpg"]);
    assert_eq!(report.empty_files, vec!["z.jpg"]);
}

#[test]
fn empty_files_not_reported_unless_asked() {
    let report = finish_report(vec![], vec!["z.jpg".to_string()], vec![], false);
    assert!(report.empty_files.is_empty());
}

#[test]
fn empty_files_not_deleted_unless_asked() {
    let report = finish_report(vec![], vec!["z.jpg".to_string()], vec![], false);
    assert!(report.to_delete.is_empty());
}

#[test]
fn empty_report_has_nothing_to_delete() {
    let report = finish_report(vec![], vec![], vec![], true);
    assert!(report.groups.is_empty());
    assert!(report.empty_files.is_empty());
    assert!(report.skipped.is_empty());
    assert!(report.to_delete.is_empty());
}

#[test]
fn duplicate_counts() {
    let groups = vec![group("a", &["b", "c"]), group("d", &["e"])];
    assert_eq!(total_duplicates(&groups), 3);
    assert_eq!(duplicate_paths(&groups), vec!["b", "c", "e"]);
}

#[test]
fn partition_keeps_order() {
    let files = vec!["a".to_string(), "b".to_string(), "c".to_string()];
    let outcomes = vec![Err("no".to_string()), Ok(vec![1u8]), Ok(vec![2u8])];
    let (hashed, skipped): (_, Vec<SkippedFile>) = partition_outcomes(&files, outcomes);
    assert_eq!(hashed.len(), 2);
    assert_eq!(hashed[0].path, "b");
    assert_eq!(hashed[0].hash, vec![1u8]);
    assert_eq!(hashed[1].path, "c");
    assert_eq!(skipped.len(), 1);
    assert_eq!(skipped[0].path, "a");
    assert_eq!(skipped[0].reason, "no");
}

fn strings(xs: &[&str]) -> Vec<String> {
    xs.iter().map(|x| x.to_string()).collect()
}

#[test]
fn inside_dir_needs_a_whole_component() {
    assert!(is_inside_dir("/m/library/z.png", "/m/library"));
    assert!(is_inside_dir("/m/library/z.png", "/m/library/"));
    assert!(is_inside_dir("/m/library/sub/z.png", "/m/library"));
    assert!(is_inside_dir("/m/library", "/m/library"));
    assert!(!is_inside_dir("/m/library2/z.png", "/m/library"));
    assert!(!is_inside_dir("/m/lib", "/m/library"));
    assert!(!is_inside_dir("/m/inbox/a.png", "/m/library"));
    assert!(is_inside_dir("", ""));
    assert!(!is_inside_dir("a", ""));
}

#[test]
fn keep_in_keeps_library_copy() {
    let g = group("/m/inbox/a.png", &["/m/library/z.png"]);
    let locations = strings(&["/m/inbox/a.png", "/m/library/z.png"]);
    let r = prefer_kept(g, &locations, &strings(&["/m/library"]));
    assert_eq!(r.keep, "/m/library/z.png");
    assert_eq!(r.duplicates, strings(&["/m/inbox/a.png"]));
    assert_eq!(r.kind, MediaKind::Image);
}

#[test]
fn keep_in_matches_through_locations() {
    let g = group("inbox/a.png", &["library/z.png"]);
    let locations = strings(&["/root/inbox/a.png", "/root/library/z.png"]);
    let r = prefer_kept(g, &locations, &strings(&["/root/library"]));
    assert_eq!(r.keep, "library/z.png");
    assert_eq!(r.duplicates, strings(&["inbox/a.png"]));
}

#[test]
fn keep_in_order_is_precedence() {
    let g = group("/a/1.png", &["/b/2.png", "/c/3.png", "/c/4.png"]);
    let locations = strings(&["/a/1.png", "/b/2.png", "/c/3.png", "/c/4.png"]);
    let r = prefer_kept(g, &locations, &strings(&["/x", "/c", "/b"]));
    assert_eq!(r.keep, "/c/3.png");
    assert_eq!(r.duplicates, strings(&["/a/1.png", "/b/2.png", "/c/4.png"]));
}

#[test]
fn keep_in_without_member_leaves_group() {
    let g = group("/a/1.png", &["/b/2.png"]);
    let locations = strings(&["/a/1.png", "/b/2.png"]);
    let r = prefer_kept(g, &locations, &strings(&["/z"]));
    assert_eq!(r.keep, "/a/1.png");
    assert_eq!(r.duplicates, strings(&["/b/2.png"]));
    let g = group("/a/1.png", &["/b/2.png"]);
    let r = prefer_kept(g, &locations, &Vec::new());
    assert_eq!(r.keep, "/a/1.png");
}
