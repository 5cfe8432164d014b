use dublette::dedupe::{HashedFile, MediaKind};
use dublette::scan::{
    all_media_extensions, build_duplicate_groups, graph_has_one_spelling, group_hashed_files, image_extensions,
    match_pass, pairwise_compare, select_media_files, select_zero_byte_files, video_extensions,
    WalkEntry,
};

fn p(s: &str) -> String {
    s.to_string()
}

fn adjacency(pairs: &[(&str, &[&str])]) -> Vec<(String, Vec<String>)> {
    pairs
        .iter()
        .map(|(k, v)| (p(k), v.iter().map(|x| p(x)).collect()))
        .collect()
}

fn file(path: &str, len: u64) -> WalkEntry {
    WalkEntry {
        path: p(path),
        is_file: true,
        len,
    }
}

fn dir(path: &str) -> WalkEntry {
    WalkEntry {
        path: p(path),
        is_file: false,
        len: 4096,
    }
}

fn names(files: &[String]) -> Vec<&str> {
    files
        .iter()
        .map(|f| f.rsplit('/').next().unwrap())
        .collect()
}

#[test]
fn empty_dir_returns_empty() {
    let entries = vec![dir("/tmp/d")];
    let files = select_media_files(&entries, &image_extensions());
    assert!(files.is_empty());
}

#[test]
fn filters_by_extension() {
    let entries = vec![
        dir("/tmp/d"),
        file("/tmp/d/a.jpg", 1),
        file("/tmp/d/b.txt", 1),
        file("/tmp/d/c.png", 1),
    ];
    let files = select_media_files(&entries, &image_extensions());
    assert_eq!(names(&files), vec!["a.jpg", "c.png"]);
}

#[test]
fn excludes_zero_byte_files() {
    let entries = vec![file("/tmp/d/empty.jpg", 0), file("/tmp/d/valid.jpg", 1)];
    let files = select_media_files(&entries, &image_extensions());
    assert_eq!(files.len(), 1);
    assert!(names(&files)[0] == "valid.jpg");
}

#[test]
fn recurses_subdirectories() {
    let entries = vec![
        dir("/tmp/d"),
        file("/tmp/d/a.jpg", 1),
        dir("/tmp/d/sub"),
        file("/tmp/d/sub/b.jpg", 1),
    ];
    let files = select_media_files(&entries, &image_extensions());
    assert_eq!(files.len(), 2);
}

#[test]
fn results_are_sorted() {
    let entries = vec![
        file("/tmp/d/c.jpg", 1),
        file("/tmp/d/a.jpg", 1),
        file("/tmp/d/b.jpg", 1),
    ];
    let files = select_media_files(&entries, &image_extensions());
    assert_eq!(names(&files), vec!["a.jpg", "b.jpg", "c.jpg"]);
}

#[test]
fn case_insensitive_extensions() {
    let entries = vec![file("/tmp/d/a.JPG", 1), file("/tmp/d/b.Png", 1)];
    let files = select_media_files(&entries, &image_extensions());
    assert_eq!(files.len(), 2);
}

#[test]
fn multiple_directories_merged() {
    let entries = vec![file("/tmp/d1/a.jpg", 1), file("/tmp/d2/b.jpg", 1)];
    let files = select_media_files(&entries, &image_extensions());
    assert_eq!(files.len(), 2);
}

#[test]
fn deduplicates_overlapping_directories() {
    let entries = vec![file("/tmp/d/a.jpg", 1), file("/tmp/d/a.jpg", 1)];
    let files = select_media_files(&entries, &image_extensions());
    assert_eq!(files.len(), 1);
}

#[test]
fn directory_components_sort_before_longer_names() {
    let entries = vec![file("/tmp/d/a-b.jpg", 1), file("/tmp/d/a/b.jpg", 1)];
    let files = select_media_files(&entries, &image_extensions());
    assert_eq!(files, vec![p("/tmp/d/a/b.jpg"), p("/tmp/d/a-b.jpg")]);
}

#[test]
fn file_without_extension_is_not_media() {
    let entries = vec![file("/tmp/d/jpg", 1), file("/tmp/d/.png", 1)];
    let files = select_media_files(&entries, &image_extensions());
    assert!(files.is_empty());
}

#[test]
fn find_empty_media_files() {
    let entries = vec![
        file("/tmp/d/empty.jpg", 0),
        file("/tmp/d/valid.jpg", 1),
        file("/tmp/d/empty.txt", 0),
    ];
    let empty = select_zero_byte_files(&entries, &all_media_extensions());
    assert_eq!(empty.len(), 1);
    assert!(names(&empty)[0] == "empty.jpg");
}

#[test]
fn zero_byte_files_are_sorted() {
    let entries = vec![file("/tmp/d/z.mp4", 0), file("/tmp/d/a.png", 0)];
    let empty = select_zero_byte_files(&entries, &all_media_extensions());
    assert_eq!(empty, vec![p("/tmp/d/a.png"), p("/tmp/d/z.mp4")]);
}

#[test]
fn extension_lists() {
    assert_eq!(
        image_extensions(),
        vec!["jpg", "jpeg", "png", "bmp", "gif", "tiff", "webp"]
    );
    assert_eq!(
        video_extensions(),
        vec!["mp4", "mov", "avi", "mkv", "wmv", "flv", "webm", "m4v", "3gp"]
    );
    assert_eq!(all_media_extensions().len(), 16);
}

#[test]
fn grouping_empty_input() {
    let duplicates = adjacency(&[]);
    let groups = build_duplicate_groups(&duplicates, MediaKind::Image);
    assert!(groups.is_empty());
}

#[test]
fn grouping_no_duplicates() {
    let duplicates = adjacency(&[("a.jpg", &[]), ("b.jpg", &[])]);
    let groups = build_duplicate_groups(&duplicates, MediaKind::Image);
    assert!(groups.is_empty());
}

#[test]
fn grouping_single_pair() {
    let duplicates = adjacency(&[("a.jpg", &["b.jpg"]), ("b.jpg", &["a.jpg"])]);
    let groups = build_duplicate_groups(&duplicates, MediaKind::Image);
    assert_eq!(groups.len(), 1);
    assert_eq!(groups[0].keep, p("a.jpg"));
    assert_eq!(groups[0].duplicates, vec![p("b.jpg")]);
}

#[test]
fn grouping_transitive() {
    let duplicates = adjacency(&[
        ("a.jpg", &["b.jpg"]),
        ("b.jpg", &["a.jpg", "c.jpg"]),
        ("c.jpg", &["b.jpg"]),
    ]);
    let groups = build_duplicate_groups(&duplicates, MediaKind::Image);
    assert_eq!(groups.len(), 1);
    assert_eq!(groups[0].keep, p("a.jpg"));
    assert_eq!(groups[0].duplicates, vec![p("b.jpg"), p("c.jpg")]);
}

#[test]
fn grouping_two_separate_groups() {
    let duplicates = adjacency(&[
        ("a.jpg", &["b.jpg"]),
        ("b.jpg", &["a.jpg"]),
        ("c.jpg", &["d.jpg"]),
        ("d.jpg", &["c.jpg"]),
    ]);
    let groups = build_duplicate_groups(&duplicates, MediaKind::Image);
    assert_eq!(groups.len(), 2);
    assert_eq!(groups[0].keep, p("a.jpg"));
    assert_eq!(groups[1].keep, p("c.jpg"));
}

#[test]
fn grouping_keeps_first_alphabetically() {
    let duplicates = adjacency(&[("z.jpg", &["a.jpg"]), ("a.jpg", &["z.jpg"])]);
    let groups = build_duplicate_groups(&duplicates, MediaKind::Image);
    assert_eq!(groups[0].keep, p("a.jpg"));
    assert_eq!(groups[0].duplicates, vec![p("z.jpg")]);
}

#[test]
fn grouping_keys_in_any_order_give_same_groups() {
    let duplicates = adjacency(&[
        ("d.jpg", &["c.jpg"]),
        ("b.jpg", &["a.jpg"]),
        ("c.jpg", &["d.jpg"]),
        ("a.jpg", &["b.jpg"]),
    ]);
    let groups = build_duplicate_groups(&duplicates, MediaKind::Video);
    assert_eq!(groups.len(), 2);
    assert_eq!(groups[0].kind, MediaKind::Video);
    assert_eq!(groups[0].keep, p("a.jpg"));
    assert_eq!(groups[0].duplicates, vec![p("b.jpg")]);
    assert_eq!(groups[1].keep, p("c.jpg"));
    assert_eq!(groups[1].duplicates, vec![p("d.jpg")]);
}

#[test]
fn grouping_follows_one_way_matches_from_the_opening_file() {
    // b is listed first by path order only after a; a reaches c through b.
    let duplicates = adjacency(&[("a.jpg", &["b.jpg"]), ("b.jpg", &["c.jpg"])]);
    let groups = build_duplicate_groups(&duplicates, MediaKind::Image);
    assert_eq!(groups.len(), 1);
    assert_eq!(groups[0].keep, p("a.jpg"));
    assert_eq!(groups[0].duplicates, vec![p("b.jpg"), p("c.jpg")]);
}

#[test]
fn grouping_groups_are_disjoint_for_mutual_matches() {
    let duplicates = adjacency(&[
        ("a.jpg", &["e.jpg"]),
        ("b.jpg", &["c.jpg"]),
        ("c.jpg", &["b.jpg", "d.jpg"]),
        ("d.jpg", &["c.jpg"]),
        ("e.jpg", &["a.jpg"]),
        ("f.jpg", &[]),
    ]);
    let groups = build_duplicate_groups(&duplicates, MediaKind::Image);
    assert_eq!(groups.len(), 2);
    let mut seen: Vec<String> = Vec::new();
    for g in &groups {
        assert!(!g.duplicates.is_empty());
        for x in std::iter::once(&g.keep).chain(g.duplicates.iter()) {
            assert!(!seen.contains(x));
            seen.push(x.clone());
        }
    }
    assert!(!seen.contains(&p("f.jpg")));
}

fn hashed(path: &str, hash: &[u8]) -> HashedFile {
    HashedFile {
        path: p(path),
        hash: hash.to_vec(),
    }
}

#[test]
fn pairwise_compare_lists_matches_within_threshold() {
    let files = vec![
        hashed("a.png", &[0b0000_0000]),
        hashed("b.png", &[0b0000_0001]),
        hashed("c.png", &[0b1111_0000]),
    ];
    let adj = pairwise_compare(&files, 1);
    assert_eq!(adj.len(), 3);
    assert_eq!(adj[0], (p("a.png"), vec![p("b.png")]));
    assert_eq!(adj[1], (p("b.png"), vec![p("a.png")]));
    assert_eq!(adj[2], (p("c.png"), vec![]));
}

#[test]
fn threshold_zero_requires_equal_hashes() {
    let files = vec![
        hashed("a.png", &[1, 2, 3]),
        hashed("b.png", &[1, 2, 3]),
        hashed("c.png", &[1, 2, 7]),
    ];
    let groups = group_hashed_files(&files, 0, MediaKind::Image);
    assert_eq!(groups.len(), 1);
    assert_eq!(groups[0].keep, p("a.png"));
    assert_eq!(groups[0].duplicates, vec![p("b.png")]);
    let groups = group_hashed_files(&files, 1, MediaKind::Image);
    assert_eq!(groups.len(), 1);
    assert_eq!(groups[0].duplicates, vec![p("b.png"), p("c.png")]);
}

#[test]
fn match_pass_skips_unhashed_files() {
    let files = vec![p("a.png"), p("b.png"), p("c.png")];
    let outcomes = vec![
        Ok(vec![9u8]),
        Err(p("failed to open b.png: bad")),
        Ok(vec![9u8]),
    ];
    let (groups, skipped) = match_pass(&files, outcomes, 0, MediaKind::Image);
    assert_eq!(groups.len(), 1);
    assert_eq!(groups[0].keep, p("a.png"));
    assert_eq!(groups[0].duplicates, vec![p("c.png")]);
    assert_eq!(skipped.len(), 1);
    assert_eq!(skipped[0].path, p("b.png"));
    assert_eq!(skipped[0].reason, p("failed to open b.png: bad"));
}

#[test]
fn raising_threshold_merges_groups() {
    let files = vec![
        hashed("a.png", &[0b0000_0000]),
        hashed("b.png", &[0b0000_0001]),
        hashed("c.png", &[0b0000_0111]),
        hashed("d.png", &[0b0000_1111]),
    ];
    let tight = group_hashed_files(&files, 1, MediaKind::Image);
    assert_eq!(tight.len(), 2);
    assert_eq!(tight[0].keep, p("a.png"));
    assert_eq!(tight[0].duplicates, vec![p("b.png")]);
    assert_eq!(tight[1].keep, p("c.png"));
    assert_eq!(tight[1].duplicates, vec![p("d.png")]);
    let loose = group_hashed_files(&files, 2, MediaKind::Image);
    assert_eq!(loose.len(), 1);
    assert_eq!(loose[0].keep, p("a.png"));
    assert_eq!(loose[0].duplicates, vec![p("b.png"), p("c.png"), p("d.png")]);
}

#[test]
fn equal_paths_written_differently_are_listed_once() {
    let entries = vec![file("photos//a.png", 3), file("photos/a.png", 3), file("photos/./b.png", 3)];
    let files = select_media_files(&entries, &image_extensions());
    assert_eq!(files, vec![p("photos//a.png"), p("photos/./b.png")]);
}

#[test]
fn empty_files_are_listed_once() {
    let entries = vec![file("d/e.jpg", 0), file("d//e.jpg", 0), file("c.jpg", 0)];
    let files = select_zero_byte_files(&entries, &image_extensions());
    assert_eq!(files, vec![p("c.jpg"), p("d/e.jpg")]);
}

#[test]
fn kept_files_increase_from_group_to_group() {
    let adj = adjacency(&[
        ("z.png", &["y.png"]),
        ("y.png", &["z.png"]),
        ("b.png", &["c.png"]),
        ("c.png", &["b.png"]),
        ("m.png", &["a.png"]),
        ("a.png", &["m.png"]),
    ]);
    let groups = build_duplicate_groups(&adj, MediaKind::Image);
    let keeps: Vec<&str> = groups.iter().map(|g| g.keep.as_str()).collect();
    assert_eq!(keeps, vec!["a.png", "b.png", "y.png"]);
    for g in &groups {
        for other in &groups {
            assert!(!other.duplicates.contains(&g.keep));
        }
    }
}

#[test]
fn graph_spelling_checks_every_name() {
    let plain = adjacency(&[("a/x.jpg", &["a/y.jpg"]), ("a/y.jpg", &["a/x.jpg"])]);
    assert!(graph_has_one_spelling(&plain));
    let twice = adjacency(&[("a/x.jpg", &["a//y.jpg"]), ("a/y.jpg", &["a/x.jpg"])]);
    assert!(!graph_has_one_spelling(&twice));
    assert!(graph_has_one_spelling(&Vec::new()));
}
