use dublette::cli::{only_kind, MediaFilter};
use dublette::dedupe::MediaKind;
use dublette::paths::{
    component_key_exec, contains_path, dedup_sorted, first_of_each, has_distinct_names, is_strictly_sorted,
    path_before_exec, path_extension_exec, same_path_exec, sort_paths, sorted_distinct_paths, sorted_first_paths,
};

fn v(xs: &[&str]) -> Vec<String> {
    xs.iter().map(|x| x.to_string()).collect()
}

#[test]
fn separator_sorts_first() {
    assert!(path_before_exec("a/b.jpg", "a-b.jpg"));
    assert!(!path_before_exec("a-b.jpg", "a/b.jpg"));
    assert!(path_before_exec("/a", "a"));
    assert!(path_before_exec("a", "a/b"));
    assert!(!path_before_exec("a", "a"));
    assert!(path_before_exec("B", "a"));
}

#[test]
fn sort_is_stable_and_ordered() {
    assert_eq!(
        sort_paths(v(&["c", "a/x", "a-x", "b", "a"])),
        v(&["a", "a/x", "a-x", "b", "c"])
    );
    assert_eq!(sort_paths(v(&["b", "a", "b"])), v(&["a", "b", "b"]));
}

#[test]
fn dedup_removes_repeats() {
    assert_eq!(dedup_sorted(v(&["a", "a", "b", "c", "c"])), v(&["a", "b", "c"]));
    assert_eq!(sorted_distinct_paths(v(&["z", "a", "z"])), v(&["a", "z"]));
}

#[test]
fn strictly_sorted_check() {
    assert!(is_strictly_sorted(&v(&["a", "b"])));
    assert!(!is_strictly_sorted(&v(&["a", "a"])));
    assert!(!is_strictly_sorted(&v(&["b", "a"])));
    assert!(is_strictly_sorted(&v(&[])));
}

#[test]
fn membership() {
    assert!(contains_path(&v(&["a", "b"]), &"b".to_string()));
    assert!(!contains_path(&v(&["a", "b"]), &"c".to_string()));
}

#[test]
fn filters_map_to_kinds() {
    assert_eq!(only_kind(None), None);
    assert_eq!(only_kind(Some(MediaFilter::Images)), Some(MediaKind::Image));
    assert_eq!(only_kind(Some(MediaFilter::Videos)), Some(MediaKind::Video));
    assert_eq!(only_kind(Some(MediaFilter::Audio)), Some(MediaKind::Audio));
}

#[test]
fn same_path_ignores_repeated_separators_and_dots() {
    assert!(same_path_exec("a//b", "a/b"));
    assert!(same_path_exec("a/./b", "a/b"));
    assert!(same_path_exec("a/b/", "a/b"));
    assert!(same_path_exec("//a", "/a"));
    assert!(same_path_exec("./a/.", "./a"));
    assert!(!same_path_exec("./a", "a"));
    assert!(!same_path_exec("/a", "a"));
    assert!(!same_path_exec("a/../b", "b"));
    assert!(!same_path_exec("a/b", "a/bc"));
}

#[test]
fn components_order_paths() {
    assert!(path_before_exec("a/../b", "a/-x"));
    assert!(path_before_exec("./a", "-x"));
    assert!(path_before_exec("/z", "./a"));
    assert!(path_before_exec("./a", "../a"));
    assert!(path_before_exec("a/b", "a/b/c"));
    assert!(path_before_exec("a/./b", "a/b"));
    assert!(!path_before_exec("a/b", "a/./b"));
}

#[test]
fn component_codes() {
    assert_eq!(component_key_exec("/a/./.."), vec![0, 3, 98, 0, 2]);
    assert_eq!(component_key_exec("./"), vec![1]);
    assert_eq!(component_key_exec(""), Vec::<u64>::new());
}

#[test]
fn first_text_names_each_path() {
    assert_eq!(first_of_each(v(&["p//a", "p/b", "p/a", "p/./b"])), v(&["p//a", "p/b"]));
    assert_eq!(sorted_first_paths(v(&["p/b", "p//a", "p/a"])), v(&["p//a", "p/b"]));
}

#[test]
fn extension_as_std_path_gives_it() {
    let cases = [
        "a.png", "dir/a.PNG", ".bashrc", "a.", "a.b.c", "dir.d/file", "dir/..", "a/.", "/", "",
        "x/y.tar.gz/", "./.x", "..", "a/.hidden.jpg", "a//b.jpg", "a/b.jpg/.", "./", ".",
    ];
    for c in cases {
        let expected = std::path::Path::new(c)
            .extension()
            .and_then(|e| e.to_str())
            .map(|e| e.to_string());
        assert_eq!(path_extension_exec(c), expected, "extension of {c:?}");
    }
}

#[test]
fn distinct_names_compare_components() {
    assert!(has_distinct_names(&v(&["a/b.jpg", "a/c.jpg"])));
    assert!(!has_distinct_names(&v(&["a/b.jpg", "a//b.jpg"])));
    assert!(!has_distinct_names(&v(&["x/./y.png", "x/y.png", "z.png"])));
    assert!(has_distinct_names(&v(&[])));
}
