use pty_core::file_tree::{
    arrange_children, clamp_depth, default_excludes, is_hidden_name, order_entries,
    should_skip_name, DirEntry, FileTreeNode, FileTreeResponse,
};

fn entry(name: &str, is_dir: bool) -> DirEntry {
    DirEntry { name: name.to_string(), is_dir }
}

fn names(entries: &[DirEntry]) -> Vec<String> {
    entries.iter().map(|e| e.name.clone()).collect()
}

#[test]
fn dirs_before_files_case_insensitive() {
    let input = vec![
        entry("b.txt", false),
        entry("zeta", true),
        entry("A.txt", false),
        entry("Alpha", true),
    ];
    let out = order_entries(input);
    assert_eq!(names(&out), vec!["Alpha", "zeta", "A.txt", "b.txt"]);
    assert!(out[0].is_dir && out[1].is_dir);
    assert!(!out[2].is_dir && !out[3].is_dir);
}

#[test]
fn case_folding_decides_order() {
    // Raw byte order would put "B" (0x42) before "a" (0x61); case-folded
    // order puts "a" first.
    let out = order_entries(vec![entry("B", false), entry("a", false)]);
    assert_eq!(names(&out), vec!["a", "B"]);
}

#[test]
fn arrange_filters_hidden_and_excluded() {
    let excludes = default_excludes();
    let input = vec![
        entry("src", true),
        entry(".git", true),
        entry("node_modules", true),
        entry(".hidden", false),
        entry("readme.md", false),
    ];
    let out = arrange_children(&input, false, &excludes);
    assert_eq!(names(&out), vec!["src", "readme.md"]);
}

#[test]
fn arrange_keeps_hidden_when_asked() {
    let excludes = default_excludes();
    let input = vec![entry(".hidden", false), entry("a", false), entry(".git", true)];
    let out = arrange_children(&input, true, &excludes);
    // ".git" stays excluded even with hidden entries included.
    assert_eq!(names(&out), vec![".hidden", "a"]);
}

#[test]
fn hidden_names() {
    assert!(is_hidden_name(".git"));
    assert!(is_hidden_name("."));
    assert!(!is_hidden_name("git"));
    assert!(!is_hidden_name(""));
}

#[test]
fn skip_rules() {
    let excludes = default_excludes();
    assert!(should_skip_name(".profile", false, &excludes));
    assert!(!should_skip_name(".profile", true, &excludes));
    assert!(should_skip_name("target", false, &excludes));
    assert!(should_skip_name("target", true, &excludes));
    assert!(!should_skip_name("src", false, &excludes));
}

#[test]
fn depth_is_clamped() {
    assert_eq!(clamp_depth(None), 3);
    assert_eq!(clamp_depth(Some(0)), 1);
    assert_eq!(clamp_depth(Some(1)), 1);
    assert_eq!(clamp_depth(Some(6)), 6);
    assert_eq!(clamp_depth(Some(99)), 6);
}

#[test]
fn excluded_directories() {
    let ex = default_excludes();
    let got: Vec<&str> = ex.iter().map(|s| s.as_str()).collect();
    assert_eq!(
        got,
        vec![".git", "node_modules", "target", "dist", "build", ".next", ".cache"]
    );
}

#[test]
fn depth_one_listing_shape() {
    // A depth-1 listing: children of the root are arranged, subdirectories
    // first with unexpanded (None) children.
    let excludes = default_excludes();
    let raw = vec![entry("file.txt", false), entry("Sub", true), entry("another", true)];
    let arranged = arrange_children(&raw, false, &excludes);
    let children: Vec<FileTreeNode> = arranged
        .iter()
        .map(|e| FileTreeNode {
            name: e.name.clone(),
            path: format!("/root/{}", e.name),
            is_dir: e.is_dir,
            children: None,
        })
        .collect();
    let response = FileTreeResponse {
        root: FileTreeNode {
            name: "root".to_string(),
            path: "/root".to_string(),
            is_dir: true,
            children: Some(children),
        },
    };
    let kids = response.root.children.as_ref().unwrap();
    assert_eq!(kids.len(), 3);
    assert_eq!(kids[0].name, "another");
    assert_eq!(kids[1].name, "Sub");
    assert_eq!(kids[2].name, "file.txt");
    assert!(kids[0].is_dir && kids[1].is_dir && !kids[2].is_dir);
    assert!(kids.iter().all(|k| k.children.is_none()));
}
