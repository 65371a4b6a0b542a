use marginal::{
    build_entry, build_forest, build_tree, error_message, name_is_hidden, DirProbe, ErrorKind,
    FileNode, RawEntry, RawEntryKind,
};

fn file(name: &str, path: &str) -> RawEntry {
    RawEntry {
        name: name.to_string(),
        path: path.to_string(),
        kind: RawEntryKind::File,
    }
}

fn dir(name: &str, path: &str, entries: Vec<RawEntry>) -> RawEntry {
    RawEntry {
        name: name.to_string(),
        path: path.to_string(),
        kind: RawEntryKind::Directory {
            entries: Some(entries),
        },
    }
}

fn unreadable_dir(name: &str, path: &str) -> RawEntry {
    RawEntry {
        name: name.to_string(),
        path: path.to_string(),
        kind: RawEntryKind::Directory { entries: None },
    }
}

fn names(nodes: &[FileNode]) -> Vec<String> {
    nodes.iter().map(|n| n.name.clone()).collect()
}

fn assert_no_hidden(nodes: &[FileNode]) {
    for n in nodes {
        assert!(!n.name.starts_with('.'), "hidden name in result: {}", n.name);
        if let Some(children) = &n.children {
            assert_no_hidden(children);
        }
    }
}

#[test]
fn directories_first_then_files_each_alphabetical() {
    // enumeration order scrambled on purpose
    let entries = vec![
        file("beta.md", "/r/beta.md"),
        dir("docs", "/r/docs", vec![]),
        file("alpha.md", "/r/alpha.md"),
        dir("assets", "/r/assets", vec![]),
    ];
    let nodes = build_tree(DirProbe::Listed { entries }).unwrap();
    assert_eq!(names(&nodes), vec!["assets", "docs", "alpha.md", "beta.md"]);
    assert!(nodes[0].is_directory && nodes[1].is_directory);
    assert!(!nodes[2].is_directory && !nodes[3].is_directory);
}

#[test]
fn listing_does_not_depend_on_enumeration_order() {
    let forward = vec![
        dir("assets", "/r/assets", vec![]),
        dir("docs", "/r/docs", vec![]),
        file("alpha.md", "/r/alpha.md"),
        file("beta.md", "/r/beta.md"),
    ];
    let backward = vec![
        file("beta.md", "/r/beta.md"),
        file("alpha.md", "/r/alpha.md"),
        dir("docs", "/r/docs", vec![]),
        dir("assets", "/r/assets", vec![]),
    ];
    let a = build_tree(DirProbe::Listed { entries: forward }).unwrap();
    let b = build_tree(DirProbe::Listed { entries: backward }).unwrap();
    assert_eq!(names(&a), names(&b));
    assert_eq!(names(&a), vec!["assets", "docs", "alpha.md", "beta.md"]);
}

#[test]
fn files_keep_no_child_list_directories_always_one() {
    let entries = vec![file("a", "/r/a"), dir("d", "/r/d", vec![])];
    let nodes = build_tree(DirProbe::Listed { entries }).unwrap();
    assert!(nodes[0].is_directory);
    assert!(matches!(nodes[0].children, Some(ref c) if c.is_empty()));
    assert!(!nodes[1].is_directory);
    assert!(nodes[1].children.is_none());
}

#[test]
fn hidden_entries_never_appear_anywhere() {
    let entries = vec![
        dir(
            ".git",
            "/r/.git",
            vec![file("config", "/r/.git/config")],
        ),
        file(".env", "/r/.env"),
        dir(
            "src",
            "/r/src",
            vec![
                file(".gitignore", "/r/src/.gitignore"),
                file("main.rs", "/r/src/main.rs"),
                dir(".cache", "/r/src/.cache", vec![]),
            ],
        ),
    ];
    let nodes = build_tree(DirProbe::Listed { entries }).unwrap();
    assert_no_hidden(&nodes);
    assert_eq!(names(&nodes), vec!["src"]);
    let src_children = nodes[0].children.as_ref().unwrap();
    assert_eq!(names(src_children), vec!["main.rs"]);
}

#[test]
fn hidden_entry_alone_gives_empty_listing() {
    let entries = vec![file(".hidden", "/r/.hidden")];
    let nodes = build_tree(DirProbe::Listed { entries }).unwrap();
    assert!(nodes.is_empty());
}

#[test]
fn sorting_is_case_insensitive_within_a_group() {
    let entries = vec![
        file("Banana", "/r/Banana"),
        file("cherry", "/r/cherry"),
        file("apple", "/r/apple"),
    ];
    let nodes = build_tree(DirProbe::Listed { entries }).unwrap();
    assert_eq!(names(&nodes), vec!["apple", "Banana", "cherry"]);
}

#[test]
fn directories_precede_files_regardless_of_name() {
    let entries = vec![
        file("apple", "/r/apple"),
        dir("Zoo", "/r/Zoo", vec![]),
    ];
    let nodes = build_tree(DirProbe::Listed { entries }).unwrap();
    assert_eq!(names(&nodes), vec!["Zoo", "apple"]);
}

#[test]
fn names_equal_after_case_folding_keep_enumeration_order() {
    let entries = vec![file("README", "/r/README"), file("readme", "/r/readme")];
    let nodes = build_tree(DirProbe::Listed { entries }).unwrap();
    assert_eq!(names(&nodes), vec!["README", "readme"]);

    let entries = vec![file("readme", "/r/readme"), file("README", "/r/README")];
    let nodes = build_tree(DirProbe::Listed { entries }).unwrap();
    assert_eq!(names(&nodes), vec!["readme", "README"]);
}

#[test]
fn nested_listings_are_ordered_too() {
    let entries = vec![dir(
        "src",
        "/r/src",
        vec![
            file("zeta.rs", "/r/src/zeta.rs"),
            dir("Util", "/r/src/Util", vec![]),
            file("Alpha.rs", "/r/src/Alpha.rs"),
            dir("core", "/r/src/core", vec![]),
        ],
    )];
    let nodes = build_tree(DirProbe::Listed { entries }).unwrap();
    let inner = nodes[0].children.as_ref().unwrap();
    assert_eq!(names(inner), vec!["core", "Util", "Alpha.rs", "zeta.rs"]);
}

#[test]
fn missing_root_is_not_found() {
    let r = build_tree(DirProbe::Missing);
    assert!(matches!(r, Err(ErrorKind::NotFound)));
}

#[test]
fn file_root_is_not_a_directory() {
    let r = build_tree(DirProbe::NotDirectory);
    assert!(matches!(r, Err(ErrorKind::NotADirectory)));
}

#[test]
fn unreadable_root_keeps_its_message() {
    let r = build_tree(DirProbe::Unreadable {
        message: "Failed to read directory: permission denied".to_string(),
    });
    match r {
        Err(ErrorKind::ReadError(m)) => {
            assert_eq!(m, "Failed to read directory: permission denied");
        }
        _ => panic!("expected a read error"),
    }
}

#[test]
fn unreadable_subdirectory_becomes_empty_while_siblings_stay() {
    let entries = vec![
        file("notes.md", "/r/notes.md"),
        unreadable_dir("locked", "/r/locked"),
        dir("open", "/r/open", vec![file("x", "/r/open/x")]),
    ];
    let nodes = build_tree(DirProbe::Listed { entries }).unwrap();
    assert_eq!(names(&nodes), vec!["locked", "open", "notes.md"]);
    assert!(matches!(nodes[0].children, Some(ref c) if c.is_empty()));
    let open_children = nodes[1].children.as_ref().unwrap();
    assert_eq!(names(open_children), vec!["x"]);
}

#[test]
fn paths_are_carried_through_unchanged() {
    let entries = vec![dir(
        "docs",
        "/some/root/docs",
        vec![file("guide.md", "/some/root/docs/guide.md")],
    )];
    let nodes = build_tree(DirProbe::Listed { entries }).unwrap();
    assert_eq!(nodes[0].path, "/some/root/docs");
    assert_eq!(nodes[0].children.as_ref().unwrap()[0].path, "/some/root/docs/guide.md");
}

#[test]
fn build_forest_alone_orders_a_sibling_list() {
    let raw = vec![file("b", "/b"), file("A", "/A")];
    let nodes = build_forest(&raw);
    assert_eq!(names(&nodes), vec!["A", "b"]);
}

#[test]
fn build_entry_drops_hidden_and_keeps_the_rest() {
    assert!(build_entry(&file(".secret", "/r/.secret")).is_none());
    let node = build_entry(&file("kept", "/r/kept")).unwrap();
    assert_eq!(node.name, "kept");
    assert!(!node.is_directory);
}

#[test]
fn error_messages_match_the_shell_wording() {
    assert_eq!(error_message(&ErrorKind::NotFound), "Path does not exist");
    assert_eq!(error_message(&ErrorKind::NotADirectory), "Path is not a directory");
    assert_eq!(
        error_message(&ErrorKind::ReadError("Failed to read file: gone".to_string())),
        "Failed to read file: gone"
    );
    assert_eq!(
        error_message(&ErrorKind::WriteError("Failed to write file: full".to_string())),
        "Failed to write file: full"
    );
}

#[test]
fn name_is_hidden_looks_only_at_the_first_character() {
    assert!(name_is_hidden(".git"));
    assert!(name_is_hidden("."));
    assert!(!name_is_hidden(""));
    assert!(!name_is_hidden("git"));
    assert!(!name_is_hidden("a.b"));
}
