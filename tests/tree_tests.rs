use file_tree::{
    assemble, compare_names, contains_pattern, hash_contents, is_not_hidden, parse_exclusions,
    prepare_children, sort_by_name, DepthOrderError, Entry, FileNode, TreeBuilder,
};

fn entry(path: &str, is_file: bool, depth: usize) -> Entry {
    let name = path.rsplit('/').next().unwrap().to_string();
    Entry { name, path: path.to_string(), is_file, depth }
}

fn node(path: &str, is_file: bool, children: Vec<FileNode>) -> FileNode {
    let name = path.rsplit('/').next().unwrap().to_string();
    FileNode { name, path: path.to_string(), is_file, children }
}

fn files_have_no_children(nodes: &[FileNode]) -> bool {
    nodes.iter().all(|n| (!n.is_file || n.children.is_empty()) && files_have_no_children(&n.children))
}

fn height(nodes: &[FileNode]) -> usize {
    nodes.iter().map(|n| 1 + height(&n.children)).max().unwrap_or(0)
}

fn names(nodes: &[FileNode]) -> Vec<String> {
    nodes.iter().map(|n| n.name.clone()).collect()
}

/// A directory listing held in memory: each directory with its children, in
/// no particular order.
struct Dir {
    path: String,
    children: Vec<(String, bool)>,
}

fn listing(dirs: &[Dir], path: &str) -> Vec<(String, bool)> {
    dirs.iter().find(|d| d.path == path).map(|d| d.children.clone()).unwrap_or_default()
}

/// Walks a listing depth first, filtering and sorting each directory's
/// children as the parallel walk does.
fn walk(dirs: &[Dir], path: &str, depth: usize, max_depth: usize, ex: &Vec<Vec<u8>>, out: &mut Vec<Entry>) {
    if depth > max_depth {
        return;
    }
    let children: Vec<Entry> = listing(dirs, path)
        .into_iter()
        .map(|(name, is_file)| Entry { path: format!("{}/{}", path, name), name, is_file, depth })
        .collect();
    for e in prepare_children(children, ex) {
        let is_dir = !e.is_file;
        let p = e.path.clone();
        out.push(e);
        if is_dir {
            walk(dirs, &p, depth + 1, max_depth, ex, out);
        }
    }
}

fn scenario_dirs() -> Vec<Dir> {
    vec![
        Dir { path: "/r".to_string(), children: vec![("z.txt".to_string(), true), ("a".to_string(), false)] },
        Dir { path: "/r/a".to_string(), children: vec![("x.txt".to_string(), true), ("b".to_string(), false)] },
        Dir { path: "/r/a/b".to_string(), children: vec![("y.txt".to_string(), true)] },
    ]
}

#[test]
fn concrete_scenario_forest() {
    let entries = vec![
        entry("/r/a", false, 1),
        entry("/r/a/b", false, 2),
        entry("/r/a/b/y.txt", true, 3),
        entry("/r/a/x.txt", true, 2),
        entry("/r/z.txt", true, 1),
    ];
    let forest = assemble(&entries).unwrap();
    let expected = vec![
        node(
            "/r/a",
            false,
            vec![node("/r/a/b", false, vec![node("/r/a/b/y.txt", true, vec![])]), node("/r/a/x.txt", true, vec![])],
        ),
        node("/r/z.txt", true, vec![]),
    ];
    assert_eq!(forest, expected);
}

#[test]
fn walk_of_listing_gives_scenario_forest() {
    let mut entries = Vec::new();
    walk(&scenario_dirs(), "/r", 1, 3, &parse_exclusions(""), &mut entries);
    let forest = assemble(&entries).unwrap();
    assert_eq!(names(&forest), vec!["a", "z.txt"]);
    assert_eq!(names(&forest[0].children), vec!["b", "x.txt"]);
    assert_eq!(names(&forest[0].children[0].children), vec!["y.txt"]);
    assert!(forest[1].is_file);
    assert!(forest[1].children.is_empty());
}

#[test]
fn sequential_and_parallel_streams_agree() {
    // The stream a sorted sequential walk yields.
    let sequential = vec![
        entry("/r/a", false, 1),
        entry("/r/a/b", false, 2),
        entry("/r/a/b/y.txt", true, 3),
        entry("/r/a/x.txt", true, 2),
        entry("/r/z.txt", true, 1),
    ];
    let mut parallel = Vec::new();
    walk(&scenario_dirs(), "/r", 1, 3, &parse_exclusions(""), &mut parallel);
    assert_eq!(assemble(&sequential).unwrap(), assemble(&parallel).unwrap());
}

#[test]
fn siblings_are_ordered_by_bytes() {
    let dirs = vec![Dir {
        path: "/r".to_string(),
        children: vec![
            ("b".to_string(), true),
            ("B".to_string(), true),
            ("a".to_string(), true),
            ("ab".to_string(), true),
            ("_".to_string(), true),
        ],
    }];
    let mut entries = Vec::new();
    walk(&dirs, "/r", 1, 1, &parse_exclusions(""), &mut entries);
    let forest = assemble(&entries).unwrap();
    assert_eq!(names(&forest), vec!["B", "_", "a", "ab", "b"]);
}

#[test]
fn files_never_have_children() {
    let mut entries = Vec::new();
    walk(&scenario_dirs(), "/r", 1, 3, &parse_exclusions(""), &mut entries);
    let forest = assemble(&entries).unwrap();
    assert!(files_have_no_children(&forest));
}

#[test]
fn depth_bound_is_kept() {
    for max_depth in 0..4 {
        let mut entries = Vec::new();
        walk(&scenario_dirs(), "/r", 1, max_depth, &parse_exclusions(""), &mut entries);
        let forest = assemble(&entries).unwrap();
        assert!(height(&forest) <= max_depth);
    }
    let mut entries = Vec::new();
    walk(&scenario_dirs(), "/r", 1, 0, &parse_exclusions(""), &mut entries);
    assert!(assemble(&entries).unwrap().is_empty());
}

#[test]
fn excluded_directory_is_pruned() {
    let dirs = vec![
        Dir { path: "/r".to_string(), children: vec![("build-cache".to_string(), false), ("src".to_string(), false)] },
        Dir { path: "/r/build-cache".to_string(), children: vec![("keep.txt".to_string(), true)] },
        Dir { path: "/r/src".to_string(), children: vec![("keep.txt".to_string(), true)] },
    ];
    let mut entries = Vec::new();
    walk(&dirs, "/r", 1, 5, &parse_exclusions("cache"), &mut entries);
    let forest = assemble(&entries).unwrap();
    assert_eq!(forest, vec![node("/r/src", false, vec![node("/r/src/keep.txt", true, vec![])])]);
}

#[test]
fn dot_env_is_always_excluded() {
    assert!(!is_not_hidden(".env", &parse_exclusions("")));
    assert!(!is_not_hidden(".env", &parse_exclusions("cache,tmp")));
    assert!(is_not_hidden("env", &parse_exclusions("")));
}

#[test]
fn exclusion_patterns_match_substrings() {
    let ex = parse_exclusions("node_modules,target");
    assert!(!is_not_hidden("node_modules", &ex));
    assert!(!is_not_hidden("my-target-dir", &ex));
    assert!(is_not_hidden("src", &ex));
}

#[test]
fn parse_exclusions_splits_on_commas() {
    assert!(parse_exclusions("").is_empty());
    assert_eq!(parse_exclusions("cache"), vec![b"cache".to_vec()]);
    assert_eq!(parse_exclusions("a,bc"), vec![b"a".to_vec(), b"bc".to_vec()]);
    assert_eq!(parse_exclusions("a,"), vec![b"a".to_vec(), Vec::new()]);
}

#[test]
fn empty_pattern_excludes_every_name() {
    assert!(!is_not_hidden("anything", &parse_exclusions("a,")));
}

#[test]
fn contains_pattern_finds_substrings() {
    assert!(contains_pattern(b"build-cache", b"cache"));
    assert!(contains_pattern(b"abc", b""));
    assert!(!contains_pattern(b"cach", b"cache"));
    assert!(!contains_pattern(b"src", b"cache"));
    assert!(contains_pattern(b"cache", b"cache"));
}

#[test]
fn compare_names_is_bytewise() {
    assert!(compare_names("a", "b"));
    assert!(!compare_names("b", "a"));
    assert!(compare_names("B", "a"));
    assert!(compare_names("a", "ab"));
    assert!(!compare_names("ab", "a"));
    assert!(compare_names("same", "same"));
    assert!(compare_names("", "x"));
}

#[test]
fn sort_by_name_orders_and_keeps_entries() {
    let sorted = sort_by_name(vec![entry("/r/c", true, 1), entry("/r/a", true, 1), entry("/r/b", false, 1)]);
    let got: Vec<&str> = sorted.iter().map(|e| e.name.as_str()).collect();
    assert_eq!(got, vec!["a", "b", "c"]);
    assert!(!sorted[1].is_file);
    assert!(sort_by_name(Vec::new()).is_empty());
}

#[test]
fn prepare_children_filters_then_sorts() {
    let out = prepare_children(
        vec![entry("/r/z", true, 1), entry("/r/.git", false, 1), entry("/r/tmp-cache", false, 1), entry("/r/m", true, 1)],
        &parse_exclusions("cache"),
    );
    let got: Vec<&str> = out.iter().map(|e| e.name.as_str()).collect();
    assert_eq!(got, vec!["m", "z"]);
}

#[test]
fn depth_zero_entry_is_rejected() {
    let r = assemble(&vec![entry("/r", false, 0)]);
    assert_eq!(r, Err(DepthOrderError { position: 0 }));
}

#[test]
fn depth_gap_is_rejected() {
    let r = assemble(&vec![entry("/r/a", false, 1), entry("/r/a/b/c", true, 3)]);
    assert_eq!(r, Err(DepthOrderError { position: 1 }));
}

#[test]
fn child_of_file_is_rejected() {
    let r = assemble(&vec![entry("/r/f", true, 1), entry("/r/f/g", true, 2)]);
    assert_eq!(r, Err(DepthOrderError { position: 1 }));
}

#[test]
fn empty_stream_gives_empty_forest() {
    assert!(assemble(&Vec::new()).unwrap().is_empty());
}

#[test]
fn builder_keeps_state_after_refused_entry() {
    let mut b = TreeBuilder::new();
    assert!(b.push(&entry("/r/a", false, 1)));
    assert!(!b.push(&entry("/r/a/b/c", true, 3)));
    assert!(b.push(&entry("/r/a/x", true, 2)));
    assert!(b.push(&entry("/r/y", true, 1)));
    let roots = b.into_roots();
    assert_eq!(roots, vec![node("/r/a", false, vec![node("/r/a/x", true, vec![])]), node("/r/y", true, vec![])]);
}

#[test]
fn file_node_new_is_childless() {
    let n = FileNode::new(&entry("/r/d", false, 1));
    assert_eq!(n, node("/r/d", false, vec![]));
}

#[test]
fn hash_contents_of_abc() {
    let r = hash_contents(b"abc", Some("abc.txt"));
    assert_eq!(r.md5, "900150983cd24fb0d6963f7d28e17f72");
    assert_eq!(r.sha1, "a9993e364706816aba3e25717850c26c9cd0d89d");
    assert_eq!(r.sha256, "ba7816bf8f01cfea414140de5dae2223b00361a396177a9cb410ff61f20015ad");
    assert_eq!(r.blake3, "6437b3ac38465133ffb63b75273a8db548c558465d79db03fd359c6cd5bd9d85");
    assert_eq!(r.filename, "abc.txt");
    assert_eq!(r.size, 3);
}

#[test]
fn hash_contents_of_empty_file_without_name() {
    let r = hash_contents(b"", None);
    assert_eq!(r.md5, "d41d8cd98f00b204e9800998ecf8427e");
    assert_eq!(r.sha256, "e3b0c44298fc1c149afbf4c8996fb92427ae41e4649b934ca495991b7852b855");
    assert_eq!(r.filename, "未知文件");
    assert_eq!(r.size, 0);
}
