use std::io::Write;

use summeriq::budget::assemble_blocks;
use summeriq::budget::ContentBudget;
use summeriq::errors::AppError;
use summeriq::extract::extract;
use summeriq::select::score_file;
use summeriq::select::is_text_like;
use summeriq::select::select_key_files;
use summeriq::tree::build_tree;
use summeriq::tree::flatten;
use summeriq::tree::FileNode;

fn zip_of(entries: &[(&str, &[u8])]) -> Vec<u8> {
    let mut w = zip::ZipWriter::new(std::io::Cursor::new(Vec::new()));
    let opts = zip::write::SimpleFileOptions::default();
    for (name, data) in entries {
        w.start_file(*name, opts).unwrap();
        w.write_all(data).unwrap();
    }
    w.finish().unwrap().into_inner()
}

#[test]
fn extract_never_escapes_destination() {
    let bytes = zip_of(&[
        ("../../etc/passwd", b"root"),
        ("/abs/path.txt", b"abs"),
        ("ok/./file.txt", b"fine"),
        ("..", b"dots"),
    ]);
    let plan = extract(bytes).unwrap();
    let paths: Vec<&str> = plan.paths.iter().map(|p| p.as_str()).collect();
    assert_eq!(paths, vec!["etc/passwd", "abs/path.txt", "ok/file.txt"]);
    for p in &plan.paths {
        assert!(!p.starts_with('/'));
        assert!(!p.starts_with('\\'));
        for seg in p.split('/') {
            assert!(!seg.is_empty());
            assert_ne!(seg, ".");
            assert_ne!(seg, "..");
        }
    }
    // the entry whose whole name sanitizes away is dropped, not written
    assert_eq!(plan.files.len(), 3);
    assert_eq!(plan.files[0].1, b"root".to_vec());
}

#[test]
fn extract_rejects_garbage() {
    let r = extract(vec![1, 2, 3, 4]);
    assert!(matches!(r, Err(AppError::UploadError(_))));
}

fn names_of(nodes: &[FileNode]) -> Vec<String> {
    nodes.iter().map(|n| n.name.clone()).collect()
}

#[test]
fn tree_scenario_orders_directories_first() {
    // archive with src/main.ext, README.md, pkg/util.ext
    let bytes = zip_of(&[
        ("src/main.ext", b"m"),
        ("README.md", b"r"),
        ("pkg/util.ext", b"u"),
    ]);
    let plan = extract(bytes).unwrap();
    let entries: Vec<(String, bool)> = plan.paths.iter().map(|p| (p.clone(), false)).collect();
    let forest = build_tree(&entries);
    // two top-level directories, alphabetical, before the file
    assert_eq!(names_of(&forest), vec!["pkg", "src", "README.md"]);
    assert!(forest[0].is_dir && forest[1].is_dir && !forest[2].is_dir);
    assert_eq!(names_of(forest[0].children.as_ref().unwrap()), vec!["util.ext"]);
    assert_eq!(names_of(forest[1].children.as_ref().unwrap()), vec!["main.ext"]);
    assert_eq!(forest[0].children.as_ref().unwrap()[0].path, "pkg/util.ext");
}

#[test]
fn tree_orders_each_sibling_list() {
    let entries: Vec<(String, bool)> = vec![
        ("zeta.txt".to_string(), false),
        ("alpha.txt".to_string(), false),
        ("beta/inner.txt".to_string(), false),
        ("beta/aa/x.txt".to_string(), false),
        ("gamma".to_string(), true),
    ];
    let forest = build_tree(&entries);
    assert_eq!(names_of(&forest), vec!["beta", "gamma", "alpha.txt", "zeta.txt"]);
    let beta = &forest[0];
    assert_eq!(names_of(beta.children.as_ref().unwrap()), vec!["aa", "inner.txt"]);
}

#[test]
fn colliding_names_collapse_to_one_directory_node() {
    // a file listed as `a` and paths below `a` yield a single directory node
    let entries: Vec<(String, bool)> = vec![
        ("a".to_string(), false),
        ("a/b.txt".to_string(), false),
    ];
    let forest = build_tree(&entries);
    assert_eq!(forest.len(), 1);
    assert_eq!(forest[0].name, "a");
    assert!(forest[0].is_dir);
    assert_eq!(forest[0].children.as_ref().unwrap().len(), 1);
    assert_eq!(forest[0].children.as_ref().unwrap()[0].name, "b.txt");
    // nothing the listing does not name appears in the tree
    let empty = build_tree(&Vec::new());
    assert!(empty.is_empty());
}

#[test]
fn flatten_is_preorder() {
    let entries: Vec<(String, bool)> = vec![
        ("b/x.txt".to_string(), false),
        ("a.txt".to_string(), false),
    ];
    let forest = build_tree(&entries);
    let flat = flatten(&forest);
    let got: Vec<(String, bool)> = flat;
    assert_eq!(
        got,
        vec![
            ("b".to_string(), true),
            ("b/x.txt".to_string(), false),
            ("a.txt".to_string(), false),
        ]
    );
}

#[test]
fn score_recomputes_from_the_formula() {
    // depth 0, keyword "main", extension ".rs"
    assert_eq!(score_file("main.rs"), 10 + 5 + 2);
    // depth 2, no keyword, unrecognized extension
    assert_eq!(score_file("pkg/deep/x.bin"), 10 - 2);
    // depth 1, keywords "config" and "readme", extension ".md"
    assert_eq!(score_file("config/readme.md"), 10 - 1 + 5 * 2 + 2);
    assert!(is_text_like("a/b.rs"));
    assert!(!is_text_like("a/b.bin"));
}

#[test]
fn selection_is_bounded_sorted_and_stable() {
    let flat: Vec<(String, bool)> = vec![
        ("src".to_string(), true),
        ("src/lib.ext".to_string(), false),   // 10 - 1 = 9
        ("main.rs".to_string(), false),       // 17
        ("other.ext".to_string(), false),     // 10
        ("second.ext".to_string(), false),    // 10, ties with other.ext
        ("README.md".to_string(), false),     // 10 + 5 + 2 = 17, ties with main.rs? no: readme keyword
    ];
    let picked = select_key_files(&flat, 3);
    assert_eq!(picked.len(), 3);
    // main.rs and README.md both score 17; main.rs came first
    assert_eq!(picked[0], "main.rs");
    assert_eq!(picked[1], "README.md");
    // next best score 10; other.ext precedes second.ext (stable tie)
    assert_eq!(picked[2], "other.ext");
    // the bound holds even when fewer files exist
    let few = select_key_files(&flat, 100);
    assert_eq!(few.len(), 5);
}

#[test]
fn budget_respects_cap_and_reports_omissions() {
    let cands: Vec<(String, String)> = vec![
        ("a.txt".to_string(), "hello world".to_string()),
        ("b.txt".to_string(), "bbbb".to_string()),
        ("c.txt".to_string(), "cc".to_string()),
    ];
    // per-file cap truncates contents to 5 characters
    let (assembly, omitted) = assemble_blocks(&cands, 5, 60);
    // block for a.txt: "--- a.txt ---\nhello\n\n" (21 chars)
    assert!(assembly.starts_with("--- a.txt ---\nhello\n\n"));
    assert!(assembly.chars().count() < 60);
    // every candidate is in the assembly or among the omitted
    for (p, c) in &cands {
        let truncated: String = c.chars().take(5).collect();
        let block = format!("--- {} ---\n{}\n\n", p, truncated);
        assert!(assembly.contains(&block) || omitted.contains(p));
    }
    // a huge cumulative cap omits nothing
    let (_all, none_omitted) = assemble_blocks(&cands, 5, 1000);
    assert!(none_omitted.is_empty());
    // a tiny cumulative cap omits everything
    let (empty, all_omitted) = assemble_blocks(&cands, 5, 3);
    assert_eq!(empty, "");
    assert_eq!(all_omitted.len(), 3);
    assert_eq!(all_omitted, vec!["a.txt", "b.txt", "c.txt"]);
}

#[test]
fn content_budget_counts_monotonically() {
    let mut b = ContentBudget::new(10);
    assert!(b.fits(5));
    b.consume(5);
    assert_eq!(b.used, 5);
    assert!(!b.fits(5));
    assert!(b.fits(4));
}
