use std::path::PathBuf;

use needle::search::{
    decode_text_bytes, fingerprint_step, fuzzy_match_score, hash_str, skips_entry, ProjectFileEntry,
    ProjectIndex, ProjectSearchMatch, ProjectTextSearchEvent, ProjectTextSearchQuery,
    ProjectTextSearchSummary, TextSearch,
};

/// A project tree held in memory: a directory holds named files (with contents) and directories.
enum Node {
    File(&'static str),
    Dir(Vec<(&'static str, Node)>),
}

/// Walks `dir` as a project scan does: hidden entries are passed over unless shown, directories
/// are entered, and each file is recorded with its relative path.
fn walk(dir: &[(&'static str, Node)], prefix: &str, show_hidden: bool, out: &mut Vec<ProjectFileEntry>) {
    for (name, node) in dir {
        if skips_entry(name, show_hidden) {
            continue;
        }
        let relative = if prefix.is_empty() { name.to_string() } else { format!("{prefix}/{name}") };
        match node {
            Node::Dir(children) => walk(children, &relative, show_hidden, out),
            Node::File(_) => out.push(ProjectFileEntry {
                path: PathBuf::from("/project").join(&relative),
                relative_path: relative,
            }),
        }
    }
}

fn build(tree: &[(&'static str, Node)], show_hidden: bool) -> ProjectIndex {
    let mut files = Vec::new();
    walk(tree, "", show_hidden, &mut files);
    ProjectIndex::from_scan(PathBuf::from("/project"), show_hidden, 0, files)
}

fn contents_of(tree: &[(&'static str, Node)], relative: &str) -> String {
    let mut dir = tree;
    let parts: Vec<&str> = relative.split('/').collect();
    for (k, part) in parts.iter().enumerate() {
        let (_, node) = dir.iter().find(|(name, _)| name == part).expect("entry of the tree");
        match node {
            Node::Dir(children) => dir = children,
            Node::File(text) => {
                assert_eq!(k + 1, parts.len());
                return text.to_string();
            }
        }
    }
    panic!("not a file: {relative}");
}

/// Runs a text search over the files of `index`, reading each from `tree`, and collects the
/// events it reports in order.
fn run_search(
    index: &ProjectIndex,
    tree: &[(&'static str, Node)],
    query: ProjectTextSearchQuery,
) -> (Vec<ProjectTextSearchEvent>, Vec<ProjectSearchMatch>) {
    let files = index.quick_open_matches("", usize::MAX);
    let mut search = TextSearch::new(files, query);
    let mut events = Vec::new();
    loop {
        let relative = match search.next_file() {
            Some(entry) => entry.relative_path.clone(),
            None => break,
        };
        let text = contents_of(tree, &relative);
        for batch in search.scan_text(&text) {
            events.push(ProjectTextSearchEvent::Batch(batch));
        }
    }
    for (batch, done) in search.finish() {
        if done {
            events.push(ProjectTextSearchEvent::Complete(ProjectTextSearchSummary {
                scanned_files: batch.scanned_files,
                total_matches: batch.total_matches,
            }));
        } else {
            events.push(ProjectTextSearchEvent::Batch(batch));
        }
    }
    let matches = search.matches().to_vec();
    (events, matches)
}

#[test]
fn project_index_hides_dotfiles_by_default() {
    let tree = vec![
        ("src", Node::Dir(vec![("main.rs", Node::File("fn main() {}\n"))])),
        (".needle", Node::Dir(vec![("settings.json", Node::File("{}\n"))])),
    ];

    let hidden_off = build(&tree, false);
    let hidden_on = build(&tree, true);

    assert_eq!(hidden_off.file_count(), 1);
    assert_eq!(hidden_on.file_count(), 2);
}

#[test]
fn quick_open_prefers_stronger_matches() {
    let tree = vec![
        (
            "src",
            Node::Dir(vec![
                ("app.rs", Node::File("fn main() {}\n")),
                ("alpha_beta.rs", Node::File("fn alpha() {}\n")),
            ]),
        ),
        ("docs", Node::Dir(vec![("readme.md", Node::File("hello\n"))])),
    ];

    let index = build(&tree, false);
    let matches = index.quick_open_matches("ab", 10);

    assert_eq!(
        matches.first().map(|item| item.relative_path.as_str()),
        Some("src/alpha_beta.rs")
    );
}

#[test]
fn text_search_supports_case_sensitivity() {
    let tree = vec![("src", Node::Dir(vec![("main.rs", Node::File("Needle\nneedle\n"))]))];

    let index = build(&tree, false);
    let (_, insensitive) = run_search(&index, &tree, ProjectTextSearchQuery::new("needle".to_string()));

    let mut sensitive_query = ProjectTextSearchQuery::new("needle".to_string());
    sensitive_query.case_sensitive = true;
    let (_, sensitive) = run_search(&index, &tree, sensitive_query);

    assert_eq!(insensitive.len(), 2);
    assert_eq!(sensitive.len(), 1);
    assert_eq!(sensitive[0].line_number, 2);
}

#[test]
fn async_search_emits_batches_and_completion() {
    let tree = vec![("src", Node::Dir(vec![("main.rs", Node::File("alpha\nbeta\nalpha\n"))]))];

    let index = build(&tree, false);
    let mut query = ProjectTextSearchQuery::new("alpha".to_string());
    query.batch_size = 1;
    let (events, _) = run_search(&index, &tree, query);
    let mut events = events.into_iter();

    match events.next().expect("first event") {
        ProjectTextSearchEvent::Batch(batch) => {
            assert_eq!(batch.matches.len(), 1);
            assert_eq!(batch.total_matches, 1);
        }
        other => panic!("expected batch, got {other:?}"),
    }
    match events.next().expect("second event") {
        ProjectTextSearchEvent::Batch(batch) => {
            assert_eq!(batch.matches.len(), 1);
            assert_eq!(batch.total_matches, 2);
        }
        other => panic!("expected second batch, got {other:?}"),
    }
    match events.next().expect("complete event") {
        ProjectTextSearchEvent::Complete(summary) => {
            assert_eq!(summary.total_matches, 2);
            assert_eq!(summary.scanned_files, 1);
        }
        other => panic!("expected completion, got {other:?}"),
    }
    assert!(events.next().is_none());
}

#[test]
fn search_batches_leftover_matches_before_completion() {
    let tree = vec![
        ("a.txt", Node::File("alpha one\nnothing\n")),
        ("b.txt", Node::File("  alpha two  \n")),
    ];
    let index = build(&tree, false);
    let (events, matches) = run_search(&index, &tree, ProjectTextSearchQuery::new("alpha".to_string()));

    assert_eq!(events.len(), 2);
    match &events[0] {
        ProjectTextSearchEvent::Batch(batch) => {
            assert_eq!(batch.matches.len(), 2);
            assert_eq!(batch.scanned_files, 2);
            assert_eq!(batch.total_matches, 2);
        }
        other => panic!("expected batch, got {other:?}"),
    }
    assert!(matches!(
        &events[1],
        ProjectTextSearchEvent::Complete(ProjectTextSearchSummary { scanned_files: 2, total_matches: 2 })
    ));
    assert_eq!(matches[0].relative_path, "a.txt");
    assert_eq!(matches[0].line_number, 1);
    assert_eq!(matches[1].line_text, "alpha two");
}

#[test]
fn search_stops_at_its_limit() {
    let tree = vec![("a.txt", Node::File("x\nx\nx\n")), ("b.txt", Node::File("x\n"))];
    let index = build(&tree, false);
    let mut query = ProjectTextSearchQuery::new("x".to_string());
    query.limit = 2;
    let (events, matches) = run_search(&index, &tree, query);

    assert_eq!(matches.len(), 2);
    match events.last().expect("completion") {
        ProjectTextSearchEvent::Complete(summary) => {
            assert_eq!(summary.total_matches, 2);
            assert_eq!(summary.scanned_files, 1);
        }
        other => panic!("expected completion, got {other:?}"),
    }
}

#[test]
fn blank_query_completes_without_reading() {
    let tree = vec![("a.txt", Node::File("x\n"))];
    let index = build(&tree, false);
    let (events, matches) = run_search(&index, &tree, ProjectTextSearchQuery::new("   ".to_string()));

    assert!(matches.is_empty());
    assert_eq!(events.len(), 1);
    assert!(matches!(
        &events[0],
        ProjectTextSearchEvent::Complete(ProjectTextSearchSummary { scanned_files: 0, total_matches: 0 })
    ));
}

#[test]
fn query_needle_trims_and_lowercases() {
    let query = ProjectTextSearchQuery::new("  NeEdle ".to_string());
    assert_eq!(query.needle(), Some("needle".to_string()));
    let mut sensitive = ProjectTextSearchQuery::new("  NeEdle ".to_string());
    sensitive.case_sensitive = true;
    assert_eq!(sensitive.needle(), Some("NeEdle".to_string()));
    assert_eq!(ProjectTextSearchQuery::new(" \t".to_string()).needle(), None);
}

#[test]
fn fuzzy_scores_are_exact() {
    assert_eq!(fuzzy_match_score("src/alpha_beta.rs", "ab"), Some(44));
    assert_eq!(fuzzy_match_score("abc", "abc"), Some(121));
    assert_eq!(fuzzy_match_score("src/app.rs", "ab"), None);
    assert_eq!(fuzzy_match_score("docs/readme.md", "ab"), None);
}

#[test]
fn quick_open_keeps_path_order_for_empty_query_and_limit() {
    let files = vec![
        ProjectFileEntry { path: PathBuf::from("/p/b.rs"), relative_path: "b.rs".to_string() },
        ProjectFileEntry { path: PathBuf::from("/p/a.rs"), relative_path: "a.rs".to_string() },
        ProjectFileEntry { path: PathBuf::from("/p/c.rs"), relative_path: "c.rs".to_string() },
    ];
    let index = ProjectIndex::from_scan(PathBuf::from("/p"), false, 7, files);
    let all = index.quick_open_matches("  ", 0);
    assert_eq!(all.len(), 1);
    assert_eq!(all[0].relative_path, "a.rs");
    let two = index.quick_open_matches("", 2);
    assert_eq!(two.iter().map(|e| e.relative_path.as_str()).collect::<Vec<_>>(), vec!["a.rs", "b.rs"]);
    assert_eq!(index.generation(), 7);
    assert!(!index.show_hidden());
    assert_eq!(index.root(), &PathBuf::from("/p"));
}

#[test]
fn hashes_and_fingerprints_are_exact() {
    assert_eq!(hash_str(""), 1469598103934665603);
    assert_eq!(hash_str("a"), 4953267810257967366);
    assert_eq!(hash_str("needle"), 7384771761246725292);
    let step = fingerprint_step(2, "a", 5, 7);
    assert_eq!(step, 262u64.wrapping_add(4953267810257967366).wrapping_add(12));
}

#[test]
fn hidden_entries_are_skipped_unless_shown() {
    assert!(skips_entry(".git", false));
    assert!(!skips_entry(".git", true));
    assert!(!skips_entry("src", false));
    assert!(!skips_entry("", false));
}

#[test]
fn search_decodes_file_bytes() {
    assert_eq!(decode_text_bytes(b"plain"), "plain");
    assert_eq!(decode_text_bytes(&[0xEF, 0xBB, 0xBF, b'h', b'i']), "hi");
    assert_eq!(decode_text_bytes(&[0xFF, 0xFE, b'h', 0, b'i', 0]), "hi");
}
