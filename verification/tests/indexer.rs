use gitsidian::indexer::{
    index_note, index_vault, join_tags, make_snippet, note_title, reindex_file, settle, IndexMode,
    ScannedFile,
};
use gitsidian::linker::LinkGraph;
use gitsidian::parser::parse_note;

fn strings(items: &[&str]) -> Vec<String> {
    items.iter().map(|s| s.to_string()).collect()
}

#[test]
fn title_comes_from_front_matter() {
    let parsed = parse_note("---\ntitle: A Fine Title\n---\nbody");
    assert_eq!(note_title(&parsed.frontmatter, "notes/file-name.md"), "A Fine Title");
}

#[test]
fn title_falls_back_to_the_file_stem() {
    let parsed = parse_note("---\nauthor: me\n---\nbody");
    assert_eq!(note_title(&parsed.frontmatter, "notes/file-name.md"), "file-name");
    let parsed = parse_note("no front matter");
    assert_eq!(note_title(&parsed.frontmatter, "deep/er/Other Note.markdown"), "Other Note");
}

#[test]
fn empty_title_is_a_title() {
    let parsed = parse_note("---\ntitle:\n---\n");
    assert_eq!(note_title(&parsed.frontmatter, "x.md"), "");
}

#[test]
fn index_note_updates_the_graph_and_makes_the_document() {
    let mut graph = LinkGraph::new();
    let text = "---\ntitle: First\ntags: [t1]\n---\nlinks to [[second]] and [[third|3]] #t2";
    let doc = index_note(&mut graph, "dir/first.md", text);
    assert_eq!(doc.path, "dir/first.md");
    assert_eq!(doc.title, "First");
    assert_eq!(doc.body, text);
    assert_eq!(doc.tags, strings(&["t1", "t2"]));
    assert_eq!(graph.resolve_link("first"), Some("dir/first.md".to_string()));
    assert_eq!(graph.get_backlinks("second.md"), strings(&["dir/first.md"]));
    assert_eq!(graph.get_backlinks("third.md"), strings(&["dir/first.md"]));
}

#[test]
fn index_note_again_replaces_the_links() {
    let mut graph = LinkGraph::new();
    index_note(&mut graph, "a.md", "[[b]] [[c]]");
    index_note(&mut graph, "a.md", "[[c]]");
    assert!(graph.get_backlinks("b.md").is_empty());
    assert_eq!(graph.get_backlinks("c.md"), strings(&["a.md"]));
    assert_eq!(graph.get_all_note_names(), strings(&["a"]));
}

#[test]
fn full_scan_passes_over_failures() {
    assert_eq!(settle(IndexMode::FullScan, Ok(())), Ok(()));
    assert_eq!(settle(IndexMode::FullScan, Err("disk".to_string())), Ok(()));
}

#[test]
fn single_file_reports_failures() {
    assert_eq!(settle(IndexMode::SingleFile, Ok(())), Ok(()));
    assert_eq!(settle(IndexMode::SingleFile, Err("disk".to_string())), Err("disk".to_string()));
}

#[test]
fn tags_are_joined_by_spaces() {
    assert_eq!(join_tags(&strings(&[])), "");
    assert_eq!(join_tags(&strings(&["one"])), "one");
    assert_eq!(join_tags(&strings(&["one", "two", "three"])), "one two three");
    assert_eq!(join_tags(&strings(&["", "x", ""])), " x ");
    assert_eq!(join_tags(&strings(&["a b", "c"])), strings(&["a b", "c"]).join(" "));
}

#[test]
fn short_body_is_its_own_snippet() {
    assert_eq!(make_snippet(""), "");
    assert_eq!(make_snippet("short"), "short");
    let exactly: String = "x".repeat(200);
    assert_eq!(make_snippet(&exactly), exactly);
}

#[test]
fn long_body_is_cut_at_two_hundred_characters() {
    let long: String = "0123456789".repeat(21);
    let expected = format!("{}...", &long[..200]);
    assert_eq!(make_snippet(&long), expected);
    assert_eq!(make_snippet(&long).chars().count(), 203);
    let one_more: String = "y".repeat(201);
    assert_eq!(make_snippet(&one_more), format!("{}...", "y".repeat(200)));
}

#[test]
fn snippet_counts_characters() {
    let long: String = "é".repeat(250);
    assert_eq!(make_snippet(&long), format!("{}...", "é".repeat(200)));
    let fits: String = "日".repeat(200);
    assert_eq!(make_snippet(&fits), fits);
}

fn scanned(path: &str, content: Option<&str>) -> ScannedFile {
    ScannedFile { path: path.to_string(), content: content.map(|c| c.to_string()) }
}

#[test]
fn full_index_takes_the_notes_that_could_be_read() {
    let mut graph = LinkGraph::new();
    let files = vec![
        scanned("a.md", Some("---\ntitle: A\n---\n[[b]] #x")),
        scanned("image.png", Some("[[a]]")),
        scanned("unreadable.md", None),
        scanned(".git/config.md", Some("[[a]]")),
        scanned("dir/.hidden.md", Some("[[a]]")),
        scanned("dir/b.markdown", Some("[[a]] and [[a]]")),
        scanned("notes.txt", Some("[[b]]")),
    ];
    let documents = index_vault(&mut graph, &files);
    let paths: Vec<String> = documents.iter().map(|d| d.path.clone()).collect();
    assert_eq!(paths, strings(&["a.md", "dir/b.markdown"]));
    assert_eq!(documents[0].title, "A");
    assert_eq!(documents[0].tags, strings(&["x"]));
    assert_eq!(documents[1].title, "b");
    assert_eq!(documents[1].body, "[[a]] and [[a]]");
    assert_eq!(graph.get_all_note_names(), strings(&["a", "b"]));
    assert_eq!(graph.get_backlinks("a.md"), strings(&["dir/b.markdown"]));
    assert_eq!(graph.get_backlinks("dir/b.markdown"), strings(&["a.md"]));
    assert_eq!(graph.resolve_link("unreadable"), None);
    assert_eq!(graph.resolve_link("image"), None);
}

#[test]
fn full_index_of_nothing() {
    let mut graph = LinkGraph::new();
    assert!(index_vault(&mut graph, &Vec::new()).is_empty());
    assert!(graph.get_all_note_names().is_empty());
}

#[test]
fn reindex_of_a_read_file_indexes_it() {
    let mut graph = LinkGraph::new();
    index_note(&mut graph, "a.md", "[[old]]");
    let document = reindex_file(&mut graph, "a.md", Ok("[[new]] #t".to_string())).unwrap();
    assert_eq!(document.path, "a.md");
    assert_eq!(document.title, "a");
    assert_eq!(document.tags, strings(&["t"]));
    assert!(graph.get_backlinks("old.md").is_empty());
    assert_eq!(graph.get_backlinks("new.md"), strings(&["a.md"]));
}

#[test]
fn reindex_of_an_unread_file_reports_and_changes_nothing() {
    let mut graph = LinkGraph::new();
    index_note(&mut graph, "a.md", "[[old]]");
    let failed = reindex_file(&mut graph, "a.md", Err("permission denied".to_string()));
    assert_eq!(failed.err(), Some("permission denied".to_string()));
    assert_eq!(graph.get_backlinks("old.md"), strings(&["a.md"]));
    let other = reindex_file(&mut graph, "image.png", Ok("[[a]]".to_string()));
    assert!(other.is_ok());
    assert_eq!(graph.get_backlinks("a.md"), strings(&["image.png"]));
}
