use gitsidian::files::{arrange, show, tree_node, Listed, TreeEntry};
use gitsidian::note::FileTreeNode;
use gitsidian::vault::{
    depth_or_default, initial_content, to_forward_slashes, vault_config, DEFAULT_DEPTH,
};
use gitsidian::watcher::{change_event, is_watched, ChangeKind};
use std::path::Path;

fn strings(items: &[&str]) -> Vec<String> {
    items.iter().map(|s| s.to_string()).collect()
}

#[test]
fn vault_is_named_after_its_directory() {
    for path in ["/home/me/notes", "notes", "/home/me/notes/", "/", "", "a/..", "C:/x/Vault One"] {
        let config = vault_config(path, true);
        let expected = Path::new(path).file_name().unwrap_or_default().to_string_lossy().to_string();
        assert_eq!(config.name, expected, "name of {:?}", path);
        assert_eq!(config.path, path);
        assert!(config.is_git_repo);
    }
    assert!(!vault_config("x", false).is_git_repo);
    assert_eq!(vault_config("/home/me/notes", false).name, "notes");
}

#[test]
fn default_depth_is_two() {
    assert_eq!(DEFAULT_DEPTH, 2);
    assert_eq!(depth_or_default(None), 2);
    assert_eq!(depth_or_default(Some(0)), 0);
    assert_eq!(depth_or_default(Some(7)), 7);
}

#[test]
fn backslashes_become_slashes() {
    for s in ["", "a/b", "a\\b\\c.md", "\\", "mixed/a\\b", "日\\本"] {
        assert_eq!(to_forward_slashes(s), s.replace('\\', "/"));
    }
    assert_eq!(to_forward_slashes("dir\\note.md"), "dir/note.md");
}

#[test]
fn new_note_begins_with_its_name() {
    assert_eq!(initial_content("ideas/Big Plan.md"), "# Big Plan\n\n");
    assert_eq!(initial_content("x"), "# x\n\n");
    assert_eq!(initial_content(""), "# \n\n");
}

#[test]
fn watched_paths_are_notes_outside_version_control() {
    assert!(is_watched("a.md"));
    assert!(is_watched("dir/b.markdown"));
    assert!(is_watched("dir/.git/c.md"));
    assert!(!is_watched(".git/c.md"));
    assert!(!is_watched(".gitignore.md"));
    assert!(!is_watched("a.txt"));
    assert!(!is_watched("a.md.bak"));
    assert!(!is_watched(""));
    assert!(is_watched(".md"));
}

#[test]
fn change_events() {
    let paths = strings(&["a.md", "b.txt", "dir\\c.markdown", ".git/d.md"]);
    let event = change_event(ChangeKind::Create, &paths).unwrap();
    assert_eq!(event.kind, "create");
    assert_eq!(event.paths, strings(&["a.md", "dir/c.markdown"]));
    assert_eq!(change_event(ChangeKind::Modify, &paths).unwrap().kind, "modify");
    assert_eq!(change_event(ChangeKind::Remove, &paths).unwrap().kind, "remove");
    assert!(change_event(ChangeKind::Other, &paths).is_none());
    assert!(change_event(ChangeKind::Create, &strings(&["b.txt", ".git/x.md"])).is_none());
    assert!(change_event(ChangeKind::Create, &Vec::new()).is_none());
}

fn listed(name: &str, is_dir: bool) -> Listed {
    Listed { name: name.to_string(), is_dir }
}

fn names(entries: &Vec<TreeEntry>) -> Vec<(String, bool, String)> {
    entries.iter().map(|e| (e.name.clone(), e.is_dir, e.extension.clone())).collect()
}

#[test]
fn directories_come_first_then_names_in_order() {
    let entries = vec![
        listed("zeta.md", false),
        listed("beta", true),
        listed("alpha.txt", false),
        listed("Alpha.markdown", false),
        listed("alpha", true),
        listed("image.png", false),
        listed(".hidden", true),
        listed(".secret.md", false),
        listed("node_modules", true),
        listed("target", true),
        listed("target", false),
        listed("README", false),
        listed("notes.md.bak", false),
    ];
    assert_eq!(
        names(&arrange(&entries)),
        vec![
            ("alpha".to_string(), true, "".to_string()),
            ("beta".to_string(), true, "".to_string()),
            ("Alpha.markdown".to_string(), false, "markdown".to_string()),
            ("alpha.txt".to_string(), false, "txt".to_string()),
            ("zeta.md".to_string(), false, "md".to_string()),
        ]
    );
    assert!(arrange(&Vec::new()).is_empty());
}

#[test]
fn arrangement_agrees_with_a_stable_sort() {
    let pool = ["b.md", "a.md", "c", "a", "é.md", "Z.txt", "z.txt", "a.md", "dir.md", "10.md", "9.md"];
    let mut state: u64 = 12345;
    for _ in 0..300 {
        let mut entries: Vec<Listed> = Vec::new();
        state = state.wrapping_mul(6364136223846793005).wrapping_add(1442695040888963407);
        let len = (state >> 60) as usize;
        for _ in 0..len {
            state = state.wrapping_mul(6364136223846793005).wrapping_add(1442695040888963407);
            let name = pool[((state >> 33) as usize) % pool.len()];
            let is_dir = (state >> 20) & 1 == 1;
            entries.push(listed(name, is_dir));
        }
        let mut expected: Vec<(String, bool)> =
            entries.iter().map(|e| (e.name.clone(), e.is_dir)).collect();
        expected.sort_by(|a, b| match (a.1, b.1) {
            (true, false) => std::cmp::Ordering::Less,
            (false, true) => std::cmp::Ordering::Greater,
            _ => a.0.cmp(&b.0),
        });
        let expected: Vec<(String, bool)> = expected
            .into_iter()
            .filter(|(name, is_dir)| {
                let ext = Path::new(name).extension().unwrap_or_default().to_string_lossy().to_string();
                *is_dir || ext == "md" || ext == "markdown" || ext == "txt"
            })
            .collect();
        let got: Vec<(String, bool)> =
            arrange(&entries).into_iter().map(|e| (e.name, e.is_dir)).collect();
        assert_eq!(got, expected);
    }
}

#[test]
fn showing_one_entry() {
    let name: Vec<char> = "note.md".chars().collect();
    let entry = show(&name, false).unwrap();
    assert_eq!((entry.name.as_str(), entry.is_dir, entry.extension.as_str()), ("note.md", false, "md"));
    let entry = show(&name, true).unwrap();
    assert_eq!((entry.name.as_str(), entry.is_dir, entry.extension.as_str()), ("note.md", true, ""));
    let hidden: Vec<char> = ".git".chars().collect();
    assert!(show(&hidden, true).is_none());
    let other: Vec<char> = "archive.zip".chars().collect();
    assert!(show(&other, false).is_none());
}

#[test]
fn tree_nodes() {
    let folder = TreeEntry { name: "dir".to_string(), is_dir: true, extension: String::new() };
    let file = TreeEntry { name: "a.md".to_string(), is_dir: false, extension: "md".to_string() };
    let leaf = tree_node(file, "dir/a.md".to_string(), Vec::new());
    match &leaf {
        FileTreeNode::File { name, path, extension } => {
            assert_eq!(name, "a.md");
            assert_eq!(path, "dir/a.md");
            assert_eq!(extension, "md");
        }
        FileTreeNode::Folder { .. } => panic!("a file is no folder"),
    }
    match tree_node(folder, "dir".to_string(), vec![leaf]) {
        FileTreeNode::Folder { name, path, children } => {
            assert_eq!(name, "dir");
            assert_eq!(path, "dir");
            assert_eq!(children.len(), 1);
        }
        FileTreeNode::File { .. } => panic!("a folder is no file"),
    }
}
