use gitsidian::link::GraphData;
use gitsidian::linker::LinkGraph;

fn strings(items: &[&str]) -> Vec<String> {
    items.iter().map(|s| s.to_string()).collect()
}

fn ids(data: &GraphData) -> Vec<String> {
    data.nodes.iter().map(|n| n.id.clone()).collect()
}

fn edges(data: &GraphData) -> Vec<(String, String)> {
    data.edges.iter().map(|e| (e.source.clone(), e.target.clone())).collect()
}

fn pairs(items: &[(&str, &str)]) -> Vec<(String, String)> {
    items.iter().map(|(a, b)| (a.to_string(), b.to_string())).collect()
}

#[test]
fn backlinks_scenario() {
    let mut graph = LinkGraph::new();
    graph.register_note("a.md");
    graph.register_note("b.md");
    graph.update_links("a.md", strings(&["b"]));
    assert_eq!(graph.get_backlinks("b.md"), strings(&["a.md"]));
    assert!(graph.get_backlinks("a.md").is_empty());
}

#[test]
fn backlinks_of_unknown_note_are_empty() {
    let graph = LinkGraph::new();
    assert!(graph.get_backlinks("nowhere.md").is_empty());
}

#[test]
fn backlinks_by_name_or_by_path_in_recording_order() {
    let mut graph = LinkGraph::new();
    graph.update_links("z.md", strings(&["dir/b.md"]));
    graph.update_links("dir/c.md", strings(&["x", "b", "b"]));
    graph.update_links("a.md", strings(&["B"]));
    graph.update_links("y.md", strings(&["b"]));
    assert_eq!(graph.get_backlinks("dir/b.md"), strings(&["z.md", "dir/c.md", "y.md"]));
}

#[test]
fn update_links_replaces() {
    let mut graph = LinkGraph::new();
    graph.update_links("a.md", strings(&["b", "c"]));
    graph.update_links("a.md", strings(&["d"]));
    assert!(graph.get_backlinks("b.md").is_empty());
    assert_eq!(graph.get_backlinks("d.md"), strings(&["a.md"]));
    assert_eq!(edges(&graph.get_graph_data()), pairs(&[("a", "d")]));
}

#[test]
fn update_links_twice_changes_nothing() {
    let mut graph = LinkGraph::new();
    graph.register_note("a.md");
    graph.update_links("b.md", strings(&["a"]));
    graph.update_links("a.md", strings(&["b", "c", "b"]));
    let once = graph.get_graph_data();
    graph.update_links("a.md", strings(&["b", "c", "b"]));
    let twice = graph.get_graph_data();
    assert_eq!(edges(&once), edges(&twice));
    assert_eq!(ids(&once), ids(&twice));
}

#[test]
fn names_resolve_to_last_registered_path() {
    let mut graph = LinkGraph::new();
    graph.register_note("one/note.md");
    graph.register_note("other.md");
    graph.register_note("two/note.md");
    assert_eq!(graph.resolve_link("note"), Some("two/note.md".to_string()));
    assert_eq!(graph.resolve_link("other"), Some("other.md".to_string()));
    assert_eq!(graph.resolve_link("missing"), None);
    assert_eq!(graph.get_all_note_names(), strings(&["note", "other"]));
}

#[test]
fn register_twice_is_register_once() {
    let mut graph = LinkGraph::new();
    graph.register_note("a.md");
    graph.register_note("a.md");
    assert_eq!(graph.get_all_note_names(), strings(&["a"]));
    assert_eq!(graph.resolve_link("a"), Some("a.md".to_string()));
}

#[test]
fn remove_note_drops_links_and_name() {
    let mut graph = LinkGraph::new();
    graph.register_note("a.md");
    graph.register_note("b.md");
    graph.update_links("a.md", strings(&["b"]));
    graph.update_links("b.md", strings(&["a"]));
    graph.remove_note("a.md");
    assert_eq!(graph.resolve_link("a"), None);
    assert!(graph.get_backlinks("b.md").is_empty());
    assert_eq!(graph.get_backlinks("a.md"), strings(&["b.md"]));
    assert_eq!(graph.get_all_note_names(), strings(&["b"]));
}

#[test]
fn remove_note_drops_a_name_bound_to_another_path() {
    let mut graph = LinkGraph::new();
    graph.register_note("x/n.md");
    graph.register_note("y/n.md");
    graph.remove_note("x/n.md");
    assert_eq!(graph.resolve_link("n"), None);
}

#[test]
fn remove_then_add_is_a_fresh_note() {
    let mut graph = LinkGraph::new();
    graph.register_note("a.md");
    graph.register_note("b.md");
    graph.update_links("a.md", strings(&["b", "c"]));
    graph.update_links("b.md", strings(&["a"]));
    graph.remove_note("a.md");
    graph.register_note("a.md");
    graph.update_links("a.md", Vec::new());

    let mut fresh = LinkGraph::new();
    fresh.register_note("b.md");
    fresh.update_links("b.md", strings(&["a"]));
    fresh.register_note("a.md");
    fresh.update_links("a.md", Vec::new());

    assert_eq!(graph.resolve_link("a"), Some("a.md".to_string()));
    assert_eq!(graph.get_all_note_names(), fresh.get_all_note_names());
    assert_eq!(edges(&graph.get_graph_data()), edges(&fresh.get_graph_data()));
    assert_eq!(ids(&graph.get_graph_data()), ids(&fresh.get_graph_data()));
    assert!(graph.get_backlinks("b.md").is_empty());
    assert!(graph.get_backlinks("c.md").is_empty());
    assert_eq!(graph.get_backlinks("a.md"), strings(&["b.md"]));
}

#[test]
fn graph_data_of_empty_graph() {
    let graph = LinkGraph::new();
    let data = graph.get_graph_data();
    assert!(data.nodes.is_empty());
    assert!(data.edges.is_empty());
}

#[test]
fn graph_data_lists_nodes_edges_paths_and_counts() {
    let mut graph = LinkGraph::new();
    graph.register_note("notes/a.md");
    graph.register_note("b.md");
    graph.update_links("notes/a.md", strings(&["b", "ghost", "b"]));
    graph.update_links("b.md", strings(&["a"]));
    graph.update_links("c.md", strings(&[]));
    let data = graph.get_graph_data();
    assert_eq!(ids(&data), strings(&["a", "b", "ghost", "c"]));
    assert_eq!(
        edges(&data),
        pairs(&[("a", "b"), ("a", "ghost"), ("a", "b"), ("b", "a")])
    );
    let paths: Vec<String> = data.nodes.iter().map(|n| n.path.clone()).collect();
    assert_eq!(paths, strings(&["notes/a.md", "b.md", "ghost.md", "c.md"]));
    let counts: Vec<usize> = data.nodes.iter().map(|n| n.backlink_count).collect();
    assert_eq!(counts, vec![1, 2, 1, 0]);
    for node in &data.nodes {
        assert_eq!(node.id, node.label);
    }
}

fn chain() -> LinkGraph {
    let mut graph = LinkGraph::new();
    for name in ["a", "b", "c", "d", "e"] {
        graph.register_note(&format!("{}.md", name));
    }
    graph.update_links("a.md", strings(&["b"]));
    graph.update_links("b.md", strings(&["c"]));
    graph.update_links("c.md", strings(&["d"]));
    graph.update_links("d.md", strings(&["e"]));
    graph.update_links("e.md", strings(&[]));
    graph
}

#[test]
fn local_graph_at_depth_zero_has_only_the_center() {
    let mut graph = LinkGraph::new();
    graph.register_note("alone.md");
    graph.update_links("alone.md", Vec::new());
    graph.update_links("other.md", strings(&["else"]));
    let data = graph.get_local_graph("alone.md", 0);
    assert_eq!(ids(&data), strings(&["alone"]));
    assert!(data.edges.is_empty());
    assert_eq!(data.nodes[0].path, "alone.md");
    assert_eq!(data.nodes[0].backlink_count, 0);
}

#[test]
fn local_graph_at_depth_zero_has_no_edges_though_the_center_has_links() {
    let graph = chain();
    let data = graph.get_local_graph("c.md", 0);
    assert_eq!(ids(&data), strings(&["c"]));
    assert!(data.edges.is_empty());
    assert_eq!(data.nodes[0].backlink_count, 0);
    assert_eq!(data.nodes[0].path, "c.md");
}

#[test]
fn local_graph_at_depth_zero_of_a_linking_note() {
    let mut graph = LinkGraph::new();
    graph.register_note("a.md");
    graph.register_note("b.md");
    graph.update_links("a.md", vec!["b".to_string()]);
    let data = graph.get_local_graph("a.md", 0);
    assert!(data.edges.is_empty());
    assert_eq!(ids(&data), strings(&["a"]));
    let one = graph.get_local_graph("a.md", 1);
    assert_eq!(ids(&one), strings(&["a", "b"]));
    assert_eq!(edges(&one), pairs(&[("a", "b")]));
}

#[test]
fn local_graph_of_unknown_note() {
    let graph = chain();
    let data = graph.get_local_graph("nobody.md", 3);
    assert_eq!(ids(&data), strings(&["nobody"]));
    assert!(data.edges.is_empty());
    assert_eq!(data.nodes[0].path, "nobody.md");
}

#[test]
fn local_graph_follows_links_both_ways() {
    let graph = chain();
    let one = graph.get_local_graph("c.md", 1);
    assert_eq!(ids(&one), strings(&["c", "d", "b"]));
    assert_eq!(edges(&one), pairs(&[("b", "c"), ("c", "d")]));
    let counts: Vec<usize> = one.nodes.iter().map(|n| n.backlink_count).collect();
    assert_eq!(counts, vec![1, 1, 0]);
    let two = graph.get_local_graph("c.md", 2);
    assert_eq!(ids(&two), strings(&["c", "d", "b", "e", "a"]));
    assert_eq!(edges(&two), pairs(&[("a", "b"), ("b", "c"), ("c", "d"), ("d", "e")]));
    let far = graph.get_local_graph("c.md", 1000000);
    assert_eq!(ids(&far), ids(&two));
    assert_eq!(edges(&far), edges(&two));
    for data in [&one, &two, &far] {
        let names = ids(data);
        for (source, target) in edges(data) {
            assert!(names.contains(&source) && names.contains(&target));
        }
    }
}

#[test]
fn local_graph_never_shrinks_with_depth() {
    let mut graph = LinkGraph::new();
    for name in ["c", "p", "q", "m", "x"] {
        graph.register_note(&format!("{}.md", name));
    }
    graph.update_links("c.md", strings(&["m", "p"]));
    graph.update_links("p.md", strings(&["q"]));
    graph.update_links("q.md", strings(&["m"]));
    graph.update_links("m.md", strings(&["x"]));
    let mut previous: Vec<String> = Vec::new();
    for depth in 0..6 {
        let now = ids(&graph.get_local_graph("c.md", depth));
        for id in &previous {
            assert!(now.contains(id), "{} lost at depth {}", id, depth);
        }
        previous = now;
    }
    assert_eq!(ids(&graph.get_local_graph("c.md", 2)), strings(&["c", "m", "p", "x", "q"]));
    assert_eq!(ids(&graph.get_local_graph("c.md", 3)), strings(&["c", "m", "p", "x", "q"]));
}

#[test]
fn local_graph_counts_gathered_edges_and_sorts_edges_once() {
    let mut graph = LinkGraph::new();
    graph.register_note("a.md");
    graph.register_note("b.md");
    graph.update_links("a.md", strings(&["b", "b", "zeta", "Alpha"]));
    graph.update_links("b.md", strings(&["a"]));
    let data = graph.get_local_graph("a.md", 1);
    assert_eq!(ids(&data), strings(&["a", "b", "zeta", "Alpha"]));
    assert_eq!(
        edges(&data),
        pairs(&[("a", "Alpha"), ("a", "b"), ("a", "zeta"), ("b", "a")])
    );
    let counts: Vec<usize> = data.nodes.iter().map(|n| n.backlink_count).collect();
    assert_eq!(counts, vec![1, 2, 1, 1]);
    let wider = graph.get_local_graph("a.md", 2);
    assert_eq!(ids(&wider), ids(&data));
    assert_eq!(edges(&wider), edges(&data));
    let counts: Vec<usize> = wider.nodes.iter().map(|n| n.backlink_count).collect();
    assert_eq!(counts, vec![2, 3, 2, 2]);
    let paths: Vec<String> = data.nodes.iter().map(|n| n.path.clone()).collect();
    assert_eq!(paths, strings(&["a.md", "b.md", "zeta.md", "Alpha.md"]));
}

#[test]
fn local_graph_edges_sort_by_code_point() {
    let mut graph = LinkGraph::new();
    graph.register_note("n.md");
    graph.update_links("n.md", strings(&["é", "z", "a", "Z", "", "ab", "日"]));
    let data = graph.get_local_graph("n.md", 1);
    let mut expected = pairs(&[
        ("n", "é"),
        ("n", "z"),
        ("n", "a"),
        ("n", "Z"),
        ("n", ""),
        ("n", "ab"),
        ("n", "日"),
    ]);
    expected.sort();
    assert_eq!(edges(&data), expected);
}

#[test]
fn local_graph_uses_the_registered_path_of_a_shared_name() {
    let mut graph = LinkGraph::new();
    graph.register_note("x/n.md");
    graph.register_note("y/n.md");
    graph.update_links("x/n.md", strings(&["from-x"]));
    graph.update_links("y/n.md", strings(&["from-y"]));
    graph.update_links("z.md", strings(&["n"]));
    let data = graph.get_local_graph("x/n.md", 1);
    assert_eq!(ids(&data), strings(&["n", "from-y", "z"]));
    assert_eq!(data.nodes[0].path, "y/n.md");
    assert_eq!(edges(&data), pairs(&[("n", "from-y"), ("z", "n")]));
    let other = graph.get_local_graph("from-x.md", 1);
    assert_eq!(ids(&other), strings(&["from-x", "n"]));
    assert_eq!(edges(&other), pairs(&[("n", "from-x")]));
    let wider = graph.get_local_graph("from-x.md", 2);
    assert_eq!(ids(&wider), strings(&["from-x", "n", "from-y", "z"]));
    assert_eq!(
        edges(&wider),
        pairs(&[("n", "from-x"), ("n", "from-y"), ("z", "n")])
    );
    let alone = graph.get_local_graph("from-x.md", 0);
    assert!(alone.edges.is_empty());
}

struct PlainGraph {
    outgoing: Vec<(String, Vec<String>)>,
    names: Vec<(String, String)>,
}

fn stem(path: &str) -> String {
    std::path::Path::new(path).file_stem().unwrap_or_default().to_string_lossy().to_string()
}

impl PlainGraph {
    fn new() -> Self {
        PlainGraph { outgoing: Vec::new(), names: Vec::new() }
    }

    fn register(&mut self, path: &str) {
        let name = stem(path);
        match self.names.iter_mut().find(|(n, _)| *n == name) {
            Some(entry) => entry.1 = path.to_string(),
            None => self.names.push((name, path.to_string())),
        }
    }

    fn update(&mut self, path: &str, targets: Vec<String>) {
        match self.outgoing.iter_mut().find(|(p, _)| p == path) {
            Some(entry) => entry.1 = targets,
            None => self.outgoing.push((path.to_string(), targets)),
        }
    }

    fn remove(&mut self, path: &str) {
        self.outgoing.retain(|(p, _)| p != path);
        let name = stem(path);
        self.names.retain(|(n, _)| *n != name);
    }

    fn resolve(&self, name: &str) -> Option<String> {
        self.names.iter().find(|(n, _)| n == name).map(|(_, p)| p.clone())
    }

    fn backlinks(&self, path: &str) -> Vec<String> {
        let name = stem(path);
        self.outgoing
            .iter()
            .filter(|(_, targets)| targets.iter().any(|t| *t == name || t == path))
            .map(|(p, _)| p.clone())
            .collect()
    }

    fn edges(&self) -> Vec<(String, String)> {
        let mut edges = Vec::new();
        for (path, targets) in &self.outgoing {
            for target in targets {
                edges.push((stem(path), target.clone()));
            }
        }
        edges
    }

    fn neighbours(&self, name: &str) -> Vec<String> {
        let mut near = Vec::new();
        if let Some(path) = self.resolve(name) {
            if let Some((_, targets)) = self.outgoing.iter().find(|(p, _)| *p == path) {
                near.extend(targets.iter().cloned());
            }
        }
        for (path, targets) in &self.outgoing {
            if targets.iter().any(|t| t == name) {
                near.push(stem(path));
            }
        }
        near
    }

    fn ball(&self, center: &str, depth: usize) -> std::collections::BTreeSet<String> {
        let mut ball = std::collections::BTreeSet::new();
        ball.insert(center.to_string());
        for _ in 0..depth {
            let mut next = ball.clone();
            for name in &ball {
                next.extend(self.neighbours(name));
            }
            if next.len() == ball.len() {
                break;
            }
            ball = next;
        }
        ball
    }

    fn local_edges(&self, ball: &std::collections::BTreeSet<String>) -> Vec<(String, String)> {
        let mut gathered = Vec::new();
        for name in ball {
            if let Some(path) = self.resolve(name) {
                if let Some((_, targets)) = self.outgoing.iter().find(|(p, _)| *p == path) {
                    for target in targets {
                        gathered.push((name.clone(), target.clone()));
                    }
                }
            }
            for (path, targets) in &self.outgoing {
                if targets.iter().any(|t| t == name) {
                    gathered.push((stem(path), name.clone()));
                }
            }
        }
        gathered
    }
}

#[test]
fn graph_agrees_with_a_plain_model_on_generated_histories() {
    let paths = ["a.md", "b.md", "dir/a.md", "dir/c.markdown", "d", "e.txt", "x/y/z.md"];
    let targets = ["a", "b", "c", "d", "e", "z", "a.md", "dir/a.md", "ghost", ""];
    let mut state: u64 = 0xDEADBEEF;
    let mut next = move |bound: usize| -> usize {
        state = state.wrapping_mul(6364136223846793005).wrapping_add(1442695040888963407);
        ((state >> 33) as usize) % bound
    };
    for _ in 0..200 {
        let mut graph = LinkGraph::new();
        let mut model = PlainGraph::new();
        let steps = next(12) + 1;
        for _ in 0..steps {
            let path = paths[next(paths.len())];
            match next(4) {
                0 => {
                    graph.register_note(path);
                    model.register(path);
                }
                1 | 2 => {
                    let count = next(4);
                    let links: Vec<String> =
                        (0..count).map(|_| targets[next(targets.len())].to_string()).collect();
                    graph.update_links(path, links.clone());
                    model.update(path, links);
                }
                _ => {
                    graph.remove_note(path);
                    model.remove(path);
                }
            }
        }
        let names: Vec<String> = model.names.iter().map(|(n, _)| n.clone()).collect();
        assert_eq!(graph.get_all_note_names(), names);
        for path in paths {
            assert_eq!(graph.get_backlinks(path), model.backlinks(path));
            assert_eq!(graph.resolve_link(&stem(path)), model.resolve(&stem(path)));
        }
        let data = graph.get_graph_data();
        let all = model.edges();
        assert_eq!(edges(&data), all);
        for node in &data.nodes {
            assert_eq!(node.backlink_count, all.iter().filter(|e| e.1 == node.id).count());
            let expected = model.resolve(&node.id).unwrap_or(format!("{}.md", node.id));
            assert_eq!(node.path, expected);
        }
        let mut mentioned: Vec<String> = Vec::new();
        for (path, links) in &model.outgoing {
            for name in std::iter::once(stem(path)).chain(links.iter().cloned()) {
                if !mentioned.contains(&name) {
                    mentioned.push(name);
                }
            }
        }
        assert_eq!(ids(&data), mentioned);
        for depth in 0..4 {
            let center = paths[next(paths.len())];
            let local = graph.get_local_graph(center, depth);
            let ball = model.ball(&stem(center), depth);
            let mut got = ids(&local);
            assert_eq!(got[0], stem(center));
            got.sort();
            assert_eq!(got, ball.iter().cloned().collect::<Vec<String>>());
            let followed = if depth == 0 {
                std::collections::BTreeSet::new()
            } else {
                model.ball(&stem(center), depth - 1)
            };
            let gathered = model.local_edges(&followed);
            let mut expected = gathered.clone();
            expected.sort();
            expected.dedup();
            assert_eq!(edges(&local), expected);
            for edge in edges(&local) {
                assert!(all.contains(&edge), "{:?} is no link of the graph", edge);
                assert!(ball.contains(&edge.0) && ball.contains(&edge.1));
            }
            for node in &local.nodes {
                assert_eq!(node.backlink_count, gathered.iter().filter(|e| e.1 == node.id).count());
            }
        }
    }
}

#[test]
fn a_vault_of_some_hundred_notes() {
    let mut graph = LinkGraph::new();
    let count = 400;
    for i in 0..count {
        let path = format!("notes/n{}.md", i);
        graph.register_note(&path);
        let links: Vec<String> =
            (1..=5).map(|k| format!("n{}", (i * 7 + k * 13) % count)).collect();
        graph.update_links(&path, links);
    }
    let data = graph.get_graph_data();
    assert_eq!(data.nodes.len(), count);
    assert_eq!(data.edges.len(), 5 * count);
    let total: usize = data.nodes.iter().map(|n| n.backlink_count).sum();
    assert_eq!(total, 5 * count);
    let near = graph.get_local_graph("notes/n0.md", 1);
    assert_eq!(near.nodes[0].id, "n0");
    assert_eq!(near.nodes.len(), 11);
    let all = graph.get_local_graph("notes/n0.md", count);
    assert_eq!(all.nodes.len(), count);
    assert_eq!(all.edges.len(), 5 * count);
    assert_eq!(graph.get_backlinks("notes/n13.md").len(), 5);
}
