//! The link graph of a vault: which note links to which, and under which
//! path each note name is registered.

use crate::graph::{
    all_edges, count_into, edge_less, edges_from, edges_into, fitting, insert_sorted,
    lemma_insert_sorted_at, lemma_insert_sorted_present, lemma_reach_stable, lemma_settled,
    mentioned, paths_linking, sorted_edges, sources_linking, GraphModel,
};
use crate::strings::{
    absorb, absorb_all, absorbed, holds, lemma_absorbed_concat, lemma_absorbed_extends,
    lemma_absorbed_members,
};
use crate::graph_lemmas::lemma_names_fit;
use crate::link::{edge_views, node_views, GraphData, GraphEdge, GraphNode};
use crate::paths::{name_of, note_name};
use crate::table::{keys, Table};
use crate::text::{lemma_lex_irreflexive, less, same, same_str, to_chars, to_string};
use vstd::prelude::*;

verus! {

/// The number of `edges` that point to `id`.
pub fn count_targets(edges: &Vec<GraphEdge>, id: &str) -> (r: usize)
    ensures
        r == count_into(edge_views(edges@), id@),
{
    let n = edges.len();
    let mut count: usize = 0;
    let mut i: usize = 0;
    while i < n
        invariant
            i <= n,
            n == edges.len(),
            count <= i,
            count == count_into(edge_views(edges@).take(i as int), id@),
        decreases n - i,
    {
        proof {
            let head = edge_views(edges@).take(i + 1);
            assert(head.drop_last() =~= edge_views(edges@).take(i as int));
        }
        if same_str(edges[i].target.as_str(), id) {
            count += 1;
        }
        i += 1;
    }
    assert(edge_views(edges@).take(n as int) =~= edge_views(edges@));
    count
}

/// The views of a sequence of edges held as characters.
pub open spec fn pair_views(pairs: Seq<(Vec<char>, Vec<char>)>) -> Seq<(Seq<char>, Seq<char>)> {
    Seq::new(pairs.len(), |i: int| (pairs[i].0@, pairs[i].1@))
}

/// Whether the edge `a` comes before the edge `b`.
pub fn precedes(a: &(Vec<char>, Vec<char>), b: &(Vec<char>, Vec<char>)) -> (r: bool)
    ensures
        r == edge_less((a.0@, a.1@), (b.0@, b.1@)),
{
    less(a.0.as_slice(), b.0.as_slice()) || (same(a.0.as_slice(), b.0.as_slice()) && less(
        a.1.as_slice(),
        b.1.as_slice(),
    ))
}

/// Puts `e` in its place in the sorted `sorted`, unless it is there already.
pub fn insert_edge(sorted: &mut Vec<(Vec<char>, Vec<char>)>, e: (Vec<char>, Vec<char>))
    ensures
        pair_views(final(sorted)@) == insert_sorted(pair_views(old(sorted)@), (e.0@, e.1@)),
{
    let ghost before = pair_views(sorted@);
    let ghost ev = (e.0@, e.1@);
    let mut i: usize = sorted.len();
    loop
        invariant
            i <= sorted.len(),
            pair_views(sorted@) == before,
            ev == (e.0@, e.1@),
            forall|j: int| i <= j < before.len() ==> before[j] != ev && !edge_less(#[trigger] before[j], ev),
        ensures
            i > 0 ==> edge_less(before[i - 1], ev),
        decreases i,
    {
        if i == 0 {
            break ;
        }
        if precedes(&sorted[i - 1], &e) {
            break ;
        }
        if same(sorted[i - 1].0.as_slice(), e.0.as_slice()) && same(
            sorted[i - 1].1.as_slice(),
            e.1.as_slice(),
        ) {
            proof {
                lemma_lex_irreflexive(ev.0);
                lemma_lex_irreflexive(ev.1);
                lemma_insert_sorted_present(before, ev, i - 1);
            }
            return ;
        }
        i -= 1;
    }
    proof {
        lemma_insert_sorted_at(before, ev, i as int);
    }
    sorted.insert(i, e);
}

/// The edges of `edges` in increasing order, each once.
pub fn sort_edges(edges: &Vec<GraphEdge>) -> (r: Vec<GraphEdge>)
    ensures
        edge_views(r@) == sorted_edges(edge_views(edges@)),
{
    let mut sorted: Vec<(Vec<char>, Vec<char>)> = Vec::new();
    let mut i: usize = 0;
    while i < edges.len()
        invariant
            i <= edges.len(),
            pair_views(sorted@) == sorted_edges(edge_views(edges@).take(i as int)),
        decreases edges.len() - i,
    {
        proof {
            let head = edge_views(edges@).take(i + 1);
            assert(head.drop_last() =~= edge_views(edges@).take(i as int));
        }
        let e = (to_chars(edges[i].source.as_str()), to_chars(edges[i].target.as_str()));
        insert_edge(&mut sorted, e);
        i += 1;
    }
    assert(edge_views(edges@).take(edges.len() as int) =~= edge_views(edges@));
    let mut out: Vec<GraphEdge> = Vec::new();
    let mut k: usize = 0;
    while k < sorted.len()
        invariant
            k <= sorted.len(),
            edge_views(out@) == pair_views(sorted@).take(k as int),
        decreases sorted.len() - k,
    {
        let ghost before = edge_views(out@);
        out.push(
            GraphEdge {
                source: to_string(sorted[k].0.as_slice()),
                target: to_string(sorted[k].1.as_slice()),
            },
        );
        assert(edge_views(out@) =~= before.push(pair_views(sorted@)[k as int]));
        k += 1;
    }
    out
}

/// Maintains the bidirectional link graph for the vault.
pub struct LinkGraph {
    /// For each note path, the raw link targets written in the note.
    outgoing: Table<Vec<String>>,
    /// For each note name, the path registered for it.
    name_to_path: Table<String>,
}

impl View for LinkGraph {
    type V = GraphModel;

    closed spec fn view(&self) -> GraphModel {
        GraphModel { outgoing: self.outgoing@, names: self.name_to_path@ }
    }
}

impl LinkGraph {
    /// Every registered name is the name of the path registered for it.
    #[verifier::type_invariant]
    spec fn names_fit(self) -> bool {
        fitting(self.name_to_path@)
    }

    /// A graph without notes.
    pub fn new() -> (r: Self)
        ensures
            r@ == GraphModel::empty(),
            r@.wf(),
    {
        LinkGraph { outgoing: Table::new(), name_to_path: Table::new() }
    }

    /// Lets the caller know that neither table holds a key twice, and that
    /// every registered name is the name of its path.
    pub fn well_formed(&self)
        ensures
            self@.wf(),
    {
        proof {
            use_type_invariant(self);
        }
        let _ = self.outgoing.len();
        let _ = self.name_to_path.len();
    }

    /// Binds the name of the note at `path` to `path`. A path registered
    /// earlier under the same name loses the name.
    pub fn register_note(&mut self, path: &str)
        ensures
            final(self)@ == old(self)@.register_note(path@),
            final(self)@.wf(),
    {
        proof {
            use_type_invariant(&*self);
            lemma_names_fit(self@, path@);
        }
        let name = note_name(path);
        let mut names: Table<String> = Table::new();
        std::mem::swap(&mut names, &mut self.name_to_path);
        names.insert(name, path.to_owned());
        self.name_to_path = names;
        self.well_formed();
    }

    /// Replaces the links of the note at `source_path` by `link_targets`.
    pub fn update_links(&mut self, source_path: &str, link_targets: Vec<String>)
        ensures
            final(self)@ == old(self)@.update_links(source_path@, link_targets.deep_view()),
            final(self)@.wf(),
    {
        proof {
            use_type_invariant(&*self);
        }
        let mut links: Table<Vec<String>> = Table::new();
        std::mem::swap(&mut links, &mut self.outgoing);
        links.insert(source_path.to_owned(), link_targets);
        self.outgoing = links;
        self.well_formed();
    }

    /// Drops the links of the note at `path` and the binding of its name,
    /// whichever path the name is bound to.
    pub fn remove_note(&mut self, path: &str)
        ensures
            final(self)@ == old(self)@.remove_note(path@),
            final(self)@.wf(),
    {
        proof {
            use_type_invariant(&*self);
            lemma_names_fit(self@, path@);
        }
        let name = note_name(path);
        let mut links: Table<Vec<String>> = Table::new();
        std::mem::swap(&mut links, &mut self.outgoing);
        links.remove(path);
        self.outgoing = links;
        let mut names: Table<String> = Table::new();
        std::mem::swap(&mut names, &mut self.name_to_path);
        names.remove(name.as_str());
        self.name_to_path = names;
        self.well_formed();
    }

    /// The paths of the notes that link to the note at `path`, by its name
    /// or by the path itself, in the order in which their links were first
    /// recorded.
    pub fn get_backlinks(&self, path: &str) -> (r: Vec<String>)
        ensures
            r.deep_view() == self@.backlinks(path@),
    {
        let name = note_name(path);
        let mut backlinks: Vec<String> = Vec::new();
        let n = self.outgoing.len();
        let mut i: usize = 0;
        while i < n
            invariant
                i <= n,
                n == self.outgoing@.len(),
                name@ == name_of(path@),
                backlinks.deep_view() == paths_linking(self.outgoing@.take(i as int), name@, path@),
            decreases n - i,
        {
            let targets = self.outgoing.value_at(i);
            let ghost head = self.outgoing@.take(i + 1);
            assert(head.drop_last() == self.outgoing@.take(i as int));
            if holds(targets, name.as_str()) || holds(targets, path) {
                backlinks.push(self.outgoing.key_at(i).clone());
            }
            i += 1;
        }
        assert(self.outgoing@.take(n as int) == self.outgoing@);
        backlinks
    }

    /// The registered note names, in the order of their registration.
    pub fn get_all_note_names(&self) -> (r: Vec<String>)
        ensures
            r.deep_view() == self@.note_names(),
    {
        let mut names: Vec<String> = Vec::new();
        let n = self.name_to_path.len();
        let mut i: usize = 0;
        while i < n
            invariant
                i <= n,
                n == self.name_to_path@.len(),
                names.deep_view() == keys(self.name_to_path@).take(i as int),
            decreases n - i,
        {
            let ghost before = names.deep_view();
            names.push(self.name_to_path.key_at(i).clone());
            assert(names.deep_view() =~= before.push(self.name_to_path@[i as int].0));
            i += 1;
        }
        names
    }

    /// The path registered for the note name `name`; `None` for a name that
    /// no registered note has.
    pub fn resolve_link(&self, name: &str) -> (r: Option<String>)
        ensures
            r is Some <==> self@.resolve_link(name@) is Some,
            r is Some ==> r->0@ == self@.resolve_link(name@)->0,
    {
        match self.name_to_path.get(name) {
            Some(path) => Some(path.clone()),
            None => None,
        }
    }

    /// The path shown for the node `id`.
    fn node_path(&self, id: &str) -> (r: String)
        ensures
            r@ == self@.node_path(id@),
    {
        match self.name_to_path.get(id) {
            Some(path) => path.clone(),
            None => {
                let mut path = id.to_owned();
                path.push('.');
                path.push('m');
                path.push('d');
                path
            },
        }
    }

    /// The nodes `ids` of a graph whose edges, with repetitions, are `edges`.
    fn make_nodes(&self, ids: &Vec<String>, edges: &Vec<GraphEdge>) -> (r: Vec<GraphNode>)
        ensures
            node_views(r@) == self@.nodes(ids.deep_view(), edge_views(edges@)),
    {
        let mut nodes: Vec<GraphNode> = Vec::new();
        let mut i: usize = 0;
        while i < ids.len()
            invariant
                i <= ids.len(),
                node_views(nodes@) == self@.nodes(ids.deep_view(), edge_views(edges@)).take(
                    i as int,
                ),
            decreases ids.len() - i,
        {
            let ghost before = node_views(nodes@);
            let id = ids[i].as_str();
            let node = GraphNode {
                id: id.to_owned(),
                label: id.to_owned(),
                path: self.node_path(id),
                backlink_count: count_targets(edges, id),
            };
            nodes.push(node);
            assert(node_views(nodes@) =~= before.push(self@.node(id@, edge_views(edges@))));
            i += 1;
        }
        nodes
    }

    /// The targets written in the note registered under `name`.
    fn out_targets(&self, name: &str) -> (r: Option<&Vec<String>>)
        ensures
            match r {
                Some(targets) => targets.deep_view() == self@.out_targets(name@),
                None => self@.out_targets(name@) == Seq::<Seq<char>>::empty(),
            },
    {
        match self.name_to_path.get(name) {
            Some(path) => self.outgoing.get(path.as_str()),
            None => None,
        }
    }

    /// The names of the notes that have `name` among their targets.
    fn sources_linking(&self, name: &str) -> (r: Vec<String>)
        ensures
            r.deep_view() == sources_linking(self@.outgoing, name@),
    {
        let mut sources: Vec<String> = Vec::new();
        let n = self.outgoing.len();
        let mut i: usize = 0;
        while i < n
            invariant
                i <= n,
                n == self.outgoing@.len(),
                sources.deep_view() == sources_linking(self.outgoing@.take(i as int), name@),
            decreases n - i,
        {
            let ghost head = self.outgoing@.take(i + 1);
            assert(head.drop_last() == self.outgoing@.take(i as int));
            if holds(self.outgoing.value_at(i), name) {
                sources.push(note_name(self.outgoing.key_at(i).as_str()));
            }
            i += 1;
        }
        assert(self.outgoing@.take(n as int) == self.outgoing@);
        sources
    }

    /// The names one hop away from `name`.
    fn neighbours(&self, name: &str) -> (r: Vec<String>)
        ensures
            r.deep_view() == self@.neighbours(name@),
    {
        let mut out: Vec<String> = match self.out_targets(name) {
            Some(targets) => targets.clone(),
            None => Vec::new(),
        };
        let mut sources = self.sources_linking(name);
        out.append(&mut sources);
        out
    }

    /// `names`, then the names one hop away from any of them that are new.
    /// The neighbours of the first `settled` names are known to be among
    /// `names`, so only the others are looked at.
    fn expand(&self, names: &Vec<String>, settled: usize) -> (r: Vec<String>)
        requires
            settled <= names.len(),
            forall|i: int|
                0 <= i < self@.neighbours_of(names.deep_view().take(settled as int)).len()
                    ==> names.deep_view().contains(
                    #[trigger] self@.neighbours_of(names.deep_view().take(settled as int))[i],
                ),
        ensures
            r.deep_view() == absorbed(names.deep_view(), self@.neighbours_of(names.deep_view())),
    {
        let mut next = names.clone();
        let mut k: usize = settled;
        let ghost all = names.deep_view();
        while k < names.len()
            invariant
                settled <= k <= names.len(),
                all == names.deep_view(),
                next.deep_view() == absorbed(
                    all,
                    self@.neighbours_of(all.subrange(settled as int, k as int)),
                ),
            decreases names.len() - k,
        {
            let near = self.neighbours(names[k].as_str());
            proof {
                let head = all.subrange(settled as int, k + 1);
                assert(head.drop_last() =~= all.subrange(settled as int, k as int));
                lemma_absorbed_concat(
                    all,
                    self@.neighbours_of(all.subrange(settled as int, k as int)),
                    near.deep_view(),
                );
            }
            absorb_all(&mut next, &near);
            k += 1;
        }
        proof {
            lemma_settled(self@, all, settled as int);
        }
        next
    }

    /// The edges at each of the first `count` of `names`, in order and
    /// with repetitions.
    fn gather(&self, names: &Vec<String>, count: usize) -> (r: Vec<GraphEdge>)
        requires
            count <= names.len(),
        ensures
            edge_views(r@) == self@.gathered(names.deep_view().take(count as int)),
    {
        let mut edges: Vec<GraphEdge> = Vec::new();
        let mut k: usize = 0;
        while k < count
            invariant
                k <= count <= names.len(),
                edge_views(edges@) == self@.gathered(names.deep_view().take(k as int)),
            decreases count - k,
        {
            let name = names[k].as_str();
            let ghost done = edge_views(edges@);
            proof {
                let head = names.deep_view().take(k + 1);
                assert(head.drop_last() =~= names.deep_view().take(k as int));
            }
            match self.out_targets(name) {
                Some(targets) => {
                    let mut j: usize = 0;
                    while j < targets.len()
                        invariant
                            j <= targets.len(),
                            targets.deep_view() == self@.out_targets(name@),
                            edge_views(edges@) == done + edges_from(
                                name@,
                                targets.deep_view().take(j as int),
                            ),
                        decreases targets.len() - j,
                    {
                        let ghost so_far = edge_views(edges@);
                        edges.push(GraphEdge { source: name.to_owned(), target: targets[j].clone() });
                        assert(edge_views(edges@) =~= so_far.push(
                            (name@, targets.deep_view()[j as int]),
                        ));
                        j += 1;
                    }
                },
                None => {
                },
            }
            let ghost outward = edge_views(edges@);
            let sources = self.sources_linking(name);
            let mut j: usize = 0;
            while j < sources.len()
                invariant
                    j <= sources.len(),
                    edge_views(edges@) == outward + edges_into(
                        sources.deep_view().take(j as int),
                        name@,
                    ),
                decreases sources.len() - j,
            {
                let ghost so_far = edge_views(edges@);
                edges.push(GraphEdge { source: sources[j].clone(), target: name.to_owned() });
                assert(edge_views(edges@) =~= so_far.push((sources.deep_view()[j as int], name@)));
                j += 1;
            }
            k += 1;
        }
        assert(names.deep_view().take(names.len() as int) =~= names.deep_view());
        edges
    }

    /// The whole graph: a node for every name that a note has or links to,
    /// in the order of first mention, and an edge for every link. A name
    /// without a registered note gets the path made of the name and `.md`.
    pub fn get_graph_data(&self) -> (r: GraphData)
        ensures
            r@ == self@.graph_data(),
    {
        let n = self.outgoing.len();
        let mut edges: Vec<GraphEdge> = Vec::new();
        let mut ids: Vec<String> = Vec::new();
        let mut i: usize = 0;
        while i < n
            invariant
                i <= n,
                n == self.outgoing@.len(),
                edge_views(edges@) == all_edges(self.outgoing@.take(i as int)),
                ids.deep_view() == absorbed(Seq::empty(), mentioned(self.outgoing@.take(i as int))),
            decreases n - i,
        {
            let source_name = note_name(self.outgoing.key_at(i).as_str());
            let targets = self.outgoing.value_at(i);
            let ghost done = edge_views(edges@);
            let ghost seen = mentioned(self.outgoing@.take(i as int));
            proof {
                let head = self.outgoing@.take(i + 1);
                assert(head.drop_last() == self.outgoing@.take(i as int));
                lemma_absorbed_concat(Seq::empty(), seen, seq![source_name@]);
                assert(seen + seq![source_name@] =~= seen.push(source_name@));
            }
            absorb(&mut ids, source_name.as_str());
            let mut j: usize = 0;
            while j < targets.len()
                invariant
                    j <= targets.len(),
                    edge_views(edges@) == done + edges_from(
                        source_name@,
                        targets.deep_view().take(j as int),
                    ),
                    ids.deep_view() == absorbed(
                        Seq::empty(),
                        seen.push(source_name@) + targets.deep_view().take(j as int),
                    ),
                decreases targets.len() - j,
            {
                let ghost so_far = edge_views(edges@);
                proof {
                    let names = seen.push(source_name@) + targets.deep_view().take(j as int);
                    lemma_absorbed_concat(Seq::empty(), names, seq![targets@[j as int]@]);
                    assert(names + seq![targets@[j as int]@] =~= seen.push(source_name@)
                        + targets.deep_view().take(j + 1));
                }
                edges.push(GraphEdge { source: source_name.clone(), target: targets[j].clone() });
                absorb(&mut ids, targets[j].as_str());
                assert(edge_views(edges@) =~= so_far.push(
                    (source_name@, targets.deep_view()[j as int]),
                ));
                j += 1;
            }
            assert(targets.deep_view().take(targets.len() as int) =~= targets.deep_view());
            i += 1;
        }
        assert(self.outgoing@.take(n as int) == self.outgoing@);
        let nodes = self.make_nodes(&ids, &edges);
        GraphData { nodes, edges }
    }

    /// The neighbourhood of the note at `path`: a node for every name within
    /// `depth` hops of the note's name, following links in either direction,
    /// and an edge for every link that was followed to reach them, sorted by
    /// source and target and each once. At depth zero that is the centre
    /// alone, without edges. The nodes come in the order of discovery, the
    /// centre first.
    pub fn get_local_graph(&self, path: &str, depth: usize) -> (r: GraphData)
        ensures
            r@ == self@.local_graph(path@, depth as nat),
    {
        let center = note_name(path);
        let mut visited: Vec<String> = Vec::new();
        visited.push(center);
        let mut level: usize = 0;
        let mut settled: usize = 0;
        let mut stable = false;
        while level < depth && !stable
            invariant
                level <= depth,
                settled <= visited.len(),
                visited.deep_view() == self@.reach(name_of(path@), level as nat),
                forall|i: int|
                    0 <= i < self@.neighbours_of(visited.deep_view().take(settled as int)).len()
                        ==> visited.deep_view().contains(
                        #[trigger] self@.neighbours_of(
                            visited.deep_view().take(settled as int),
                        )[i],
                    ),
                !stable ==> visited.deep_view().take(settled as int) == self@.expanded(
                    name_of(path@),
                    level as nat,
                ),
                stable ==> self@.reach(name_of(path@), depth as nat) == visited.deep_view()
                    && self@.expanded(name_of(path@), depth as nat) == visited.deep_view(),
            decreases depth - level, if stable { 0int } else { 1int },
        {
            let next = self.expand(&visited, settled);
            proof {
                let known = visited.deep_view();
                let near = self@.neighbours_of(known);
                lemma_absorbed_extends(known, near);
                lemma_absorbed_members(known, near);
                assert forall|i: int| 0 <= i < near.len() implies next.deep_view().contains(
                    #[trigger] near[i],
                ) by {
                    assert(near.contains(near[i]));
                }
            }
            if next.len() == visited.len() {
                proof {
                    lemma_reach_stable(self@, name_of(path@), level as nat, depth as nat);
                    lemma_reach_stable(self@, name_of(path@), level as nat, (depth - 1) as nat);
                }
                stable = true;
            } else {
                settled = visited.len();
                visited = next;
                level += 1;
            }
        }
        let followed = if stable {
            visited.len()
        } else {
            settled
        };
        assert(visited.deep_view().take(visited.len() as int) =~= visited.deep_view());
        let gathered = self.gather(&visited, followed);
        let nodes = self.make_nodes(&visited, &gathered);
        let edges = sort_edges(&gathered);
        GraphData { nodes, edges }
    }
}

} // verus!
