//! The mathematical model of the link graph.
//!
//! A graph is two insertion-ordered tables: the link targets written in each
//! note, keyed by the note's path, and the path registered for each note
//! name. Every operation of the engine is a function on this model, and the
//! executable `LinkGraph` is specified by it.

use crate::link::{GraphView, NodeView};
use crate::paths::name_of;
use crate::strings::{absorbed, lemma_absorbed_concat, lemma_absorbed_known};
use crate::table::{distinct_keys, inserted, keys, lookup, removed};
use crate::text::lex_less;
use vstd::prelude::*;

verus! {

/// Whether every key of `names` is the name of the path stored under it.
pub open spec fn fitting(names: Seq<(Seq<char>, Seq<char>)>) -> bool {
    forall|i: int| 0 <= i < names.len() ==> (#[trigger] names[i]).0 == name_of(names[i].1)
}

/// The state of a link graph.
pub struct GraphModel {
    /// For each note path, the raw link targets written in the note.
    pub outgoing: Seq<(Seq<char>, Seq<Seq<char>>)>,
    /// For each note name, the path registered for it.
    pub names: Seq<(Seq<char>, Seq<char>)>,
}

/// What is appended to a name to make up the path of a note that is not
/// registered.
pub open spec fn note_suffix() -> Seq<char> {
    seq!['.', 'm', 'd']
}

/// One edge from `source` to each of `targets`, in order.
pub open spec fn edges_from(source: Seq<char>, targets: Seq<Seq<char>>) -> Seq<
    (Seq<char>, Seq<char>),
> {
    Seq::new(targets.len(), |i: int| (source, targets[i]))
}

/// One edge from each of `sources` to `target`, in order.
pub open spec fn edges_into(sources: Seq<Seq<char>>, target: Seq<char>) -> Seq<
    (Seq<char>, Seq<char>),
> {
    Seq::new(sources.len(), |i: int| (sources[i], target))
}

/// Every link of `entries` as an edge from the name of its note to its raw
/// target, note by note and in the order written.
pub open spec fn all_edges(entries: Seq<(Seq<char>, Seq<Seq<char>>)>) -> Seq<
    (Seq<char>, Seq<char>),
>
    decreases entries.len(),
{
    if entries.len() == 0 {
        Seq::empty()
    } else {
        all_edges(entries.drop_last()) + edges_from(
            name_of(entries.last().0),
            entries.last().1,
        )
    }
}

/// Every name that `entries` mentions: for each note its own name, then its
/// targets, with repetitions.
pub open spec fn mentioned(entries: Seq<(Seq<char>, Seq<Seq<char>>)>) -> Seq<Seq<char>>
    decreases entries.len(),
{
    if entries.len() == 0 {
        Seq::empty()
    } else {
        mentioned(entries.drop_last()).push(name_of(entries.last().0)) + entries.last().1
    }
}

/// The number of `edges` that point to `id`.
pub open spec fn count_into(edges: Seq<(Seq<char>, Seq<char>)>, id: Seq<char>) -> nat
    decreases edges.len(),
{
    if edges.len() == 0 {
        0
    } else {
        count_into(edges.drop_last(), id) + if edges.last().1 == id {
            1nat
        } else {
            0nat
        }
    }
}

/// The names of the notes of `entries` that have `name` among their targets,
/// in table order.
pub open spec fn sources_linking(entries: Seq<(Seq<char>, Seq<Seq<char>>)>, name: Seq<char>) -> Seq<
    Seq<char>,
>
    decreases entries.len(),
{
    if entries.len() == 0 {
        Seq::empty()
    } else {
        let rest = sources_linking(entries.drop_last(), name);
        if entries.last().1.contains(name) {
            rest.push(name_of(entries.last().0))
        } else {
            rest
        }
    }
}

/// The paths of the notes of `entries` that have `name` or `path` among their
/// targets, in table order.
pub open spec fn paths_linking(
    entries: Seq<(Seq<char>, Seq<Seq<char>>)>,
    name: Seq<char>,
    path: Seq<char>,
) -> Seq<Seq<char>>
    decreases entries.len(),
{
    if entries.len() == 0 {
        Seq::empty()
    } else {
        let rest = paths_linking(entries.drop_last(), name, path);
        if entries.last().1.contains(name) || entries.last().1.contains(path) {
            rest.push(entries.last().0)
        } else {
            rest
        }
    }
}

/// The order of edges: by source, then by target, each lexicographic.
pub open spec fn edge_less(a: (Seq<char>, Seq<char>), b: (Seq<char>, Seq<char>)) -> bool {
    lex_less(a.0, b.0) || (a.0 == b.0 && lex_less(a.1, b.1))
}

/// `s` with `e` put in before the elements that are not below it, unless `e`
/// is met on the way there.
pub open spec fn insert_sorted(s: Seq<(Seq<char>, Seq<char>)>, e: (Seq<char>, Seq<char>)) -> Seq<
    (Seq<char>, Seq<char>),
>
    decreases s.len(),
{
    if s.len() == 0 {
        seq![e]
    } else if edge_less(s.last(), e) {
        s.push(e)
    } else if s.last() == e {
        s
    } else {
        insert_sorted(s.drop_last(), e).push(s.last())
    }
}

/// The edges of `s` in increasing order, each once.
pub open spec fn sorted_edges(s: Seq<(Seq<char>, Seq<char>)>) -> Seq<(Seq<char>, Seq<char>)>
    decreases s.len(),
{
    if s.len() == 0 {
        Seq::empty()
    } else {
        insert_sorted(sorted_edges(s.drop_last()), s.last())
    }
}

/// Whether `s` is strictly increasing.
pub open spec fn strictly_sorted(s: Seq<(Seq<char>, Seq<char>)>) -> bool {
    forall|i: int, j: int| 0 <= i < j < s.len() ==> edge_less(s[i], s[j])
}

impl GraphModel {
    /// The graph without notes.
    pub open spec fn empty() -> GraphModel {
        GraphModel { outgoing: Seq::empty(), names: Seq::empty() }
    }

    /// The graph after the name of `path` has been bound to `path`.
    pub open spec fn register_note(self, path: Seq<char>) -> GraphModel {
        GraphModel { outgoing: self.outgoing, names: inserted(self.names, name_of(path), path) }
    }

    /// The graph after the links of `path` have been replaced by `targets`.
    pub open spec fn update_links(self, path: Seq<char>, targets: Seq<Seq<char>>) -> GraphModel {
        GraphModel { outgoing: inserted(self.outgoing, path, targets), names: self.names }
    }

    /// The graph after the links of `path` and the binding of its name have
    /// been dropped.
    pub open spec fn remove_note(self, path: Seq<char>) -> GraphModel {
        GraphModel {
            outgoing: removed(self.outgoing, path),
            names: removed(self.names, name_of(path)),
        }
    }

    /// The paths of the notes that link to `path`, by its name or literally.
    pub open spec fn backlinks(self, path: Seq<char>) -> Seq<Seq<char>> {
        paths_linking(self.outgoing, name_of(path), path)
    }

    /// The registered note names, in the order of their registration.
    pub open spec fn note_names(self) -> Seq<Seq<char>> {
        keys(self.names)
    }

    /// The path registered for `name`.
    pub open spec fn resolve_link(self, name: Seq<char>) -> Option<Seq<char>> {
        lookup(self.names, name)
    }

    /// The path shown for the node `id`: the registered one, or `id` with
    /// the note suffix.
    pub open spec fn node_path(self, id: Seq<char>) -> Seq<char> {
        match self.resolve_link(id) {
            Some(path) => path,
            None => id + note_suffix(),
        }
    }

    /// The node `id` of a graph whose edges, with repetitions, are `edges`.
    pub open spec fn node(self, id: Seq<char>, edges: Seq<(Seq<char>, Seq<char>)>) -> NodeView {
        NodeView {
            id: id,
            label: id,
            path: self.node_path(id),
            backlink_count: count_into(edges, id),
        }
    }

    /// The nodes `ids` of a graph whose edges, with repetitions, are `edges`.
    pub open spec fn nodes(self, ids: Seq<Seq<char>>, edges: Seq<(Seq<char>, Seq<char>)>) -> Seq<
        NodeView,
    > {
        Seq::new(ids.len(), |i: int| self.node(ids[i], edges))
    }

    /// The whole graph: a node for every mentioned name, in the order of
    /// first mention, and an edge for every link.
    pub open spec fn graph_data(self) -> GraphView {
        let edges = all_edges(self.outgoing);
        GraphView {
            nodes: self.nodes(absorbed(Seq::empty(), mentioned(self.outgoing)), edges),
            edges: edges,
        }
    }

    /// The targets written in the note registered under `name`.
    pub open spec fn out_targets(self, name: Seq<char>) -> Seq<Seq<char>> {
        match lookup(self.names, name) {
            Some(path) => match lookup(self.outgoing, path) {
                Some(targets) => targets,
                None => Seq::empty(),
            },
            None => Seq::empty(),
        }
    }

    /// The names one hop away from `name`: the targets of its note, then the
    /// names of the notes that link to it.
    pub open spec fn neighbours(self, name: Seq<char>) -> Seq<Seq<char>> {
        self.out_targets(name) + sources_linking(self.outgoing, name)
    }

    /// The neighbours of each of `names`, in order.
    pub open spec fn neighbours_of(self, names: Seq<Seq<char>>) -> Seq<Seq<char>>
        decreases names.len(),
    {
        if names.len() == 0 {
            Seq::empty()
        } else {
            self.neighbours_of(names.drop_last()) + self.neighbours(names.last())
        }
    }

    /// The names within `depth` hops of `center`, in the order of discovery:
    /// `center` first, then hop by hop.
    pub open spec fn reach(self, center: Seq<char>, depth: nat) -> Seq<Seq<char>>
        decreases depth,
    {
        if depth == 0 {
            seq![center]
        } else {
            let inner = self.reach(center, (depth - 1) as nat);
            absorbed(inner, self.neighbours_of(inner))
        }
    }

    /// The edges at `name`: those to the targets of its note, then those from
    /// the notes that link to it.
    pub open spec fn incident(self, name: Seq<char>) -> Seq<(Seq<char>, Seq<char>)> {
        edges_from(name, self.out_targets(name)) + edges_into(
            sources_linking(self.outgoing, name),
            name,
        )
    }

    /// The edges at each of `names`, in order and with repetitions.
    pub open spec fn gathered(self, names: Seq<Seq<char>>) -> Seq<(Seq<char>, Seq<char>)>
        decreases names.len(),
    {
        if names.len() == 0 {
            Seq::empty()
        } else {
            self.gathered(names.drop_last()) + self.incident(names.last())
        }
    }

    /// The names whose links are followed to find what is within `depth`
    /// hops of `center`: none for no hop, else the names within one hop less.
    pub open spec fn expanded(self, center: Seq<char>, depth: nat) -> Seq<Seq<char>> {
        if depth == 0 {
            Seq::empty()
        } else {
            self.reach(center, (depth - 1) as nat)
        }
    }

    /// The neighbourhood of the note at `path`: the names within `depth` hops
    /// of its name as nodes, and as edges the links that were followed to
    /// reach them, sorted and each once. These are the edges at the names
    /// within one hop less; at depth zero there are none. A node counts the
    /// followed links, with repetitions, that point to it.
    pub open spec fn local_graph(self, path: Seq<char>, depth: nat) -> GraphView {
        let ids = self.reach(name_of(path), depth);
        let edges = self.gathered(self.expanded(name_of(path), depth));
        GraphView { nodes: self.nodes(ids, edges), edges: sorted_edges(edges) }
    }
}

impl GraphModel {
    /// Every registered name is the name of the path registered for it.
    pub open spec fn names_fit(self) -> bool {
        fitting(self.names)
    }

    /// Neither table holds a key twice, and every registered name is the
    /// name of its path.
    pub open spec fn wf(self) -> bool {
        distinct_keys(self.outgoing) && distinct_keys(self.names) && self.names_fit()
    }

    /// Whether a link of the graph joins `a` and `b`, in either direction.
    pub open spec fn joined(self, a: Seq<char>, b: Seq<char>) -> bool {
        all_edges(self.outgoing).contains((a, b)) || all_edges(self.outgoing).contains((b, a))
    }

    /// The names that at most `depth` links of the graph, taken in either
    /// direction, join to `center`.
    pub open spec fn linked_within(self, center: Seq<char>, depth: nat) -> Set<Seq<char>>
        decreases depth,
    {
        if depth == 0 {
            set![center]
        } else {
            let inner = self.linked_within(center, (depth - 1) as nat);
            Set::new(
                |m: Seq<char>|
                    inner.contains(m) || exists|n: Seq<char>| inner.contains(n) && self.joined(n, m),
            )
        }
    }

    /// Whether `m` is one hop away from `n`: a target of the note registered
    /// under `n`, or the name of a note that has `n` among its targets.
    pub open spec fn adjacent(self, n: Seq<char>, m: Seq<char>) -> bool {
        self.neighbours(n).contains(m)
    }

    /// Whether `e` is an edge at `n`: from `n` to a target of the note
    /// registered under it, or to `n` from a note that has it among its
    /// targets.
    pub open spec fn at_node(self, n: Seq<char>, e: (Seq<char>, Seq<char>)) -> bool {
        (e.0 == n && self.out_targets(n).contains(e.1)) || (e.1 == n && sources_linking(
            self.outgoing,
            n,
        ).contains(e.0))
    }

    /// The names within `depth` hops of `center`.
    pub open spec fn within(self, center: Seq<char>, depth: nat) -> Set<Seq<char>>
        decreases depth,
    {
        if depth == 0 {
            set![center]
        } else {
            let inner = self.within(center, (depth - 1) as nat);
            Set::new(
                |m: Seq<char>|
                    inner.contains(m) || exists|n: Seq<char>|
                        inner.contains(n) && self.adjacent(n, m),
            )
        }
    }
}

/// The neighbours of a concatenation are those of its parts, in turn.
pub proof fn lemma_neighbours_of_concat(g: GraphModel, a: Seq<Seq<char>>, b: Seq<Seq<char>>)
    ensures
        g.neighbours_of(a + b) == g.neighbours_of(a) + g.neighbours_of(b),
    decreases b.len(),
{
    if b.len() > 0 {
        lemma_neighbours_of_concat(g, a, b.drop_last());
        assert((a + b).drop_last() =~= a + b.drop_last());
    }
}

/// Where the neighbours of the first `settled` of `names` are all among
/// `names`, only the neighbours of the others can be new.
pub proof fn lemma_settled(g: GraphModel, names: Seq<Seq<char>>, settled: int)
    requires
        0 <= settled <= names.len(),
        forall|i: int|
            0 <= i < g.neighbours_of(names.take(settled)).len() ==> names.contains(
                #[trigger] g.neighbours_of(names.take(settled))[i],
            ),
    ensures
        absorbed(names, g.neighbours_of(names)) == absorbed(
            names,
            g.neighbours_of(names.skip(settled)),
        ),
{
    let old_ones = g.neighbours_of(names.take(settled));
    let new_ones = g.neighbours_of(names.skip(settled));
    assert(names.take(settled) + names.skip(settled) =~= names);
    lemma_neighbours_of_concat(g, names.take(settled), names.skip(settled));
    lemma_absorbed_concat(names, old_ones, new_ones);
    lemma_absorbed_known(names, old_ones);
}

/// Once a hop adds no name, no later hop does.
pub proof fn lemma_reach_stable(g: GraphModel, center: Seq<char>, level: nat, depth: nat)
    requires
        g.reach(center, level + 1) == g.reach(center, level),
        level <= depth,
    ensures
        g.reach(center, depth) == g.reach(center, level),
    decreases depth,
{
    if depth > level {
        lemma_reach_stable(g, center, level, (depth - 1) as nat);
    }
}

/// Where everything from `i` on is above `e`, and what stands before `i` is
/// below it, `e` goes in at `i`.
pub proof fn lemma_insert_sorted_at(
    s: Seq<(Seq<char>, Seq<char>)>,
    e: (Seq<char>, Seq<char>),
    i: int,
)
    requires
        0 <= i <= s.len(),
        i > 0 ==> edge_less(s[i - 1], e),
        forall|j: int| i <= j < s.len() ==> s[j] != e && !edge_less(#[trigger] s[j], e),
    ensures
        insert_sorted(s, e) == s.insert(i, e),
    decreases s.len(),
{
    if i < s.len() {
        lemma_insert_sorted_at(s.drop_last(), e, i);
    }
}

/// Where `e` stands at `i` and everything after it is above `e`, inserting
/// `e` changes nothing.
pub proof fn lemma_insert_sorted_present(
    s: Seq<(Seq<char>, Seq<char>)>,
    e: (Seq<char>, Seq<char>),
    i: int,
)
    requires
        0 <= i < s.len(),
        s[i] == e,
        !edge_less(e, e),
        forall|j: int| i < j < s.len() ==> s[j] != e && !edge_less(#[trigger] s[j], e),
    ensures
        insert_sorted(s, e) == s,
    decreases s.len(),
{
    if i < s.len() - 1 {
        let t = s.drop_last();
        lemma_insert_sorted_present(t, e, i);
    }
}

} // verus!
