//! What holds of every link graph: proved properties of the model in
//! `crate::graph`, and so of every `LinkGraph`.

use crate::graph::{
    all_edges, count_into, edge_less, edges_from, edges_into, insert_sorted, mentioned,
    paths_linking, sorted_edges, sources_linking, strictly_sorted, GraphModel,
};
use crate::strings::{
    absorbed, lemma_absorbed_extends, lemma_absorbed_members, lemma_concat_contains,
    lemma_push_contains,
};
use crate::paths::name_of;
use crate::table::{
    as_map, has_key, inserted, lemma_as_map, lemma_entries_kept, lemma_inserted,
    lemma_position_is, lemma_position_of, lemma_removed, lookup, position_of, removed,
};
use crate::text::{lemma_lex_irreflexive, lemma_lex_total, lemma_lex_transitive};
use vstd::prelude::*;

verus! {

/// Inserting the same value under the same key twice is inserting it once.
pub proof fn lemma_inserted_twice<T>(s: Seq<(Seq<char>, T)>, key: Seq<char>, value: T)
    ensures
        inserted(inserted(s, key, value), key, value) == inserted(s, key, value),
{
    let r = inserted(s, key, value);
    lemma_position_of(s, key);
    match position_of(s, key) {
        Some(i) => {
            assert forall|k: int| 0 <= k < i implies r[k].0 != key by {}
            lemma_position_is(r, key, i);
        },
        None => {
            let n = s.len() as int;
            assert forall|k: int| 0 <= k < n implies r[k].0 != key by {}
            lemma_position_is(r, key, n);
        },
    }
}

/// Every operation that changes a graph keeps its tables free of repeated
/// keys.
pub proof fn lemma_wf_preserved(g: GraphModel, path: Seq<char>, targets: Seq<Seq<char>>)
    requires
        g.wf(),
    ensures
        GraphModel::empty().wf(),
        g.register_note(path).wf(),
        g.update_links(path, targets).wf(),
        g.remove_note(path).wf(),
{
    lemma_inserted(g.names, name_of(path), path);
    lemma_inserted(g.outgoing, path, targets);
    lemma_removed(g.outgoing, path);
    lemma_removed(g.names, name_of(path));
    lemma_names_fit(g, path);
}

/// Registering and removing a note keep every registered name the name of
/// its path.
pub proof fn lemma_names_fit(g: GraphModel, path: Seq<char>)
    requires
        g.names_fit(),
    ensures
        g.register_note(path).names_fit(),
        g.remove_note(path).names_fit(),
{
    lemma_entries_kept(g.names, name_of(path), path);
    let put = g.register_note(path).names;
    let cut = g.remove_note(path).names;
    assert forall|i: int| 0 <= i < put.len() implies (#[trigger] put[i]).0 == name_of(
        put[i].1,
    ) by {
        if put[i] != (name_of(path), path) {
            let j = choose|j: int| 0 <= j < g.names.len() && g.names[j] == put[i];
            assert(g.names[j].0 == name_of(g.names[j].1));
        }
    }
    assert forall|i: int| 0 <= i < cut.len() implies (#[trigger] cut[i]).0 == name_of(
        cut[i].1,
    ) by {
        let j = choose|j: int| 0 <= j < g.names.len() && g.names[j] == cut[i];
        assert(g.names[j].0 == name_of(g.names[j].1));
    }
}

/// What the operations do to the two mappings of a graph, from paths to
/// link targets and from names to paths: registering a note binds its name
/// to its path; recording links binds the path to the links; removing a
/// note unbinds its path and its name. Nothing else changes.
pub proof fn lemma_operations(g: GraphModel, path: Seq<char>, targets: Seq<Seq<char>>)
    requires
        g.wf(),
    ensures
        as_map(g.register_note(path).names) == as_map(g.names).insert(name_of(path), path),
        g.register_note(path).outgoing == g.outgoing,
        as_map(g.update_links(path, targets).outgoing) == as_map(g.outgoing).insert(path, targets),
        g.update_links(path, targets).names == g.names,
        as_map(g.remove_note(path).outgoing) == as_map(g.outgoing).remove(path),
        as_map(g.remove_note(path).names) == as_map(g.names).remove(name_of(path)),
        as_map(GraphModel::empty().outgoing) == Map::<Seq<char>, Seq<Seq<char>>>::empty(),
        as_map(GraphModel::empty().names) == Map::<Seq<char>, Seq<char>>::empty(),
{
    lemma_as_map(g.names, name_of(path), path);
    lemma_as_map(g.outgoing, path, targets);
}

/// A name resolves to the path that the mapping of names holds for it.
pub proof fn lemma_resolve_link(g: GraphModel, name: Seq<char>)
    requires
        g.wf(),
    ensures
        g.resolve_link(name) == if as_map(g.names).dom().contains(name) {
            Some(as_map(g.names)[name])
        } else {
            None
        },
{
    lemma_as_map(g.names, name, name);
}

/// Recording the same links for a note twice leaves the graph as recording
/// them once does: the same state, and so the same nodes and edges.
pub proof fn lemma_update_links_idempotent(
    g: GraphModel,
    path: Seq<char>,
    targets: Seq<Seq<char>>,
)
    ensures
        g.update_links(path, targets).update_links(path, targets) == g.update_links(path, targets),
        g.update_links(path, targets).update_links(path, targets).graph_data().edges
            == g.update_links(path, targets).graph_data().edges,
        g.update_links(path, targets).update_links(path, targets).graph_data()
            == g.update_links(path, targets).graph_data(),
{
    lemma_inserted_twice(g.outgoing, path, targets);
}

/// Registering a note twice is registering it once.
pub proof fn lemma_register_note_idempotent(g: GraphModel, path: Seq<char>)
    ensures
        g.register_note(path).register_note(path) == g.register_note(path),
{
    lemma_inserted_twice(g.names, name_of(path), path);
}

/// After a note is registered, its name resolves to its path.
pub proof fn lemma_register_then_resolve(g: GraphModel, path: Seq<char>)
    requires
        g.wf(),
    ensures
        g.register_note(path).resolve_link(name_of(path)) == Some(path),
        forall|name: Seq<char>|
            name != name_of(path) ==> g.register_note(path).resolve_link(name) == g.resolve_link(
                name,
            ),
{
    lemma_inserted(g.names, name_of(path), path);
}

/// Removing a note and adding it again with no links leaves it as a note
/// added afresh: registered under its name, without links, last in both
/// tables; every other path and every other name is as it was before.
pub proof fn lemma_remove_then_add(g: GraphModel, path: Seq<char>)
    requires
        g.wf(),
    ensures
        ({
            let bare = g.remove_note(path);
            let again = bare.register_note(path).update_links(path, Seq::empty());
            &&& !has_key(bare.outgoing, path)
            &&& !has_key(bare.names, name_of(path))
            &&& again.wf()
            &&& again.outgoing == removed(g.outgoing, path).push((path, Seq::empty()))
            &&& again.names == removed(g.names, name_of(path)).push((name_of(path), path))
            &&& again.resolve_link(name_of(path)) == Some(path)
            &&& lookup(again.outgoing, path) == Some(Seq::<Seq<char>>::empty())
            &&& again.out_targets(name_of(path)) == Seq::<Seq<char>>::empty()
            &&& forall|other: Seq<char>|
                other != path ==> lookup(again.outgoing, other) == lookup(g.outgoing, other)
            &&& forall|name: Seq<char>|
                name != name_of(path) ==> again.resolve_link(name) == g.resolve_link(name)
        }),
{
    let bare = g.remove_note(path);
    lemma_removed(g.outgoing, path);
    lemma_removed(g.names, name_of(path));
    lemma_position_of(bare.outgoing, path);
    lemma_position_of(bare.names, name_of(path));
    lemma_inserted(bare.names, name_of(path), path);
    lemma_inserted(bare.outgoing, path, Seq::<Seq<char>>::empty());
    lemma_names_fit(g, path);
    lemma_names_fit(bare, path);
}

/// A note is among the backlinks of `path` exactly when it has the name of
/// `path`, or `path` itself, among its targets; so a note to which nothing
/// links has no backlinks.
pub proof fn lemma_backlinks(g: GraphModel, path: Seq<char>)
    ensures
        forall|source: Seq<char>|
            g.backlinks(path).contains(source) <==> exists|i: int|
                0 <= i < g.outgoing.len() && #[trigger] g.outgoing[i].0 == source && (
                g.outgoing[i].1.contains(name_of(path)) || g.outgoing[i].1.contains(path)),
        (forall|i: int|
            0 <= i < g.outgoing.len() ==> !(#[trigger] g.outgoing[i]).1.contains(name_of(path))
                && !g.outgoing[i].1.contains(path)) ==> g.backlinks(path) == Seq::<
            Seq<char>,
        >::empty(),
{
    lemma_paths_linking(g.outgoing, name_of(path), path);
    let r = g.backlinks(path);
    if forall|i: int|
        0 <= i < g.outgoing.len() ==> !(#[trigger] g.outgoing[i]).1.contains(name_of(path))
            && !g.outgoing[i].1.contains(path) {
        if r.len() > 0 {
            assert(r.contains(r[0]));
        }
    }
}

/// The members of `paths_linking` are the paths of the entries that hold
/// `name` or `path` among their targets.
pub proof fn lemma_paths_linking(
    entries: Seq<(Seq<char>, Seq<Seq<char>>)>,
    name: Seq<char>,
    path: Seq<char>,
)
    ensures
        forall|source: Seq<char>|
            paths_linking(entries, name, path).contains(source) <==> exists|i: int|
                0 <= i < entries.len() && #[trigger] entries[i].0 == source && (
                entries[i].1.contains(name) || entries[i].1.contains(path)),
    decreases entries.len(),
{
    if entries.len() > 0 {
        let head = entries.drop_last();
        let last = entries.last();
        lemma_paths_linking(head, name, path);
        let rest = paths_linking(head, name, path);
        let all = paths_linking(entries, name, path);
        let hit = last.1.contains(name) || last.1.contains(path);
        assert forall|source: Seq<char>| all.contains(source) <==> exists|i: int|
            0 <= i < entries.len() && #[trigger] entries[i].0 == source && (
            entries[i].1.contains(name) || entries[i].1.contains(path)) by {
            if all.contains(source) {
                let k = choose|k: int| 0 <= k < all.len() && all[k] == source;
                if hit && k == rest.len() {
                    assert(entries[entries.len() - 1].0 == source);
                } else {
                    assert(rest[k] == source);
                    assert(rest.contains(source));
                    let i = choose|i: int|
                        0 <= i < head.len() && #[trigger] head[i].0 == source && (
                        head[i].1.contains(name) || head[i].1.contains(path));
                    assert(entries[i] == head[i]);
                }
            }
            if exists|i: int|
                0 <= i < entries.len() && #[trigger] entries[i].0 == source && (
                entries[i].1.contains(name) || entries[i].1.contains(path)) {
                let i = choose|i: int|
                    0 <= i < entries.len() && #[trigger] entries[i].0 == source && (
                    entries[i].1.contains(name) || entries[i].1.contains(path));
                if i < head.len() {
                    assert(head[i] == entries[i]);
                    assert(rest.contains(source));
                    let k = choose|k: int| 0 <= k < rest.len() && rest[k] == source;
                    assert(all[k] == source);
                } else {
                    assert(all[rest.len() as int] == source);
                }
            }
        }
    }
}

/// The sources that link to `name` are the names of the entries that hold
/// `name` among their targets.
pub proof fn lemma_sources_linking(entries: Seq<(Seq<char>, Seq<Seq<char>>)>, name: Seq<char>)
    ensures
        forall|source: Seq<char>|
            sources_linking(entries, name).contains(source) <==> exists|i: int|
                0 <= i < entries.len() && (#[trigger] entries[i]).1.contains(name) && name_of(
                    entries[i].0,
                ) == source,
    decreases entries.len(),
{
    if entries.len() > 0 {
        let head = entries.drop_last();
        let last = entries.last();
        lemma_sources_linking(head, name);
        let rest = sources_linking(head, name);
        let all = sources_linking(entries, name);
        assert forall|source: Seq<char>| all.contains(source) <==> exists|i: int|
            0 <= i < entries.len() && (#[trigger] entries[i]).1.contains(name) && name_of(
                entries[i].0,
            ) == source by {
            lemma_push_contains(rest, name_of(last.0), source);
            if exists|i: int|
                0 <= i < entries.len() && (#[trigger] entries[i]).1.contains(name) && name_of(
                    entries[i].0,
                ) == source {
                let i = choose|i: int|
                    0 <= i < entries.len() && (#[trigger] entries[i]).1.contains(name) && name_of(
                        entries[i].0,
                    ) == source;
                if i < head.len() {
                    assert(head[i] == entries[i]);
                }
            }
        }
    } else {
        assert forall|source: Seq<char>| !sources_linking(entries, name).contains(source) by {}
    }
}

/// The edges of a graph are the links of its notes: an edge runs from the
/// name of a note to each of its targets.
pub proof fn lemma_all_edges(entries: Seq<(Seq<char>, Seq<Seq<char>>)>)
    ensures
        forall|e: (Seq<char>, Seq<char>)|
            all_edges(entries).contains(e) <==> exists|i: int|
                0 <= i < entries.len() && name_of((#[trigger] entries[i]).0) == e.0
                    && entries[i].1.contains(e.1),
    decreases entries.len(),
{
    if entries.len() > 0 {
        let head = entries.drop_last();
        let last = entries.last();
        lemma_all_edges(head);
        let out = edges_from(name_of(last.0), last.1);
        assert forall|e: (Seq<char>, Seq<char>)|
            all_edges(entries).contains(e) <==> exists|i: int|
                0 <= i < entries.len() && name_of((#[trigger] entries[i]).0) == e.0
                    && entries[i].1.contains(e.1) by {
            lemma_concat_contains(all_edges(head), out, e);
            if exists|i: int|
                0 <= i < entries.len() && name_of((#[trigger] entries[i]).0) == e.0
                    && entries[i].1.contains(e.1) {
                let i = choose|i: int|
                    0 <= i < entries.len() && name_of((#[trigger] entries[i]).0) == e.0
                        && entries[i].1.contains(e.1);
                if i < head.len() {
                    assert(head[i] == entries[i]);
                } else {
                    let k = choose|k: int| 0 <= k < last.1.len() && last.1[k] == e.1;
                    assert(out[k] == e);
                }
            }
        }
    } else {
        assert forall|e: (Seq<char>, Seq<char>)| !all_edges(entries).contains(e) by {}
    }
}

/// The names that a graph mentions are the names of its notes and their
/// targets.
pub proof fn lemma_mentioned(entries: Seq<(Seq<char>, Seq<Seq<char>>)>)
    ensures
        forall|n: Seq<char>|
            mentioned(entries).contains(n) <==> exists|i: int|
                0 <= i < entries.len() && (name_of((#[trigger] entries[i]).0) == n
                    || entries[i].1.contains(n)),
    decreases entries.len(),
{
    if entries.len() > 0 {
        let head = entries.drop_last();
        let last = entries.last();
        lemma_mentioned(head);
        assert forall|n: Seq<char>|
            mentioned(entries).contains(n) <==> exists|i: int|
                0 <= i < entries.len() && (name_of((#[trigger] entries[i]).0) == n
                    || entries[i].1.contains(n)) by {
            lemma_concat_contains(mentioned(head).push(name_of(last.0)), last.1, n);
            lemma_push_contains(mentioned(head), name_of(last.0), n);
            if exists|i: int|
                0 <= i < entries.len() && (name_of((#[trigger] entries[i]).0) == n
                    || entries[i].1.contains(n)) {
                let i = choose|i: int|
                    0 <= i < entries.len() && (name_of((#[trigger] entries[i]).0) == n
                        || entries[i].1.contains(n));
                if i < head.len() {
                    assert(head[i] == entries[i]);
                }
            }
        }
    } else {
        assert forall|n: Seq<char>| !mentioned(entries).contains(n) by {}
    }
}

/// No more edges point to a name than there are edges.
pub proof fn lemma_count_into_bound(edges: Seq<(Seq<char>, Seq<char>)>, id: Seq<char>)
    ensures
        count_into(edges, id) <= edges.len(),
        count_into(edges, id) > 0 <==> exists|i: int|
            0 <= i < edges.len() && (#[trigger] edges[i]).1 == id,
    decreases edges.len(),
{
    if edges.len() > 0 {
        let head = edges.drop_last();
        lemma_count_into_bound(head, id);
        if exists|i: int| 0 <= i < edges.len() && (#[trigger] edges[i]).1 == id {
            let i = choose|i: int| 0 <= i < edges.len() && (#[trigger] edges[i]).1 == id;
            if i < head.len() {
                assert(head[i] == edges[i]);
            }
        }
    }
}

/// What the whole graph is: its edges are the links of the notes, with
/// repetitions; its nodes are, each once, the names of the notes that have
/// links recorded and the targets of their links; a node is labelled by its
/// name, has the registered path of the name or the name with `.md`, and
/// counts the edges that point to it.
pub proof fn lemma_graph_data(g: GraphModel)
    ensures
        ({
            let data = g.graph_data();
            let ids = absorbed(Seq::empty(), mentioned(g.outgoing));
            &&& data.edges == all_edges(g.outgoing)
            &&& data.nodes.len() == ids.len()
            &&& ids.no_duplicates()
            &&& forall|id: Seq<char>|
                ids.contains(id) <==> exists|i: int|
                    0 <= i < g.outgoing.len() && (name_of((#[trigger] g.outgoing[i]).0) == id
                        || g.outgoing[i].1.contains(id))
            &&& forall|e: (Seq<char>, Seq<char>)|
                data.edges.contains(e) <==> exists|i: int|
                    0 <= i < g.outgoing.len() && name_of((#[trigger] g.outgoing[i]).0) == e.0
                        && g.outgoing[i].1.contains(e.1)
            &&& forall|k: int|
                0 <= k < ids.len() ==> {
                    &&& (#[trigger] data.nodes[k]).id == ids[k]
                    &&& data.nodes[k].label == ids[k]
                    &&& data.nodes[k].path == g.node_path(ids[k])
                    &&& data.nodes[k].backlink_count == count_into(data.edges, ids[k])
                    &&& data.nodes[k].backlink_count <= data.edges.len()
                }
        }),
{
    let ids = absorbed(Seq::empty(), mentioned(g.outgoing));
    let data = g.graph_data();
    lemma_absorbed_members(Seq::empty(), mentioned(g.outgoing));
    lemma_mentioned(g.outgoing);
    lemma_all_edges(g.outgoing);
    assert forall|k: int| 0 <= k < ids.len() implies (#[trigger] data.nodes[k]).backlink_count
        <= data.edges.len() by {
        lemma_count_into_bound(data.edges, ids[k]);
    }
    assert forall|id: Seq<char>|
        ids.contains(id) <==> exists|i: int|
            0 <= i < g.outgoing.len() && (name_of((#[trigger] g.outgoing[i]).0) == id
                || g.outgoing[i].1.contains(id)) by {
        assert(!Seq::<Seq<char>>::empty().contains(id));
    }
}

/// The neighbours of a sequence of names are the names one hop away from
/// one of them.
pub proof fn lemma_neighbours_of_members(g: GraphModel, names: Seq<Seq<char>>)
    ensures
        forall|m: Seq<char>|
            g.neighbours_of(names).contains(m) <==> exists|n: Seq<char>|
                names.contains(n) && g.adjacent(n, m),
    decreases names.len(),
{
    if names.len() > 0 {
        let head = names.drop_last();
        let last = names.last();
        lemma_neighbours_of_members(g, head);
        assert(head.push(last) =~= names);
        assert forall|m: Seq<char>|
            g.neighbours_of(names).contains(m) <==> exists|n: Seq<char>|
                names.contains(n) && g.adjacent(n, m) by {
            lemma_concat_contains(g.neighbours_of(head), g.neighbours(last), m);
            if g.neighbours_of(head).contains(m) {
                let n = choose|n: Seq<char>| head.contains(n) && g.adjacent(n, m);
                lemma_push_contains(head, last, n);
            }
            if g.neighbours(last).contains(m) {
                lemma_push_contains(head, last, last);
            }
            if exists|n: Seq<char>| names.contains(n) && g.adjacent(n, m) {
                let n = choose|n: Seq<char>| names.contains(n) && g.adjacent(n, m);
                lemma_push_contains(head, last, n);
            }
        }
    } else {
        assert forall|m: Seq<char>|
            g.neighbours_of(names).contains(m) <==> exists|n: Seq<char>|
                names.contains(n) && g.adjacent(n, m) by {
            assert forall|n: Seq<char>| !names.contains(n) by {}
        }
    }
}

/// `reach` lists, each once and the centre first, exactly the names within
/// `depth` hops of the centre.
pub proof fn lemma_reach_is_within(g: GraphModel, center: Seq<char>, depth: nat)
    ensures
        g.reach(center, depth).no_duplicates(),
        g.reach(center, depth).len() >= 1,
        g.reach(center, depth)[0] == center,
        forall|m: Seq<char>|
            g.reach(center, depth).contains(m) <==> g.within(center, depth).contains(m),
        g.reach(center, depth).to_set() == g.within(center, depth),
    decreases depth,
{
    let r = g.reach(center, depth);
    if depth == 0 {
        assert forall|m: Seq<char>| r.contains(m) <==> g.within(center, depth).contains(m) by {
            if m == center {
                assert(r[0] == m);
            }
        }
    } else {
        let inner = g.reach(center, (depth - 1) as nat);
        lemma_reach_is_within(g, center, (depth - 1) as nat);
        lemma_absorbed_members(inner, g.neighbours_of(inner));
        lemma_absorbed_extends(inner, g.neighbours_of(inner));
        lemma_neighbours_of_members(g, inner);
        assert forall|m: Seq<char>| r.contains(m) <==> g.within(center, depth).contains(m) by {}
    }
}

/// A greater depth never loses a name: what is within `small` hops is
/// within `large` hops, and is listed in the same place.
pub proof fn lemma_reach_monotonic(g: GraphModel, center: Seq<char>, small: nat, large: nat)
    requires
        small <= large,
    ensures
        g.reach(center, small).len() <= g.reach(center, large).len(),
        g.reach(center, large).take(g.reach(center, small).len() as int) == g.reach(
            center,
            small,
        ),
        forall|m: Seq<char>|
            g.reach(center, small).contains(m) ==> g.reach(center, large).contains(m),
        g.within(center, small).subset_of(g.within(center, large)),
    decreases large,
{
    let a = g.reach(center, small);
    let b = g.reach(center, large);
    if small < large {
        let inner = g.reach(center, (large - 1) as nat);
        lemma_reach_monotonic(g, center, small, (large - 1) as nat);
        lemma_absorbed_extends(inner, g.neighbours_of(inner));
    }
    assert forall|m: Seq<char>| a.contains(m) implies b.contains(m) by {}
    lemma_reach_is_within(g, center, small);
    lemma_reach_is_within(g, center, large);
}

/// No edge is below itself.
pub proof fn lemma_edge_irreflexive(a: (Seq<char>, Seq<char>))
    ensures
        !edge_less(a, a),
{
    lemma_lex_irreflexive(a.0);
    lemma_lex_irreflexive(a.1);
}

/// Of two different edges, one is below the other.
pub proof fn lemma_edge_total(a: (Seq<char>, Seq<char>), b: (Seq<char>, Seq<char>))
    ensures
        a == b || edge_less(a, b) || edge_less(b, a),
{
    lemma_lex_total(a.0, b.0);
    lemma_lex_total(a.1, b.1);
}

/// The order of edges is transitive.
pub proof fn lemma_edge_transitive(
    a: (Seq<char>, Seq<char>),
    b: (Seq<char>, Seq<char>),
    c: (Seq<char>, Seq<char>),
)
    requires
        edge_less(a, b),
        edge_less(b, c),
    ensures
        edge_less(a, c),
{
    if lex_less_first(a, b) && lex_less_first(b, c) {
        lemma_lex_transitive(a.0, b.0, c.0);
    } else if a.0 == b.0 && b.0 == c.0 {
        lemma_lex_transitive(a.1, b.1, c.1);
    }
}

/// Whether the source of `a` is below the source of `b`.
pub open spec fn lex_less_first(a: (Seq<char>, Seq<char>), b: (Seq<char>, Seq<char>)) -> bool {
    crate::text::lex_less(a.0, b.0)
}

/// Inserting into a strictly increasing sequence keeps it so, and adds the
/// edge to what it holds.
pub proof fn lemma_insert_sorted(s: Seq<(Seq<char>, Seq<char>)>, e: (Seq<char>, Seq<char>))
    requires
        strictly_sorted(s),
    ensures
        strictly_sorted(insert_sorted(s, e)),
        insert_sorted(s, e).len() >= 1,
        forall|x: (Seq<char>, Seq<char>)|
            insert_sorted(s, e).contains(x) <==> (s.contains(x) || x == e),
    decreases s.len(),
{
    let r = insert_sorted(s, e);
    if s.len() == 0 {
        assert forall|x: (Seq<char>, Seq<char>)| r.contains(x) <==> (s.contains(x) || x == e) by {
            if x == e {
                assert(r[0] == x);
            }
        }
    } else if edge_less(s.last(), e) {
        assert forall|i: int, j: int| 0 <= i < j < r.len() implies edge_less(r[i], r[j]) by {
            if j == s.len() && i < s.len() - 1 {
                lemma_edge_transitive(s[i], s.last(), e);
            }
        }
        assert forall|x: (Seq<char>, Seq<char>)| r.contains(x) <==> (s.contains(x) || x == e) by {
            lemma_push_contains(s, e, x);
        }
    } else if s.last() == e {
        assert(s.contains(e)) by {
            assert(s[s.len() - 1] == e);
        }
    } else {
        let t = s.drop_last();
        let inner = insert_sorted(t, e);
        lemma_insert_sorted(t, e);
        lemma_edge_total(s.last(), e);
        assert forall|i: int, j: int| 0 <= i < j < r.len() implies edge_less(r[i], r[j]) by {
            if j == inner.len() {
                assert(inner.contains(inner[i]));
                if t.contains(inner[i]) {
                    let k = choose|k: int| 0 <= k < t.len() && t[k] == inner[i];
                    assert(edge_less(s[k], s[s.len() - 1]));
                }
            } else {
                assert(edge_less(inner[i], inner[j]));
            }
        }
        assert(t.push(s.last()) =~= s);
        assert forall|x: (Seq<char>, Seq<char>)| r.contains(x) <==> (s.contains(x) || x == e) by {
            lemma_push_contains(inner, s.last(), x);
            lemma_push_contains(t, s.last(), x);
        }
    }
}

/// `sorted_edges` is strictly increasing, holds nothing twice, and holds
/// exactly what its argument holds; it is empty only for no edges.
pub proof fn lemma_sorted_edges(s: Seq<(Seq<char>, Seq<char>)>)
    ensures
        strictly_sorted(sorted_edges(s)),
        sorted_edges(s).no_duplicates(),
        forall|x: (Seq<char>, Seq<char>)| sorted_edges(s).contains(x) <==> s.contains(x),
        sorted_edges(s).len() == 0 <==> s.len() == 0,
    decreases s.len(),
{
    let r = sorted_edges(s);
    if s.len() > 0 {
        let head = s.drop_last();
        lemma_sorted_edges(head);
        lemma_insert_sorted(sorted_edges(head), s.last());
        assert(head.push(s.last()) =~= s);
        assert forall|x: (Seq<char>, Seq<char>)| r.contains(x) <==> s.contains(x) by {
            lemma_push_contains(head, s.last(), x);
        }
    } else {
        assert forall|x: (Seq<char>, Seq<char>)| !s.contains(x) by {}
    }
    assert forall|i: int, j: int| 0 <= i < r.len() && 0 <= j < r.len() && i != j implies r[i]
        != r[j] by {
        lemma_edge_irreflexive(r[i]);
    }
}

/// The edges at a name are those from it to the targets of its note and
/// those to it from the notes that link to it.
pub proof fn lemma_incident_members(g: GraphModel, name: Seq<char>)
    ensures
        forall|e: (Seq<char>, Seq<char>)| g.incident(name).contains(e) <==> g.at_node(name, e),
{
    let out = edges_from(name, g.out_targets(name));
    let inward = edges_into(sources_linking(g.outgoing, name), name);
    assert forall|e: (Seq<char>, Seq<char>)|
        g.incident(name).contains(e) <==> ((e.0 == name && g.out_targets(name).contains(e.1)) || (
        e.1 == name && sources_linking(g.outgoing, name).contains(e.0))) by {
        lemma_concat_contains(out, inward, e);
        if e.0 == name && g.out_targets(name).contains(e.1) {
            let i = choose|i: int|
                0 <= i < g.out_targets(name).len() && g.out_targets(name)[i] == e.1;
            assert(out[i] == e);
        }
        if e.1 == name && sources_linking(g.outgoing, name).contains(e.0) {
            let i = choose|i: int|
                0 <= i < sources_linking(g.outgoing, name).len() && sources_linking(
                    g.outgoing,
                    name,
                )[i] == e.0;
            assert(inward[i] == e);
        }
    }
}

/// The gathered edges are the edges at one of the names.
pub proof fn lemma_gathered_members(g: GraphModel, names: Seq<Seq<char>>)
    ensures
        forall|e: (Seq<char>, Seq<char>)|
            g.gathered(names).contains(e) <==> exists|n: Seq<char>|
                names.contains(n) && g.incident(n).contains(e),
    decreases names.len(),
{
    if names.len() > 0 {
        let head = names.drop_last();
        let last = names.last();
        lemma_gathered_members(g, head);
        assert(head.push(last) =~= names);
        assert forall|e: (Seq<char>, Seq<char>)|
            g.gathered(names).contains(e) <==> exists|n: Seq<char>|
                names.contains(n) && g.incident(n).contains(e) by {
            lemma_concat_contains(g.gathered(head), g.incident(last), e);
            if g.gathered(head).contains(e) {
                let n = choose|n: Seq<char>| head.contains(n) && g.incident(n).contains(e);
                lemma_push_contains(head, last, n);
            }
            if g.incident(last).contains(e) {
                lemma_push_contains(head, last, last);
            }
            if exists|n: Seq<char>| names.contains(n) && g.incident(n).contains(e) {
                let n = choose|n: Seq<char>| names.contains(n) && g.incident(n).contains(e);
                lemma_push_contains(head, last, n);
            }
        }
    } else {
        assert forall|e: (Seq<char>, Seq<char>)|
            g.gathered(names).contains(e) <==> exists|n: Seq<char>|
                names.contains(n) && g.incident(n).contains(e) by {
            assert forall|n: Seq<char>| !names.contains(n) by {}
        }
    }
}

/// What a neighbourhood is. Its nodes are, each once and the centre first,
/// the names within `depth` hops of the centre. Its edges are strictly
/// increasing; they are the edges at the names within one hop less, so both
/// ends of every edge are nodes, and at depth zero there is no edge. A node
/// is labelled by its name, has the registered path of the name or the name
/// with `.md`, and counts the followed links that point to it.
pub proof fn lemma_local_graph(g: GraphModel, path: Seq<char>, depth: nat)
    ensures
        ({
            let center = name_of(path);
            let local = g.local_graph(path, depth);
            let ids = g.reach(center, depth);
            let hubs = g.expanded(center, depth);
            &&& local.nodes.len() == ids.len()
            &&& local.nodes.len() >= 1
            &&& local.nodes[0].id == center
            &&& ids.no_duplicates()
            &&& ids.to_set() == g.within(center, depth)
            &&& forall|i: int| 0 <= i < ids.len() ==> (#[trigger] local.nodes[i]).id == ids[i]
            &&& strictly_sorted(local.edges)
            &&& local.edges.no_duplicates()
            &&& depth == 0 ==> local.edges.len() == 0
            &&& depth > 0 ==> hubs.to_set() == g.within(center, (depth - 1) as nat)
            &&& forall|e: (Seq<char>, Seq<char>)|
                local.edges.contains(e) <==> exists|n: Seq<char>|
                    hubs.contains(n) && g.at_node(n, e)
            &&& forall|e: (Seq<char>, Seq<char>)|
                local.edges.contains(e) ==> ids.contains(e.0) && ids.contains(e.1)
            &&& forall|i: int|
                0 <= i < ids.len() ==> {
                    &&& (#[trigger] local.nodes[i]).label == ids[i]
                    &&& local.nodes[i].path == g.node_path(ids[i])
                    &&& local.nodes[i].backlink_count == count_into(g.gathered(hubs), ids[i])
                }
        }),
{
    let center = name_of(path);
    let ids = g.reach(center, depth);
    let hubs = g.expanded(center, depth);
    let local = g.local_graph(path, depth);
    lemma_reach_is_within(g, center, depth);
    lemma_sorted_edges(g.gathered(hubs));
    lemma_gathered_members(g, hubs);
    if depth > 0 {
        lemma_reach_is_within(g, center, (depth - 1) as nat);
        lemma_reach_monotonic(g, center, (depth - 1) as nat, depth);
    }
    assert forall|e: (Seq<char>, Seq<char>)|
        local.edges.contains(e) <==> exists|n: Seq<char>| hubs.contains(n) && g.at_node(n, e) by {
        if g.gathered(hubs).contains(e) {
            let n = choose|n: Seq<char>| hubs.contains(n) && g.incident(n).contains(e);
            lemma_incident_members(g, n);
            assert(hubs.contains(n) && g.at_node(n, e));
        }
        if exists|n: Seq<char>| hubs.contains(n) && g.at_node(n, e) {
            let n = choose|n: Seq<char>| hubs.contains(n) && g.at_node(n, e);
            lemma_incident_members(g, n);
        }
    }
    assert forall|e: (Seq<char>, Seq<char>)| local.edges.contains(e) implies ids.contains(e.0)
        && ids.contains(e.1) by {
        let n = choose|n: Seq<char>| hubs.contains(n) && g.at_node(n, e);
        assert(depth > 0);
        assert(g.within(center, (depth - 1) as nat).contains(n));
        assert(ids.contains(n));
        let other = if e.0 == n && g.out_targets(n).contains(e.1) {
            e.1
        } else {
            e.0
        };
        lemma_concat_contains(g.out_targets(n), sources_linking(g.outgoing, n), other);
        assert(g.adjacent(n, other));
        assert(g.within(center, depth).contains(other));
        assert(ids.contains(other));
    }
}

/// In a graph in which every registered name is the name of its path, a
/// hop follows a link of the graph: an edge at a name is an edge of the
/// whole graph, and names one hop apart are joined by a link.
pub proof fn lemma_hop_is_link(g: GraphModel, n: Seq<char>)
    requires
        g.names_fit(),
    ensures
        forall|e: (Seq<char>, Seq<char>)|
            g.at_node(n, e) ==> all_edges(g.outgoing).contains(e),
        forall|m: Seq<char>| g.adjacent(n, m) ==> g.joined(n, m),
{
    lemma_all_edges(g.outgoing);
    lemma_sources_linking(g.outgoing, n);
    lemma_position_of(g.names, n);
    assert forall|e: (Seq<char>, Seq<char>)| g.at_node(n, e) implies all_edges(
        g.outgoing,
    ).contains(e) by {
        if e.0 == n && g.out_targets(n).contains(e.1) {
            let i = position_of(g.names, n)->0;
            let p = g.names[i].1;
            assert(g.names[i].0 == name_of(p));
            lemma_position_of(g.outgoing, p);
            let k = position_of(g.outgoing, p)->0;
            assert(name_of(g.outgoing[k].0) == e.0 && g.outgoing[k].1.contains(e.1));
        } else {
            let k = choose|k: int|
                0 <= k < g.outgoing.len() && (#[trigger] g.outgoing[k]).1.contains(n) && name_of(
                    g.outgoing[k].0,
                ) == e.0;
            assert(name_of(g.outgoing[k].0) == e.0 && g.outgoing[k].1.contains(e.1));
        }
    }
    assert forall|m: Seq<char>| g.adjacent(n, m) implies g.joined(n, m) by {
        lemma_concat_contains(g.out_targets(n), sources_linking(g.outgoing, n), m);
        if g.out_targets(n).contains(m) {
            assert(g.at_node(n, (n, m)));
        } else {
            assert(g.at_node(n, (m, n)));
        }
    }
}

/// In a graph in which every registered name is the name of its path, what
/// is within `depth` hops of a name is joined to it by at most `depth`
/// links of the graph.
pub proof fn lemma_within_is_linked(g: GraphModel, center: Seq<char>, depth: nat)
    requires
        g.names_fit(),
    ensures
        g.within(center, depth).subset_of(g.linked_within(center, depth)),
    decreases depth,
{
    if depth > 0 {
        lemma_within_is_linked(g, center, (depth - 1) as nat);
        let hops = g.within(center, (depth - 1) as nat);
        let links = g.linked_within(center, (depth - 1) as nat);
        assert forall|m: Seq<char>| g.within(center, depth).contains(m) implies g.linked_within(
            center,
            depth,
        ).contains(m) by {
            if !hops.contains(m) {
                let n = choose|n: Seq<char>| hops.contains(n) && g.adjacent(n, m);
                lemma_hop_is_link(g, n);
                assert(links.contains(n) && g.joined(n, m));
            } else {
                assert(links.contains(m));
            }
        }
    }
}

/// A neighbourhood is part of the whole graph, where every registered name
/// is the name of its path, as it is in every `LinkGraph`: each of its
/// edges is an edge of the whole graph, and each of its nodes is joined to
/// the centre by at most `depth` links of the whole graph.
pub proof fn lemma_local_graph_in_graph(g: GraphModel, path: Seq<char>, depth: nat)
    requires
        g.names_fit(),
    ensures
        forall|e: (Seq<char>, Seq<char>)|
            g.local_graph(path, depth).edges.contains(e) ==> g.graph_data().edges.contains(e),
        forall|i: int|
            0 <= i < g.local_graph(path, depth).nodes.len() ==> g.linked_within(
                name_of(path),
                depth,
            ).contains((#[trigger] g.local_graph(path, depth).nodes[i]).id),
{
    let center = name_of(path);
    let local = g.local_graph(path, depth);
    let ids = g.reach(center, depth);
    lemma_local_graph(g, path, depth);
    lemma_within_is_linked(g, center, depth);
    assert forall|e: (Seq<char>, Seq<char>)| local.edges.contains(e) implies g.graph_data().edges.contains(
        e,
    ) by {
        let n = choose|n: Seq<char>| g.expanded(center, depth).contains(n) && g.at_node(n, e);
        lemma_hop_is_link(g, n);
    }
    assert forall|i: int| 0 <= i < local.nodes.len() implies g.linked_within(
        center,
        depth,
    ).contains((#[trigger] local.nodes[i]).id) by {
        assert(ids.contains(ids[i]));
        assert(g.within(center, depth).contains(ids[i]));
    }
}

/// One hop leads from a name to the targets of the note registered under
/// it, and to the names of the notes that have it among their targets.
pub proof fn lemma_adjacent(g: GraphModel, n: Seq<char>, m: Seq<char>)
    ensures
        g.adjacent(n, m) <==> (g.out_targets(n).contains(m) || exists|i: int|
            0 <= i < g.outgoing.len() && (#[trigger] g.outgoing[i]).1.contains(n) && name_of(
                g.outgoing[i].0,
            ) == m),
{
    lemma_concat_contains(g.out_targets(n), sources_linking(g.outgoing, n), m);
    lemma_sources_linking(g.outgoing, n);
}

/// At depth zero a neighbourhood is the centre alone: one node, which no
/// edge is counted for, and no edges.
pub proof fn lemma_local_graph_at_zero(g: GraphModel, path: Seq<char>)
    ensures
        ({
            let center = name_of(path);
            let local = g.local_graph(path, 0);
            &&& local.nodes == seq![g.node(center, Seq::empty())]
            &&& local.nodes[0].id == center
            &&& local.nodes[0].backlink_count == 0
            &&& local.edges == Seq::<(Seq<char>, Seq<char>)>::empty()
        }),
{
    let center = name_of(path);
    assert(g.local_graph(path, 0).nodes =~= seq![g.node(center, Seq::empty())]);
}

/// A greater depth never shrinks a neighbourhood's nodes: every node of the
/// smaller one is a node of the greater, in the same place.
pub proof fn lemma_local_graph_grows(g: GraphModel, path: Seq<char>, small: nat, large: nat)
    requires
        small <= large,
    ensures
        g.local_graph(path, small).nodes.len() <= g.local_graph(path, large).nodes.len(),
        forall|i: int|
            0 <= i < g.local_graph(path, small).nodes.len() ==> (#[trigger] g.local_graph(
                path,
                large,
            ).nodes[i]).id == g.local_graph(path, small).nodes[i].id,
{
    let center = name_of(path);
    lemma_reach_monotonic(g, center, small, large);
    let a = g.reach(center, small);
    let b = g.reach(center, large);
    assert forall|i: int| 0 <= i < a.len() implies b[i] == a[i] by {}
}

} // verus!
