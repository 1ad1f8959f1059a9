//! Laws of the graph memory.

use crate::float::finite_double;
use crate::plugins::memory::graph::{
    adjacent, breadth_first, collisions, consistent, graph_of, is_listing, is_merged, is_snapshot,
    level, listing, merge_renames, merge_report, merged_id, node_ids, nodes_by_id,
    nodes_refusal, reached, relationship_ids, relationship_refusal, relationships_by_id,
    relationships_refusal, snapshot_refusal, GraphDirection, GraphView, MergePolicy,
    NodeView, RelationshipView, SnapshotView,
};
use crate::plugins::memory::graph::{
    lemma_listing, lemma_merged_ids,
};
use crate::string_map::{
    lemma_sorted_insert, lemma_strictly_sorted_distinct, lemma_strictly_sorted_unique,
    strictly_sorted,
};
use crate::text::{lemma_text_less_total, lemma_text_less_transitive, text_less};
use vstd::prelude::*;
use vstd::relations::injective_on;

verus! {

/// Where a new text stands among sorted texts.
proof fn lemma_insert_position(keys: Seq<Seq<char>>, x: Seq<char>) -> (at: int)
    requires
        strictly_sorted(keys),
        !keys.contains(x),
    ensures
        0 <= at <= keys.len(),
        forall|i: int| 0 <= i < at ==> text_less(#[trigger] keys[i], x),
        forall|i: int| at <= i < keys.len() ==> text_less(x, #[trigger] keys[i]),
    decreases keys.len(),
{
    if keys.len() == 0 {
        0
    } else {
        let last = keys.last();
        let shorter = keys.drop_last();
        lemma_text_less_total(last, x);
        assert(keys[keys.len() - 1] == last);
        if text_less(last, x) {
            assert forall|i: int| 0 <= i < keys.len() implies text_less(
                #[trigger] keys[i],
                x,
            ) by {
                if i < keys.len() - 1 {
                    lemma_text_less_transitive(keys[i], last, x);
                }
            }
            keys.len() as int
        } else {
            assert(!shorter.contains(x)) by {
                if shorter.contains(x) {
                    let q = choose|q: int| 0 <= q < shorter.len() && shorter[q] == x;
                    assert(keys[q] == x);
                }
            }
            assert forall|i: int, j: int| 0 <= i < j < shorter.len() implies text_less(
                #[trigger] shorter[i],
                #[trigger] shorter[j],
            ) by {
                assert(text_less(keys[i], keys[j]));
            }
            let at = lemma_insert_position(shorter, x);
            assert forall|i: int| 0 <= i < at implies text_less(#[trigger] keys[i], x) by {
                assert(shorter[i] == keys[i]);
            }
            assert forall|i: int| at <= i < keys.len() implies text_less(
                x,
                #[trigger] keys[i],
            ) by {
                if i < keys.len() - 1 {
                    assert(shorter[i] == keys[i]);
                }
            }
            at
        }
    }
}

/// Every finite set of texts can be listed in order, in one way.
pub proof fn law_finite_sets_are_listed(s: Set<Seq<char>>)
    requires
        s.finite(),
    ensures
        is_listing(listing(s), s),
    decreases s.len(),
{
    if s.len() == 0 {
        assert(is_listing(Seq::empty(), s));
        lemma_listing(Seq::empty(), s);
    } else {
        let x = s.choose();
        let rest = s.remove(x);
        law_finite_sets_are_listed(rest);
        let q = listing(rest);
        let at = lemma_insert_position(q, x);
        lemma_sorted_insert(q, at, x);
        let r = q.insert(at, x);
        assert forall|y: Seq<char>| #[trigger] r.contains(y) <==> s.contains(y) by {
            if r.contains(y) {
                let i = choose|i: int| 0 <= i < r.len() && r[i] == y;
                if i < at {
                    assert(q.contains(q[i]));
                } else if i > at {
                    assert(q.contains(q[i - 1]));
                }
            }
            if s.contains(y) {
                if y == x {
                    assert(r[at] == x);
                } else {
                    assert(q.contains(y));
                    let i = choose|i: int| 0 <= i < q.len() && q[i] == y;
                    if i < at {
                        assert(r[i] == y);
                    } else {
                        assert(r[i + 1] == y);
                    }
                }
            }
        }
        lemma_listing(r, s);
    }
}

/// A merge loses no relationship: there are as many afterwards as in both graphs together.
pub proof fn law_merge_loses_nothing(
    a: GraphView,
    b: GraphView,
    merged: Map<Seq<char>, RelationshipView>,
)
    requires
        consistent(a),
        consistent(b),
        is_merged(merged, a.relationships, b.relationships),
    ensures
        merged.dom().finite(),
        merged.dom().len() == a.relationships.dom().len() + b.relationships.dom().len(),
{
    let names = merge_renames(a.relationships, b.relationships);
    let f = |k: Seq<char>| merged_id(names, k);
    let image = b.relationships.dom().map(f);
    law_finite_sets_are_listed(collisions(a.relationships, b.relationships));
    assert forall|x: Seq<char>, y: Seq<char>|
        b.relationships.dom().contains(x) && b.relationships.dom().contains(y) && #[trigger] f(x)
            == #[trigger] f(y) implies x == y by {
        if x != y {
            lemma_merged_ids(a.relationships, b.relationships, x, y);
        }
    }
    assert(injective_on(f, b.relationships.dom()));
    vstd::set_lib::lemma_map_size(b.relationships.dom(), image, f);
    assert(a.relationships.dom().disjoint(image)) by {
        assert forall|id: Seq<char>| a.relationships.dom().contains(id) implies !image.contains(
            id,
        ) by {
            if image.contains(id) {
                let k = choose|k: Seq<char>| b.relationships.dom().contains(k) && f(k) == id;
                lemma_merged_ids(a.relationships, b.relationships, k, k);
            }
        }
    }
    vstd::set_lib::lemma_set_disjoint_lens(a.relationships.dom(), image);
    assert forall|id: Seq<char>| #[trigger] merged.dom().contains(id) <==> (
    a.relationships.dom() + image).contains(id) by {
        if merged.dom().contains(id) && !a.relationships.dom().contains(id) {
            let k = choose|k: Seq<char>| #[trigger]
                b.relationships.dom().contains(k) && merged_id(names, k) == id;
            assert(f(k) == id);
            assert(image.contains(id));
        }
        if image.contains(id) {
            let k = choose|k: Seq<char>| b.relationships.dom().contains(k) && f(k) == id;
            assert(merged.dom().contains(merged_id(names, k)));
        }
    }
    assert(merged.dom() =~= a.relationships.dom() + image);
}

/// What a merge holds afterwards does not depend on how the graphs were built.
pub proof fn law_merge_is_deterministic(
    a: GraphView,
    b: GraphView,
    one: Map<Seq<char>, RelationshipView>,
    two: Map<Seq<char>, RelationshipView>,
)
    requires
        is_merged(one, a.relationships, b.relationships),
        is_merged(two, a.relationships, b.relationships),
    ensures
        one == two,
{
    let names = merge_renames(a.relationships, b.relationships);
    assert forall|id: Seq<char>| #[trigger] one.dom().contains(id) implies two.dom().contains(id)
        && one[id] == two[id] by {
        if !a.relationships.dom().contains(id) {
            let k = choose|k: Seq<char>| #[trigger]
                b.relationships.dom().contains(k) && merged_id(names, k) == id;
            assert(two.dom().contains(merged_id(names, k)));
        }
    }
    assert forall|id: Seq<char>| #[trigger] two.dom().contains(id) implies one.dom().contains(
        id,
    ) by {
        if !a.relationships.dom().contains(id) {
            let k = choose|k: Seq<char>| #[trigger]
                b.relationships.dom().contains(k) && merged_id(names, k) == id;
            assert(one.dom().contains(merged_id(names, k)));
        }
    }
    assert(one =~= two);
}

/// The counters of a merge report sum up to the sizes of the incoming graph.
pub proof fn law_merge_report_sums(a: GraphView, b: GraphView, policy: MergePolicy)
    requires
        consistent(a),
        consistent(b),
        b.nodes.dom().len() <= usize::MAX,
        b.relationships.dom().len() <= usize::MAX,
    ensures
        ({
            let r = merge_report(a, b, policy);
            &&& r.nodes_added + r.nodes_overwritten + r.nodes_kept == b.nodes.dom().len()
            &&& r.relationships_added + r.relationships_renamed == b.relationships.dom().len()
        }),
{
    let n = b.nodes.dom();
    let m = b.relationships.dom();
    vstd::set_lib::lemma_set_disjoint_lens(
        n.difference(a.nodes.dom()),
        n.intersect(a.nodes.dom()),
    );
    assert(n.difference(a.nodes.dom()) + n.intersect(a.nodes.dom()) =~= n);
    vstd::set_lib::lemma_set_disjoint_lens(
        m.difference(a.relationships.dom()),
        m.intersect(a.relationships.dom()),
    );
    assert(m.difference(a.relationships.dom()) + m.intersect(a.relationships.dom()) =~= m);
}

/// A graph has one snapshot: equal graphs have equal snapshots, however they were built.
pub proof fn law_snapshot_is_deterministic(g: GraphView, s: SnapshotView, t: SnapshotView)
    requires
        is_snapshot(s, g),
        is_snapshot(t, g),
    ensures
        s == t,
{
    lemma_strictly_sorted_unique(node_ids(s.nodes), node_ids(t.nodes));
    lemma_strictly_sorted_unique(
        relationship_ids(s.relationships),
        relationship_ids(t.relationships),
    );
    assert(s.nodes =~= t.nodes) by {
        assert(node_ids(s.nodes).len() == node_ids(t.nodes).len());
        assert forall|i: int| 0 <= i < s.nodes.len() implies s.nodes[i] == t.nodes[i] by {
            assert(node_ids(s.nodes)[i] == node_ids(t.nodes)[i]);
        }
    }
    assert(s.relationships =~= t.relationships) by {
        assert(relationship_ids(s.relationships).len() == relationship_ids(t.relationships).len());
        assert forall|i: int| 0 <= i < s.relationships.len() implies s.relationships[i]
            == t.relationships[i] by {
            assert(relationship_ids(s.relationships)[i] == relationship_ids(t.relationships)[i]);
        }
    }
}

/// Sorted nodes hold no id twice.
proof fn lemma_sorted_nodes_accepted(nodes: Seq<NodeView>, k: int)
    requires
        strictly_sorted(node_ids(nodes)),
        0 <= k <= nodes.len(),
    ensures
        nodes_refusal(nodes, k) is None,
    decreases nodes.len() - k,
{
    if k < nodes.len() {
        assert(!node_ids(nodes.take(k)).contains(nodes[k].id)) by {
            if node_ids(nodes.take(k)).contains(nodes[k].id) {
                let q = choose|q: int|
                    0 <= q < node_ids(nodes.take(k)).len() && node_ids(nodes.take(k))[q]
                        == nodes[k].id;
                assert(node_ids(nodes)[q] == node_ids(nodes)[k]);
                lemma_strictly_sorted_distinct(node_ids(nodes), q, k);
            }
        }
        lemma_sorted_nodes_accepted(nodes, k + 1);
    }
}

/// The relationships of a snapshot of a consistent graph with finite weights are accepted.
proof fn lemma_sorted_relationships_accepted(s: SnapshotView, g: GraphView, k: int)
    requires
        consistent(g),
        is_snapshot(s, g),
        forall|id: Seq<char>| #[trigger]
            g.relationships.dom().contains(id) ==> finite_double(g.relationships[id].weight.bits),
        0 <= k <= s.relationships.len(),
    ensures
        relationships_refusal(s, k) is None,
    decreases s.relationships.len() - k,
{
    if k < s.relationships.len() {
        let ids = relationship_ids(s.relationships);
        let rel = s.relationships[k];
        assert(ids[k] == rel.id);
        assert(ids.contains(rel.id));
        assert(g.relationships.dom().contains(rel.id));
        assert(!relationship_ids(s.relationships.take(k)).contains(rel.id)) by {
            let before = relationship_ids(s.relationships.take(k));
            if before.contains(rel.id) {
                let q = choose|q: int| 0 <= q < before.len() && before[q] == rel.id;
                assert(ids[q] == ids[k]);
                lemma_strictly_sorted_distinct(ids, q, k);
            }
        }
        assert(node_ids(s.nodes).contains(rel.from));
        assert(node_ids(s.nodes).contains(rel.to));
        assert(relationship_refusal(s, k) is None);
        lemma_sorted_relationships_accepted(s, g, k + 1);
    }
}

/// Nodes listed with different ids are found by their ids.
proof fn lemma_nodes_by_id_at(nodes: Seq<NodeView>, i: int)
    requires
        strictly_sorted(node_ids(nodes)),
        0 <= i < nodes.len(),
    ensures
        nodes_by_id(nodes).dom().contains(nodes[i].id),
        nodes_by_id(nodes)[nodes[i].id] == nodes[i],
    decreases nodes.len(),
{
    let shorter = nodes.drop_last();
    assert(strictly_sorted(node_ids(shorter))) by {
        assert forall|p: int, q: int| 0 <= p < q < shorter.len() implies text_less(
            #[trigger] node_ids(shorter)[p],
            #[trigger] node_ids(shorter)[q],
        ) by {
            assert(text_less(node_ids(nodes)[p], node_ids(nodes)[q]));
        }
    }
    if i < nodes.len() - 1 {
        lemma_nodes_by_id_at(shorter, i);
        if nodes[i].id == nodes.last().id {
            assert(node_ids(nodes)[i] == node_ids(nodes)[nodes.len() - 1]);
            lemma_strictly_sorted_distinct(node_ids(nodes), i, nodes.len() - 1);
        }
    }
}

/// Only listed ids are found.
proof fn lemma_nodes_by_id_only(nodes: Seq<NodeView>, id: Seq<char>)
    requires
        nodes_by_id(nodes).dom().contains(id),
    ensures
        node_ids(nodes).contains(id),
    decreases nodes.len(),
{
    if nodes.len() > 0 {
        if id == nodes.last().id {
            assert(node_ids(nodes)[nodes.len() - 1] == id);
        } else {
            lemma_nodes_by_id_only(nodes.drop_last(), id);
            let ids = node_ids(nodes.drop_last());
            let q = choose|q: int| 0 <= q < ids.len() && ids[q] == id;
            assert(node_ids(nodes)[q] == id);
        }
    }
}

/// Relationships listed with different ids are found by their ids.
proof fn lemma_relationships_by_id_at(rels: Seq<RelationshipView>, i: int)
    requires
        strictly_sorted(relationship_ids(rels)),
        0 <= i < rels.len(),
    ensures
        relationships_by_id(rels).dom().contains(rels[i].id),
        relationships_by_id(rels)[rels[i].id] == rels[i],
    decreases rels.len(),
{
    let shorter = rels.drop_last();
    assert(strictly_sorted(relationship_ids(shorter))) by {
        assert forall|p: int, q: int| 0 <= p < q < shorter.len() implies text_less(
            #[trigger] relationship_ids(shorter)[p],
            #[trigger] relationship_ids(shorter)[q],
        ) by {
            assert(text_less(relationship_ids(rels)[p], relationship_ids(rels)[q]));
        }
    }
    if i < rels.len() - 1 {
        lemma_relationships_by_id_at(shorter, i);
        if rels[i].id == rels.last().id {
            assert(relationship_ids(rels)[i] == relationship_ids(rels)[rels.len() - 1]);
            lemma_strictly_sorted_distinct(relationship_ids(rels), i, rels.len() - 1);
        }
    }
}

/// Only listed ids are found.
proof fn lemma_relationships_by_id_only(rels: Seq<RelationshipView>, id: Seq<char>)
    requires
        relationships_by_id(rels).dom().contains(id),
    ensures
        relationship_ids(rels).contains(id),
    decreases rels.len(),
{
    if rels.len() > 0 {
        if id == rels.last().id {
            assert(relationship_ids(rels)[rels.len() - 1] == id);
        } else {
            lemma_relationships_by_id_only(rels.drop_last(), id);
            let ids = relationship_ids(rels.drop_last());
            let q = choose|q: int| 0 <= q < ids.len() && ids[q] == id;
            assert(relationship_ids(rels)[q] == id);
        }
    }
}

/// A snapshot describes the graph that it was taken of.
pub proof fn lemma_graph_of_snapshot(g: GraphView, s: SnapshotView)
    requires
        consistent(g),
        is_snapshot(s, g),
    ensures
        graph_of(s) == g,
{
    let r = graph_of(s);
    assert forall|id: Seq<char>| #[trigger] g.nodes.dom().contains(id) implies r.nodes.dom().contains(
        id,
    ) && r.nodes[id] == g.nodes[id] by {
        let ids = node_ids(s.nodes);
        assert(ids.contains(id));
        let i = choose|i: int| 0 <= i < ids.len() && ids[i] == id;
        lemma_nodes_by_id_at(s.nodes, i);
    }
    assert forall|id: Seq<char>| #[trigger] r.nodes.dom().contains(id) implies g.nodes.dom().contains(
        id,
    ) by {
        lemma_nodes_by_id_only(s.nodes, id);
    }
    assert(r.nodes =~= g.nodes);
    assert forall|id: Seq<char>| #[trigger] g.relationships.dom().contains(
        id,
    ) implies r.relationships.dom().contains(id) && r.relationships[id]
        == g.relationships[id] by {
        let ids = relationship_ids(s.relationships);
        assert(ids.contains(id));
        let i = choose|i: int| 0 <= i < ids.len() && ids[i] == id;
        lemma_relationships_by_id_at(s.relationships, i);
    }
    assert forall|id: Seq<char>| #[trigger] r.relationships.dom().contains(
        id,
    ) implies g.relationships.dom().contains(id) by {
        lemma_relationships_by_id_only(s.relationships, id);
    }
    assert(r.relationships =~= g.relationships);
}

/// A graph comes back from its snapshot, field by field, where all its weights are finite.
pub proof fn law_snapshot_round_trip(g: GraphView, s: SnapshotView)
    requires
        consistent(g),
        is_snapshot(s, g),
        forall|id: Seq<char>| #[trigger]
            g.relationships.dom().contains(id) ==> finite_double(g.relationships[id].weight.bits),
    ensures
        snapshot_refusal(s) is None,
        graph_of(s) == g,
{
    lemma_sorted_nodes_accepted(s.nodes, 0);
    lemma_sorted_relationships_accepted(s, g, 0);
    lemma_graph_of_snapshot(g, s);
}

/// Going out along a relationship is the reverse of going in along it.
pub proof fn law_directions_are_inverse(g: GraphView, a: Seq<char>, b: Seq<char>)
    ensures
        adjacent(g, a, b, GraphDirection::Outgoing) <==> adjacent(
            g,
            b,
            a,
            GraphDirection::Incoming,
        ),
        adjacent(g, a, b, GraphDirection::Any) <==> adjacent(g, b, a, GraphDirection::Any),
{
}

/// A traversal lists each node that it reaches once.
pub proof fn law_traverse_visits_once(
    g: GraphView,
    starts: Set<Seq<char>>,
    n: nat,
    d: GraphDirection,
)
    requires
        g.relationships.dom().finite(),
        starts.finite(),
    ensures
        reached(g, starts, n, d).finite(),
        breadth_first(g, starts, n, d).no_duplicates(),
        forall|x: Seq<char>| #[trigger]
            breadth_first(g, starts, n, d).contains(x) <==> reached(g, starts, n, d).contains(x),
    decreases n,
{
    if n == 0 {
        law_finite_sets_are_listed(starts);
        lemma_listing_distinct(starts);
    } else {
        let k = (n - 1) as nat;
        law_traverse_visits_once(g, starts, k, d);
        lemma_reached_finite(g, starts, n, d);
        let new = level(g, starts, n, d);
        law_finite_sets_are_listed(new);
        lemma_listing_distinct(new);
        let p = breadth_first(g, starts, k, d);
        let q = listing(new);
        let r = breadth_first(g, starts, n, d);
        assert forall|i: int, j: int|
            0 <= i < r.len() && 0 <= j < r.len() && i != j implies r[i] != r[j] by {
            if i < p.len() && j >= p.len() {
                assert(p.contains(p[i]));
                assert(q.contains(q[j - p.len()]));
            }
            if j < p.len() && i >= p.len() {
                assert(p.contains(p[j]));
                assert(q.contains(q[i - p.len()]));
            }
        }
        assert forall|x: Seq<char>| #[trigger] r.contains(x) <==> reached(
            g,
            starts,
            n,
            d,
        ).contains(x) by {
            if r.contains(x) {
                let i = choose|i: int| 0 <= i < r.len() && r[i] == x;
                if i < p.len() {
                    assert(p.contains(p[i]));
                } else {
                    assert(q.contains(q[i - p.len()]));
                }
            }
            if reached(g, starts, n, d).contains(x) {
                if reached(g, starts, k, d).contains(x) {
                    assert(p.contains(x));
                    let i = choose|i: int| 0 <= i < p.len() && p[i] == x;
                    assert(r[i] == x);
                } else {
                    assert(q.contains(x));
                    let i = choose|i: int| 0 <= i < q.len() && q[i] == x;
                    assert(r[p.len() + i] == x);
                }
            }
        }
    }
}

/// A listing holds nothing twice.
proof fn lemma_listing_distinct(s: Set<Seq<char>>)
    requires
        is_listing(listing(s), s),
    ensures
        listing(s).no_duplicates(),
{
    let q = listing(s);
    assert forall|i: int, j: int| 0 <= i < q.len() && 0 <= j < q.len() && i != j implies q[i]
        != q[j] by {
        if q[i] == q[j] {
            lemma_strictly_sorted_distinct(q, i, j);
        }
    }
}

/// Finitely many relationships lead to finitely many nodes.
proof fn lemma_reached_finite(g: GraphView, starts: Set<Seq<char>>, n: nat, d: GraphDirection)
    requires
        g.relationships.dom().finite(),
        starts.finite(),
    ensures
        reached(g, starts, n, d).finite(),
    decreases n,
{
    if n > 0 {
        lemma_reached_finite(g, starts, (n - 1) as nat, d);
        let ids = g.relationships.dom();
        let from = |id: Seq<char>| g.relationships[id].from;
        let to = |id: Seq<char>| g.relationships[id].to;
        vstd::set_lib::lemma_map_size_bound(ids, ids.map(from), from);
        vstd::set_lib::lemma_map_size_bound(ids, ids.map(to), to);
        let ends = ids.map(from).union(ids.map(to));
        let more = crate::plugins::memory::graph::next_to_any(
            g,
            reached(g, starts, (n - 1) as nat, d),
            d,
        );
        assert forall|b: Seq<char>| more.contains(b) implies ends.contains(b) by {
            let a = choose|a: Seq<char>|
                reached(g, starts, (n - 1) as nat, d).contains(a) && #[trigger] adjacent(
                    g,
                    a,
                    b,
                    d,
                );
            let id = choose|id: Seq<char>| #[trigger]
                g.relationships.dom().contains(id) && crate::plugins::memory::graph::leads(
                    g.relationships[id],
                    a,
                    b,
                    d,
                );
            assert(from(id) == b || to(id) == b);
        }
        vstd::set_lib::lemma_set_subset_finite(ends, more);
    }
}

/// Taking out a relationship that was just added under a new id brings the graph back.
pub proof fn law_remove_undoes_add(
    m: Map<Seq<char>, RelationshipView>,
    id: Seq<char>,
    rel: RelationshipView,
)
    requires
        !m.dom().contains(id),
    ensures
        m.insert(id, rel).remove(id) == m,
{
    assert(m.insert(id, rel).remove(id) =~= m);
}

} // verus!
