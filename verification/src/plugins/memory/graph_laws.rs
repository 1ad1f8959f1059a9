//! What the operations on a graph are for: where relationships lead, what stays, what a merge
//! keeps, which snapshots load, and what is shown.

use crate::float::finite_double;
use crate::json::{json_text, JsonView};
use crate::plugins::memory::graph::{
    adjacent, breadth_first, candidate_id, collisions, comma_joined, consistent, first_ids,
    graph_of, induced, is_listing, is_merged, is_rename_number, known_roots,
    lemma_reached_monotone, lemma_rename_exists, lemma_renames, level, listing, merge_renames,
    merge_report, merged_id, merged_nodes, next_to, next_to_any, node_ids, node_line, node_lines,
    nodes_by_id, nodes_refusal, not_incident, omission_line, reached, relationship_ids,
    relationship_line, relationship_lines, relationship_refusal, relationships_by_id,
    relationships_refusal, renames, render_text, snapshot_refusal, with_id, GraphDirection,
    GraphView, MergePolicy, NodeView, RelationshipView, SnapshotView,
};
use crate::plugins::memory::laws::{law_finite_sets_are_listed, law_traverse_visits_once};
use crate::string_map::{lemma_strictly_sorted_distinct, strictly_sorted};
use crate::text::{decimal, has_prefix, has_substring, text_less};
use vstd::prelude::*;

verus! {

/// A relationship leads out of the node that it comes from, and into the node that it goes to.
pub proof fn law_relationships_lead_from_source_to_target(
    g: GraphView,
    rid: Seq<char>,
    a: Seq<char>,
    b: Seq<char>,
)
    ensures
        g.relationships.dom().contains(rid) ==> {
            let rel = g.relationships[rid];
            &&& next_to(g, rel.from, GraphDirection::Outgoing).contains(rel.to)
            &&& next_to(g, rel.to, GraphDirection::Incoming).contains(rel.from)
        },
        next_to(g, a, GraphDirection::Outgoing).contains(b) ==> exists|r: Seq<char>|
            #[trigger] g.relationships.dom().contains(r) && g.relationships[r].from == a
                && g.relationships[r].to == b,
        next_to(g, a, GraphDirection::Incoming).contains(b) ==> exists|r: Seq<char>|
            #[trigger] g.relationships.dom().contains(r) && g.relationships[r].from == b
                && g.relationships[r].to == a,
        next_to(g, a, GraphDirection::Any).contains(b) <==> next_to(
            g,
            a,
            GraphDirection::Outgoing,
        ).contains(b) || next_to(g, a, GraphDirection::Incoming).contains(b),
{
    if next_to(g, a, GraphDirection::Any).contains(b) {
        assert(adjacent(g, a, b, GraphDirection::Any));
        assert(adjacent(g, a, b, GraphDirection::Outgoing) || adjacent(
            g,
            a,
            b,
            GraphDirection::Incoming,
        ));
    }
    if next_to(g, a, GraphDirection::Outgoing).contains(b) {
        assert(adjacent(g, a, b, GraphDirection::Outgoing));
        assert(adjacent(g, a, b, GraphDirection::Any));
    }
    if next_to(g, a, GraphDirection::Incoming).contains(b) {
        assert(adjacent(g, a, b, GraphDirection::Incoming));
        assert(adjacent(g, a, b, GraphDirection::Any));
    }
    if g.relationships.dom().contains(rid) {
        let rel = g.relationships[rid];
        assert(adjacent(g, rel.from, rel.to, GraphDirection::Outgoing));
        assert(adjacent(g, rel.to, rel.from, GraphDirection::Incoming));
    }
}

/// A step of a path follows a relationship.
pub open spec fn steps(g: GraphView, p: Seq<Seq<char>>, i: int, d: GraphDirection) -> bool {
    adjacent(g, p[i], p[i + 1], d)
}

/// A path from one of the starts to a node.
pub open spec fn is_path(
    g: GraphView,
    starts: Set<Seq<char>>,
    p: Seq<Seq<char>>,
    x: Seq<char>,
    d: GraphDirection,
) -> bool {
    &&& p.len() > 0
    &&& starts.contains(p[0])
    &&& p.last() == x
    &&& forall|i: int| 0 <= i < p.len() - 1 ==> #[trigger] steps(g, p, i, d)
}

/// A node is reached in so many steps exactly where a path of no more steps leads to it.
pub proof fn law_traversals_follow_paths(
    g: GraphView,
    starts: Set<Seq<char>>,
    n: nat,
    d: GraphDirection,
    x: Seq<char>,
)
    ensures
        reached(g, starts, n, d).contains(x) <==> exists|p: Seq<Seq<char>>|
            is_path(g, starts, p, x, d) && p.len() <= n + 1,
{
    if reached(g, starts, n, d).contains(x) {
        lemma_path_there(g, starts, n, d, x);
    }
    if exists|p: Seq<Seq<char>>| is_path(g, starts, p, x, d) && p.len() <= n + 1 {
        let p = choose|p: Seq<Seq<char>>| is_path(g, starts, p, x, d) && p.len() <= n + 1;
        lemma_path_leads(g, starts, p, x, d);
        lemma_reached_monotone(g, starts, (p.len() - 1) as nat, n, d);
    }
}

/// There is a path to what is reached.
proof fn lemma_path_there(
    g: GraphView,
    starts: Set<Seq<char>>,
    n: nat,
    d: GraphDirection,
    x: Seq<char>,
)
    requires
        reached(g, starts, n, d).contains(x),
    ensures
        exists|p: Seq<Seq<char>>| is_path(g, starts, p, x, d) && p.len() <= n + 1,
    decreases n,
{
    if n == 0 {
        let p = seq![x];
        assert(is_path(g, starts, p, x, d));
    } else {
        let m = (n - 1) as nat;
        let before = reached(g, starts, m, d);
        if before.contains(x) {
            lemma_path_there(g, starts, m, d, x);
            let p = choose|p: Seq<Seq<char>>| is_path(g, starts, p, x, d) && p.len() <= m + 1;
            assert(is_path(g, starts, p, x, d) && p.len() <= n + 1);
        } else {
            assert(next_to_any(g, before, d).contains(x));
            let a = choose|a: Seq<char>| before.contains(a) && #[trigger] adjacent(g, a, x, d);
            lemma_path_there(g, starts, m, d, a);
            let p = choose|p: Seq<Seq<char>>| is_path(g, starts, p, a, d) && p.len() <= m + 1;
            let q = p.push(x);
            assert forall|i: int| 0 <= i < q.len() - 1 implies #[trigger] steps(g, q, i, d) by {
                if i < p.len() - 1 {
                    assert(steps(g, p, i, d));
                    assert(q[i] == p[i] && q[i + 1] == p[i + 1]);
                } else {
                    assert(q[i] == a && q[i + 1] == x);
                }
            }
            assert(is_path(g, starts, q, x, d));
        }
    }
}

/// What a path leads to is reached.
proof fn lemma_path_leads(
    g: GraphView,
    starts: Set<Seq<char>>,
    p: Seq<Seq<char>>,
    x: Seq<char>,
    d: GraphDirection,
)
    requires
        is_path(g, starts, p, x, d),
    ensures
        reached(g, starts, (p.len() - 1) as nat, d).contains(x),
    decreases p.len(),
{
    if p.len() > 1 {
        let q = p.drop_last();
        let a = q.last();
        assert forall|i: int| 0 <= i < q.len() - 1 implies #[trigger] steps(g, q, i, d) by {
            assert(steps(g, p, i, d));
        }
        lemma_path_leads(g, starts, q, a, d);
        assert(steps(g, p, p.len() - 2, d));
        assert(adjacent(g, a, x, d));
        let before = reached(g, starts, (p.len() - 2) as nat, d);
        assert(next_to_any(g, before, d).contains(x));
    }
}

/// A traversal lists the nearer nodes first: what it lists for fewer steps stands at the front of
/// what it lists for more, and what one more step brings comes behind that, in order.
pub proof fn law_nearer_nodes_come_first(
    g: GraphView,
    starts: Set<Seq<char>>,
    n: nat,
    d: GraphDirection,
    i: int,
    j: int,
)
    requires
        g.relationships.dom().finite(),
        starts.finite(),
    ensures
        ({
            let near = breadth_first(g, starts, n, d);
            let far = breadth_first(g, starts, n + 1, d);
            &&& near.len() <= far.len() && far.take(near.len() as int) == near
            &&& near.len() <= i < j < far.len() ==> text_less(far[i], far[j])
            &&& near.len() <= i < far.len() ==> reached(g, starts, n + 1, d).contains(far[i])
                && !reached(g, starts, n, d).contains(far[i])
        }),
{
    let near = breadth_first(g, starts, n, d);
    let far = breadth_first(g, starts, n + 1, d);
    let ring = level(g, starts, n + 1, d);
    law_traverse_visits_once(g, starts, n, d);
    law_traverse_visits_once(g, starts, n + 1, d);
    assert(ring.finite()) by {
        assert(ring.subset_of(reached(g, starts, n + 1, d)));
        vstd::set_lib::lemma_set_subset_finite(reached(g, starts, n + 1, d), ring);
    }
    law_finite_sets_are_listed(ring);
    assert(far =~= near + listing(ring));
    assert(far.take(near.len() as int) =~= near);
    if near.len() <= i < far.len() {
        assert(far[i] == listing(ring)[i - near.len()]);
        assert(listing(ring).contains(far[i]));
        if i < j < far.len() {
            assert(far[j] == listing(ring)[j - near.len()]);
        }
    }
}

/// A node that goes takes with it the relationships that touch it, and no other.
pub proof fn law_nodes_take_their_relationships(
    m: Map<Seq<char>, RelationshipView>,
    id: Seq<char>,
    rid: Seq<char>,
)
    requires
        m.dom().contains(rid),
    ensures
        not_incident(m, id).dom().contains(rid) <==> !(m[rid].from == id || m[rid].to == id),
        not_incident(m, id).dom().contains(rid) ==> not_incident(m, id)[rid] == m[rid],
        not_incident(m, id).dom().subset_of(m.dom()),
{
}

/// A part of a graph has the nodes that were asked for, and every relationship between two of
/// them.
pub proof fn law_parts_hold_what_lies_between(
    g: GraphView,
    keep: Set<Seq<char>>,
    id: Seq<char>,
    rid: Seq<char>,
)
    requires
        consistent(g),
        g.nodes.dom().contains(id),
        g.relationships.dom().contains(rid),
    ensures
        ({
            let part = induced(g, keep);
            let rel = g.relationships[rid];
            &&& part.nodes.dom().contains(id) <==> keep.contains(id)
            &&& part.nodes.dom().contains(id) ==> part.nodes[id] == g.nodes[id]
            &&& part.relationships.dom().contains(rid) <==> part.nodes.dom().contains(rel.from)
                && part.nodes.dom().contains(rel.to)
            &&& part.relationships.dom().contains(rid) ==> part.relationships[rid] == rel
            &&& consistent(part)
        }),
{
    let part = induced(g, keep);
    assert(part.nodes.dom().subset_of(g.nodes.dom()));
    assert(part.relationships.dom().subset_of(g.relationships.dom()));
    vstd::set_lib::lemma_set_subset_finite(g.nodes.dom(), part.nodes.dom());
    vstd::set_lib::lemma_set_subset_finite(g.relationships.dom(), part.relationships.dom());
}

/// Only roots that are in the graph count.
pub proof fn law_unknown_roots_are_passed_over(g: GraphView, roots: Seq<Seq<char>>, i: int)
    requires
        0 <= i < roots.len(),
    ensures
        known_roots(g, roots).contains(roots[i]) <==> g.nodes.dom().contains(roots[i]),
{
}

/// A merge has every node of either graph. Of a node that both have, it keeps its own where it is
/// to keep, and takes the other where it is to overwrite.
pub proof fn law_merges_go_by_their_policy(
    a: Map<Seq<char>, NodeView>,
    b: Map<Seq<char>, NodeView>,
    id: Seq<char>,
)
    ensures
        ({
            let kept = merged_nodes(a, b, MergePolicy::Keep);
            let over = merged_nodes(a, b, MergePolicy::Overwrite);
            &&& a.dom().contains(id) ==> kept.dom().contains(id) && kept[id] == a[id]
            &&& b.dom().contains(id) ==> over.dom().contains(id) && over[id] == b[id]
            &&& b.dom().contains(id) && !a.dom().contains(id) ==> kept.dom().contains(id)
                && kept[id] == b[id]
            &&& a.dom().contains(id) && !b.dom().contains(id) ==> over.dom().contains(id)
                && over[id] == a[id]
            &&& kept.dom().contains(id) || over.dom().contains(id) ==> a.dom().contains(id)
                || b.dom().contains(id)
        }),
{
}

/// New names are made of the old ones and a number that is free.
proof fn lemma_names(ids: Seq<Seq<char>>, taken: Set<Seq<char>>, x: Seq<char>)
    requires
        taken.finite(),
        strictly_sorted(ids),
        ids.contains(x),
    ensures
        exists|n: nat|
            n >= 2 && renames(ids, taken)[x] == #[trigger] candidate_id(x, n) && forall|m: nat|
                2 <= m < n ==> taken.contains(#[trigger] candidate_id(x, m)) || renames(
                    ids,
                    taken,
                ).values().contains(candidate_id(x, m)),
    decreases ids.len(),
{
    let shorter = ids.drop_last();
    let before = renames(shorter, taken);
    let now = renames(ids, taken);
    let last = ids.last();
    lemma_renames(shorter, taken);
    lemma_renames(ids, taken);
    let avoid = taken.union(before.values());
    lemma_rename_exists(last, avoid);
    let k = choose|k: int| 0 <= k < ids.len() && ids[k] == x;
    assert forall|y: Seq<char>| before.dom().contains(y) implies y != last && now.dom().contains(y)
        && now[y] == before[y] by {
        assert(shorter.to_set().contains(y));
        let q = choose|q: int| 0 <= q < shorter.len() && shorter[q] == y;
        assert(ids[q] == y);
        if y == last {
            lemma_strictly_sorted_distinct(ids, q, ids.len() - 1);
        }
    }
    assert forall|v: Seq<char>| before.values().contains(v) implies now.values().contains(v) by {
        let y = choose|y: Seq<char>| before.dom().contains(y) && before[y] == v;
        assert(now.dom().contains(y) && now[y] == v);
    }
    if k == ids.len() - 1 {
        let n = choose|n: nat| is_rename_number(last, avoid, n);
        assert(now[x] == candidate_id(x, n));
        assert forall|m: nat| 2 <= m < n implies taken.contains(#[trigger] candidate_id(x, m))
            || now.values().contains(candidate_id(x, m)) by {
            assert(avoid.contains(candidate_id(last, m)));
        }
    } else {
        assert forall|i: int, j: int| 0 <= i < j < shorter.len() implies text_less(
            #[trigger] shorter[i],
            #[trigger] shorter[j],
        ) by {
            assert(shorter[i] == ids[i] && shorter[j] == ids[j]);
        }
        assert(shorter[k] == x);
        assert(shorter.to_set().contains(x));
        lemma_names(shorter, taken, x);
        let n = choose|n: nat|
            n >= 2 && before[x] == #[trigger] candidate_id(x, n) && forall|m: nat|
                2 <= m < n ==> taken.contains(#[trigger] candidate_id(x, m))
                    || before.values().contains(candidate_id(x, m));
        assert(now[x] == candidate_id(x, n));
        assert forall|m: nat| 2 <= m < n implies taken.contains(#[trigger] candidate_id(x, m))
            || now.values().contains(candidate_id(x, m)) by {}
    }
}

/// A merge keeps its own relationships, and takes every other one as it is, under its own id
/// where that is free, and otherwise under that id with the first free number behind it.
pub proof fn law_merged_relationships_stay_apart(
    a: GraphView,
    b: GraphView,
    r: Map<Seq<char>, RelationshipView>,
    id: Seq<char>,
)
    requires
        consistent(a),
        consistent(b),
        is_merged(r, a.relationships, b.relationships),
    ensures
        a.relationships.dom().contains(id) ==> r.dom().contains(id) && r[id]
            == a.relationships[id],
        b.relationships.dom().contains(id) && !a.relationships.dom().contains(id)
            ==> r.dom().contains(id) && r[id] == b.relationships[id],
        b.relationships.dom().contains(id) && a.relationships.dom().contains(id) ==> exists|n: nat|
            {
                let name = #[trigger] candidate_id(id, n);
                &&& n >= 2
                &&& name == id + "-"@ + decimal(n)
                &&& r.dom().contains(name)
                &&& r[name] == (RelationshipView { id: name, ..b.relationships[id] })
                &&& forall|m: nat| 2 <= m < n ==> r.dom().contains(#[trigger] candidate_id(id, m))
            },
{
    let ra = a.relationships;
    let rb = b.relationships;
    let shared = collisions(ra, rb);
    let taken = ra.dom().union(rb.dom());
    let names = merge_renames(ra, rb);
    assert(shared.finite());
    law_finite_sets_are_listed(shared);
    let ids = listing(shared);
    lemma_renames(ids, taken);
    assert(ids.to_set().contains(id) <==> ids.contains(id));
    assert(names.dom().contains(id) <==> shared.contains(id));
    if rb.dom().contains(id) {
        assert(r.dom().contains(merged_id(names, id)));
        if ra.dom().contains(id) {
            lemma_names(ids, taken, id);
            let n = choose|n: nat|
                n >= 2 && names[id] == #[trigger] candidate_id(id, n) && forall|m: nat|
                    2 <= m < n ==> taken.contains(#[trigger] candidate_id(id, m))
                        || names.values().contains(candidate_id(id, m));
            let name = candidate_id(id, n);
            assert(merged_id(names, id) == name);
            assert(r[name] == with_id(rb[id], name));
            assert forall|m: nat| 2 <= m < n implies r.dom().contains(
                #[trigger] candidate_id(id, m),
            ) by {
                let c = candidate_id(id, m);
                if ra.dom().contains(c) {
                } else if rb.dom().contains(c) {
                    assert(ids.to_set().contains(c) <==> ids.contains(c));
                    assert(!names.dom().contains(c));
                    assert(merged_id(names, c) == c);
                } else {
                    let y = choose|y: Seq<char>| names.dom().contains(y) && names[y] == c;
                    assert(ids.to_set().contains(y));
                    assert(ids.contains(y));
                    assert(shared.contains(y));
                    assert(rb.dom().contains(y));
                    assert(merged_id(names, y) == c);
                }
            }
        } else {
            assert(merged_id(names, id) == id);
            assert(rb[id].id == id);
        }
    }
}

/// What a merge reports of nodes that both graphs have goes by the policy, and nothing is
/// reported renamed where no id is shared.
pub proof fn law_merge_reports_go_by_the_policy(a: GraphView, b: GraphView)
    requires
        consistent(a),
        consistent(b),
        b.nodes.dom().len() <= usize::MAX,
        b.relationships.dom().len() <= usize::MAX,
    ensures
        ({
            let kept = merge_report(a, b, MergePolicy::Keep);
            let over = merge_report(a, b, MergePolicy::Overwrite);
            &&& kept.nodes_overwritten == 0
            &&& over.nodes_kept == 0
            &&& kept.nodes_kept == over.nodes_overwritten
            &&& kept.nodes_added == over.nodes_added
            &&& a.nodes.dom().disjoint(b.nodes.dom()) ==> kept.nodes_added == b.nodes.dom().len()
                && kept.nodes_kept == 0
            &&& b.nodes.dom().subset_of(a.nodes.dom()) ==> kept.nodes_added == 0
                && kept.nodes_kept == b.nodes.dom().len()
            &&& a.relationships.dom().disjoint(b.relationships.dom())
                ==> kept.relationships_renamed == 0 && kept.relationships_added
                == b.relationships.dom().len()
            &&& b.relationships.dom().subset_of(a.relationships.dom()) ==> kept.relationships_added
                == 0 && kept.relationships_renamed == b.relationships.dom().len()
        }),
{
    lemma_shares(a.nodes.dom(), b.nodes.dom());
    lemma_shares(a.relationships.dom(), b.relationships.dom());
}

/// What two sets share, where they share all or nothing.
proof fn lemma_shares(a: Set<Seq<char>>, b: Set<Seq<char>>)
    ensures
        a.disjoint(b) ==> b.intersect(a).len() == 0 && b.difference(a) == b,
        b.subset_of(a) ==> b.difference(a).len() == 0 && b.intersect(a) == b,
{
    if a.disjoint(b) {
        assert(b.intersect(a) =~= Set::empty());
        assert(b.difference(a) =~= b);
    }
    if b.subset_of(a) {
        assert(b.difference(a) =~= Set::empty());
        assert(b.intersect(a) =~= b);
    }
}

/// A snapshot that can be loaded: no two nodes and no two relationships share an id, every weight
/// is finite, and every relationship joins nodes that are there.
pub open spec fn is_loadable(s: SnapshotView) -> bool {
    &&& forall|i: int, j: int|
        0 <= i < j < s.nodes.len() ==> (#[trigger] s.nodes[i]).id != (#[trigger] s.nodes[j]).id
    &&& forall|i: int, j: int|
        0 <= i < j < s.relationships.len() ==> (#[trigger] s.relationships[i]).id != (
        #[trigger] s.relationships[j]).id
    &&& forall|k: int| 0 <= k < s.relationships.len() ==> #[trigger] is_joined(s, k)
}

/// A relationship has a finite weight and joins nodes that are there.
pub open spec fn is_joined(s: SnapshotView, k: int) -> bool {
    let rel = s.relationships[k];
    &&& finite_double(rel.weight.bits)
    &&& exists|i: int| 0 <= i < s.nodes.len() && (#[trigger] s.nodes[i]).id == rel.from
    &&& exists|i: int| 0 <= i < s.nodes.len() && (#[trigger] s.nodes[i]).id == rel.to
}

/// Ids that occur.
proof fn lemma_node_id(v: Seq<NodeView>, id: Seq<char>)
    ensures
        node_ids(v).contains(id) <==> exists|i: int| 0 <= i < v.len() && (#[trigger] v[i]).id
            == id,
{
    let ids = node_ids(v);
    if ids.contains(id) {
        let i = choose|i: int| 0 <= i < ids.len() && ids[i] == id;
        assert(v[i].id == id);
    }
    if exists|i: int| 0 <= i < v.len() && (#[trigger] v[i]).id == id {
        let i = choose|i: int| 0 <= i < v.len() && (#[trigger] v[i]).id == id;
        assert(ids[i] == id);
    }
}

/// Nodes are refused exactly where two share an id.
proof fn lemma_nodes_loadable(nodes: Seq<NodeView>, k: int)
    requires
        0 <= k <= nodes.len(),
    ensures
        nodes_refusal(nodes, k) is None <==> forall|i: int, j: int|
            0 <= i < j < nodes.len() && k <= j ==> (#[trigger] nodes[i]).id != (
            #[trigger] nodes[j]).id,
    decreases nodes.len() - k,
{
    if k < nodes.len() {
        lemma_nodes_loadable(nodes, k + 1);
        lemma_node_id(nodes.take(k), nodes[k].id);
        if node_ids(nodes.take(k)).contains(nodes[k].id) {
            let i = choose|i: int|
                0 <= i < nodes.take(k).len() && (#[trigger] nodes.take(k)[i]).id == nodes[k].id;
            assert(nodes[i].id == nodes[k].id);
        } else {
            assert forall|i: int| 0 <= i < k implies (#[trigger] nodes[i]).id != nodes[k].id by {
                assert(nodes.take(k)[i] == nodes[i]);
            }
        }
    }
}

/// Ids of relationships that occur.
proof fn lemma_relationship_id(v: Seq<RelationshipView>, k: int)
    requires
        0 <= k < v.len(),
    ensures
        relationship_ids(v.take(k)).contains(v[k].id) <==> exists|i: int|
            0 <= i < k && (#[trigger] v[i]).id == v[k].id,
{
    let ids = relationship_ids(v.take(k));
    if ids.contains(v[k].id) {
        let i = choose|i: int| 0 <= i < ids.len() && ids[i] == v[k].id;
        assert(v[i].id == v[k].id);
    }
    if exists|i: int| 0 <= i < k && (#[trigger] v[i]).id == v[k].id {
        let i = choose|i: int| 0 <= i < k && (#[trigger] v[i]).id == v[k].id;
        assert(ids[i] == v[k].id);
    }
}

/// Relationships are refused exactly where two share an id, or one does not join nodes.
proof fn lemma_relationships_loadable(s: SnapshotView, k: int)
    requires
        0 <= k <= s.relationships.len(),
    ensures
        relationships_refusal(s, k) is None <==> (forall|i: int, j: int|
            0 <= i < j < s.relationships.len() && k <= j ==> (#[trigger] s.relationships[i]).id != (
            #[trigger] s.relationships[j]).id) && forall|j: int|
            k <= j < s.relationships.len() ==> #[trigger] is_joined(s, j),
    decreases s.relationships.len() - k,
{
    if k < s.relationships.len() {
        lemma_relationships_loadable(s, k + 1);
        let rel = s.relationships[k];
        lemma_relationship_id(s.relationships, k);
        lemma_node_id(s.nodes, rel.from);
        lemma_node_id(s.nodes, rel.to);
        assert(relationship_refusal(s, k) is None <==> is_joined(s, k) && !exists|i: int|
            0 <= i < k && (#[trigger] s.relationships[i]).id == rel.id);
    }
}

/// A snapshot is loaded exactly where it can be.
pub proof fn law_loadable_snapshots_are_loaded(s: SnapshotView)
    ensures
        snapshot_refusal(s) is None <==> is_loadable(s),
{
    lemma_nodes_loadable(s.nodes, 0);
    lemma_relationships_loadable(s, 0);
}

/// What is loaded is what the snapshot holds: every node and every relationship, under its id.
pub proof fn law_snapshots_are_loaded_whole(s: SnapshotView, i: int, k: int)
    requires
        is_loadable(s),
        0 <= i < s.nodes.len(),
        0 <= k < s.relationships.len(),
    ensures
        ({
            let g = graph_of(s);
            &&& g.nodes.dom().contains(s.nodes[i].id) && g.nodes[s.nodes[i].id] == s.nodes[i]
            &&& g.relationships.dom().contains(s.relationships[k].id)
                && g.relationships[s.relationships[k].id] == s.relationships[k]
        }),
{
    lemma_node_loaded(s.nodes, i);
    lemma_relationship_loaded(s.relationships, k);
}

/// A node is found under its id.
proof fn lemma_node_loaded(v: Seq<NodeView>, i: int)
    requires
        0 <= i < v.len(),
        forall|a: int, b: int|
            0 <= a < b < v.len() ==> (#[trigger] v[a]).id != (#[trigger] v[b]).id,
    ensures
        nodes_by_id(v).dom().contains(v[i].id),
        nodes_by_id(v)[v[i].id] == v[i],
    decreases v.len(),
{
    if i < v.len() - 1 {
        let rest = v.drop_last();
        assert forall|a: int, b: int| 0 <= a < b < rest.len() implies (#[trigger] rest[a]).id != (
        #[trigger] rest[b]).id by {
            assert(rest[a] == v[a] && rest[b] == v[b]);
        }
        lemma_node_loaded(rest, i);
        assert(v[i].id != v[v.len() - 1].id);
    }
}

/// A relationship is found under its id.
proof fn lemma_relationship_loaded(v: Seq<RelationshipView>, i: int)
    requires
        0 <= i < v.len(),
        forall|a: int, b: int|
            0 <= a < b < v.len() ==> (#[trigger] v[a]).id != (#[trigger] v[b]).id,
    ensures
        relationships_by_id(v).dom().contains(v[i].id),
        relationships_by_id(v)[v[i].id] == v[i],
    decreases v.len(),
{
    if i < v.len() - 1 {
        let rest = v.drop_last();
        assert forall|a: int, b: int| 0 <= a < b < rest.len() implies (#[trigger] rest[a]).id != (
        #[trigger] rest[b]).id by {
            assert(rest[a] == v[a] && rest[b] == v[b]);
        }
        lemma_relationship_loaded(rest, i);
        assert(v[i].id != v[v.len() - 1].id);
    }
}

/// What a part of a text holds, the text holds.
proof fn lemma_held(before: Seq<char>, part: Seq<char>, behind: Seq<char>, needle: Seq<char>)
    requires
        has_substring(part, needle),
    ensures
        has_substring(before + part + behind, needle),
{
    let i = choose|i: int| 0 <= i <= part.len() && #[trigger] has_prefix(part.skip(i), needle);
    let whole = before + part + behind;
    let at = before.len() + i;
    assert(whole.skip(at).take(needle.len() as int) =~= part.skip(i).take(needle.len() as int));
    assert(has_prefix(whole.skip(at), needle));
}

/// Every text holds itself.
proof fn lemma_holds_itself(s: Seq<char>)
    ensures
        has_substring(s, s),
{
    assert(s.skip(0) =~= s);
    assert(s.take(s.len() as int) =~= s);
    assert(has_prefix(s.skip(0), s));
}

/// The lines of nodes hold each of them.
proof fn lemma_node_lines(m: Map<Seq<char>, NodeView>, ids: Seq<Seq<char>>, k: int)
    requires
        0 <= k < ids.len(),
    ensures
        has_substring(node_lines(m, ids), node_line(m[ids[k]])),
    decreases ids.len(),
{
    let rest = ids.drop_last();
    let last = node_line(m[ids.last()]);
    let before = node_lines(m, rest);
    if k == ids.len() - 1 {
        lemma_holds_itself(last);
        lemma_held(before, last, Seq::empty(), last);
        assert(before + last + Seq::<char>::empty() =~= before + last);
    } else {
        lemma_node_lines(m, rest, k);
        lemma_held(Seq::empty(), before, last, node_line(m[ids[k]]));
        assert(Seq::<char>::empty() + before + last =~= before + last);
    }
}

/// The lines of relationships hold each of them.
proof fn lemma_relationship_lines(
    m: Map<Seq<char>, RelationshipView>,
    ids: Seq<Seq<char>>,
    k: int,
)
    requires
        0 <= k < ids.len(),
    ensures
        has_substring(relationship_lines(m, ids), relationship_line(m[ids[k]])),
    decreases ids.len(),
{
    let rest = ids.drop_last();
    let last = relationship_line(m[ids.last()]);
    let before = relationship_lines(m, rest);
    if k == ids.len() - 1 {
        lemma_holds_itself(last);
        lemma_held(before, last, Seq::empty(), last);
        assert(before + last + Seq::<char>::empty() =~= before + last);
    } else {
        lemma_relationship_lines(m, rest, k);
        lemma_held(Seq::empty(), before, last, relationship_line(m[ids[k]]));
        assert(Seq::<char>::empty() + before + last =~= before + last);
    }
}

/// A graph that is shown says how much there is of it, shows as many nodes and relationships as it
/// may, in the order of their ids, and says how many it leaves out.
pub proof fn law_graphs_are_shown_in_order(
    g: GraphView,
    max_nodes: nat,
    max_relationships: nat,
    k: int,
)
    requires
        consistent(g),
        0 <= k,
    ensures
        ({
            let text = render_text(g, max_nodes, max_relationships);
            let nodes = listing(g.nodes.dom());
            let rels = listing(g.relationships.dom());
            &&& has_prefix(
                text,
                "CUCA graph memory:"@ + " "@ + decimal(g.nodes.dom().len()) + " nodes, "@ + decimal(
                    g.relationships.dom().len(),
                ) + " relationships\n"@,
            )
            &&& is_listing(nodes, g.nodes.dom())
            &&& is_listing(rels, g.relationships.dom())
            &&& k < nodes.len() && k < max_nodes ==> has_substring(
                text,
                node_line(g.nodes[nodes[k]]),
            )
            &&& k < rels.len() && k < max_relationships ==> has_substring(
                text,
                relationship_line(g.relationships[rels[k]]),
            )
            &&& g.nodes.dom().len() > max_nodes ==> has_substring(
                text,
                "... "@ + decimal((g.nodes.dom().len() - max_nodes) as nat) + " more "@ + "nodes"@
                    + " omitted\n"@,
            )
            &&& g.relationships.dom().len() > max_relationships ==> has_substring(
                text,
                "... "@ + decimal((g.relationships.dom().len() - max_relationships) as nat)
                    + " more "@ + "relationships"@ + " omitted\n"@,
            )
        }),
{
    let n = g.nodes.dom().len();
    let r = g.relationships.dom().len();
    law_finite_sets_are_listed(g.nodes.dom());
    law_finite_sets_are_listed(g.relationships.dom());
    let nodes = listing(g.nodes.dom());
    let rels = listing(g.relationships.dom());
    let head = "CUCA graph memory:"@ + " "@ + decimal(n) + " nodes, "@ + decimal(r)
        + " relationships\n"@;
    let shown = node_lines(g.nodes, first_ids(nodes, max_nodes));
    let left = omission_line(n, max_nodes, "nodes"@);
    let joined = relationship_lines(g.relationships, first_ids(rels, max_relationships));
    let more = omission_line(r, max_relationships, "relationships"@);
    let text = render_text(g, max_nodes, max_relationships);
    assert(text =~= head + shown + left + joined + more);
    assert(text.take(head.len() as int) =~= head);
    if k < nodes.len() && k < max_nodes {
        let ids = first_ids(nodes, max_nodes);
        assert(ids[k] == nodes[k]);
        lemma_node_lines(g.nodes, ids, k);
        lemma_held(head, shown, left + joined + more, node_line(g.nodes[nodes[k]]));
        assert(text =~= head + shown + (left + joined + more));
    }
    if k < rels.len() && k < max_relationships {
        let ids = first_ids(rels, max_relationships);
        assert(ids[k] == rels[k]);
        lemma_relationship_lines(g.relationships, ids, k);
        lemma_held(
            head + shown + left,
            joined,
            more,
            relationship_line(g.relationships[rels[k]]),
        );
        assert(text =~= (head + shown + left) + joined + more);
    }
    if n > max_nodes {
        lemma_holds_itself(left);
        lemma_held(head + shown, left, joined + more, left);
        assert(text =~= (head + shown) + left + (joined + more));
    }
    if r > max_relationships {
        lemma_holds_itself(more);
        lemma_held(head + shown + left + joined, more, Seq::empty(), more);
        assert(text =~= (head + shown + left + joined) + more + Seq::empty());
    }
}

/// The line of a node has its id and, where there are any, its labels and its properties.
pub proof fn law_node_lines_say_the_node(node: NodeView)
    ensures
        node_line(node) == "node "@ + node.id + ":"@ + (if node.labels.len() > 0 {
            " labels=["@ + comma_joined(node.labels) + "]"@
        } else {
            Seq::empty()
        }) + (if node.properties.len() > 0 {
            " props="@ + json_text(JsonView::Object(node.properties))
        } else {
            Seq::empty()
        }) + "\n"@,
{
}

/// The line of a relationship has its id, its ends in order with its kind between them, its weight
/// and, where there are any, its properties.
pub proof fn law_relationship_lines_say_the_relationship(rel: RelationshipView)
    ensures
        relationship_line(rel) == "rel "@ + rel.id + ": "@ + rel.from + " -["@ + rel.kind + "]-> "@
            + rel.to + " weight="@ + rel.weight.text + (if rel.properties.len() > 0 {
            " props="@ + json_text(JsonView::Object(rel.properties))
        } else {
            Seq::empty()
        }) + "\n"@,
{
}

/// Labels stand one after the other, with commas between them.
pub proof fn law_labels_stand_between_commas(labels: Seq<Seq<char>>, label: Seq<char>)
    ensures
        comma_joined(seq![label]) == label,
        labels.len() > 0 ==> comma_joined(labels.push(label)) == comma_joined(labels) + ", "@
            + label,
{
    if labels.len() > 0 {
        assert(labels.push(label).drop_last() =~= labels);
    }
}

} // verus!
