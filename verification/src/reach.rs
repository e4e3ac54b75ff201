//! Reachability in the stored relation graph, and the acyclicity gate.
//!
//! The relation store is modelled as a map from `(from, to)` id pairs to
//! edges. A walk is a nonempty sequence of ids whose consecutive pairs are
//! all stored edges; the graph is acyclic when no walk of at least one edge
//! returns to its start. [`would_create_cycle`] decides, by an iterative
//! depth-first search with a visited set, whether storing one more edge
//! would close a cycle, and is proved to decide exactly reachability.

use vstd::prelude::*;
use vstd::seq_lib::*;
use vstd::set_lib::*;
use crate::types::{Edge, EdgeV};

verus! {

/// The `(from, to)` key under which an edge is stored.
pub open spec fn edge_key(e: EdgeV) -> (Seq<char>, Seq<char>) {
    (e.from, e.to)
}

/// No two entries of the stored edge sequence share a key.
pub open spec fn unique_keys(s: Seq<EdgeV>) -> bool {
    forall|i: int, j: int|
        0 <= i < s.len() && 0 <= j < s.len() && i != j ==> edge_key(s[i]) != edge_key(s[j])
}

/// The relation map held by a sequence of stored edges: each edge under its
/// `(from, to)` key, later entries shadowing earlier ones.
pub open spec fn rel_map(s: Seq<EdgeV>) -> Map<(Seq<char>, Seq<char>), EdgeV>
    decreases s.len(),
{
    if s.len() == 0 {
        Map::empty()
    } else {
        rel_map(s.drop_last()).insert(edge_key(s.last()), s.last())
    }
}

/// The spec-level values of a sequence of stored edges.
pub open spec fn edge_views(s: Seq<Edge>) -> Seq<EdgeV> {
    s.map_values(|e: Edge| e@)
}

/// Whether the relation graph holds an edge from `a` to `b`.
pub open spec fn has_edge(m: Map<(Seq<char>, Seq<char>), EdgeV>, a: Seq<char>, b: Seq<char>) -> bool {
    m.contains_key((a, b))
}

/// `p` is a walk in the relation graph: nonempty, and each consecutive pair
/// of entries is connected by a stored edge.
pub open spec fn is_path(m: Map<(Seq<char>, Seq<char>), EdgeV>, p: Seq<Seq<char>>) -> bool {
    &&& p.len() >= 1
    &&& forall|i: int| #![trigger p[i]] 0 <= i < p.len() - 1 ==> has_edge(m, p[i], p[i + 1])
}

/// `b` can be reached from `a` by following zero or more stored edges.
pub open spec fn reaches(
    m: Map<(Seq<char>, Seq<char>), EdgeV>,
    a: Seq<char>,
    b: Seq<char>,
) -> bool {
    exists|p: Seq<Seq<char>>| is_path(m, p) && p.first() == a && p.last() == b
}

/// No walk of at least one edge returns to its starting point.
pub open spec fn acyclic(m: Map<(Seq<char>, Seq<char>), EdgeV>) -> bool {
    forall|p: Seq<Seq<char>>| !(#[trigger] is_path(m, p) && p.len() >= 2 && p.first() == p.last())
}

/// Storing the edge `from -> to` would close a cycle exactly when `from` is
/// already reachable from `to`. A self-loop is always a cycle, since every
/// id reaches itself by the trivial walk.
pub open spec fn creates_cycle(
    m: Map<(Seq<char>, Seq<char>), EdgeV>,
    from: Seq<char>,
    to: Seq<char>,
) -> bool {
    reaches(m, to, from)
}

/// Every id reaches itself, by the walk of that one id.
pub proof fn lemma_reaches_refl(m: Map<(Seq<char>, Seq<char>), EdgeV>, a: Seq<char>)
    ensures
        reaches(m, a, a),
{
    let p = seq![a];
    assert(is_path(m, p));
    assert(p.first() == a && p.last() == a);
}

/// Reachability extends along a stored edge.
pub proof fn lemma_reaches_step(
    m: Map<(Seq<char>, Seq<char>), EdgeV>,
    a: Seq<char>,
    b: Seq<char>,
    c: Seq<char>,
)
    requires
        reaches(m, a, b),
        has_edge(m, b, c),
    ensures
        reaches(m, a, c),
{
    let p = choose|p: Seq<Seq<char>>| is_path(m, p) && p.first() == a && p.last() == b;
    let q = p.push(c);
    assert forall|i: int| 0 <= i < q.len() - 1 implies has_edge(m, #[trigger] q[i], q[i + 1]) by {
        if i < p.len() - 1 {
            assert(q[i] == p[i] && q[i + 1] == p[i + 1]);
        } else {
            assert(q[i] == p.last() && q[i + 1] == c);
        }
    }
    assert(is_path(m, q));
    assert(q.first() == a && q.last() == c);
}

/// `vs` is closed under the stored edges: no edge leads out of it.
pub open spec fn edge_closed(m: Map<(Seq<char>, Seq<char>), EdgeV>, vs: Set<Seq<char>>) -> bool {
    forall|x: Seq<char>, y: Seq<char>|
        vs.contains(x) && #[trigger] has_edge(m, x, y) ==> vs.contains(y)
}

/// A walk that starts inside a closed set ends inside it.
proof fn lemma_path_stays_in_closed(
    m: Map<(Seq<char>, Seq<char>), EdgeV>,
    vs: Set<Seq<char>>,
    p: Seq<Seq<char>>,
)
    requires
        is_path(m, p),
        vs.contains(p.first()),
        edge_closed(m, vs),
    ensures
        vs.contains(p.last()),
    decreases p.len(),
{
    if p.len() > 1 {
        assert(has_edge(m, p[0], p[1]));
        let q = p.drop_first();
        assert forall|i: int| 0 <= i < q.len() - 1 implies has_edge(m, #[trigger] q[i], q[i + 1]) by {
            assert(q[i] == p[i + 1] && q[i + 1] == p[i + 2]);
        }
        assert(is_path(m, q));
        assert(q.first() == p[1] && q.last() == p.last());
        lemma_path_stays_in_closed(m, vs, q);
    }
}

/// Out of a closed set containing `a` but not `b`, nothing reaches `b`.
pub proof fn lemma_closed_no_reach(
    m: Map<(Seq<char>, Seq<char>), EdgeV>,
    vs: Set<Seq<char>>,
    a: Seq<char>,
    b: Seq<char>,
)
    requires
        vs.contains(a),
        edge_closed(m, vs),
        !vs.contains(b),
    ensures
        !reaches(m, a, b),
{
    if reaches(m, a, b) {
        let p = choose|p: Seq<Seq<char>>| is_path(m, p) && p.first() == a && p.last() == b;
        lemma_path_stays_in_closed(m, vs, p);
    }
}

/// In the graph with the edge `from -> to` added, any walk from an id that
/// `to` already reached back to `from` shows that `from` was reachable from
/// `to` without the new edge: the first use of the new edge would already
/// have to start at `from`.
proof fn lemma_walk_back_reaches_from(
    m: Map<(Seq<char>, Seq<char>), EdgeV>,
    from: Seq<char>,
    to: Seq<char>,
    e: EdgeV,
    q: Seq<Seq<char>>,
)
    requires
        is_path(m.insert((from, to), e), q),
        reaches(m, to, q.first()),
        q.last() == from,
    ensures
        reaches(m, to, from),
    decreases q.len(),
{
    if q.len() == 1 {
        assert(reaches(m, to, from));
    } else {
        assert(has_edge(m.insert((from, to), e), q[0], q[1]));
        if q[0] == from && q[1] == to {
            assert(reaches(m, to, from));
        } else {
            assert(has_edge(m, q[0], q[1]));
            lemma_reaches_step(m, to, q[0], q[1]);
            let r = q.drop_first();
            assert forall|i: int| 0 <= i < r.len() - 1 implies has_edge(
                m.insert((from, to), e),
                #[trigger] r[i],
                r[i + 1],
            ) by {
                assert(r[i] == q[i + 1] && r[i + 1] == q[i + 2]);
            }
            assert(is_path(m.insert((from, to), e), r));
            assert(r.first() == q[1] && r.last() == from);
            lemma_walk_back_reaches_from(m, from, to, e, r);
        }
    }
}

/// A key is in the relation map exactly when some stored edge carries it.
pub proof fn lemma_rel_map_contains(s: Seq<EdgeV>)
    ensures
        forall|k: (Seq<char>, Seq<char>)| #[trigger]
            rel_map(s).contains_key(k) <==> exists|i: int|
                0 <= i < s.len() && #[trigger] edge_key(s[i]) == k,
    decreases s.len(),
{
    if s.len() > 0 {
        let t = s.drop_last();
        lemma_rel_map_contains(t);
        assert forall|k: (Seq<char>, Seq<char>)| #[trigger]
            rel_map(s).contains_key(k) <==> exists|i: int|
                0 <= i < s.len() && #[trigger] edge_key(s[i]) == k by {
            if rel_map(s).contains_key(k) {
                if k == edge_key(s.last()) {
                    assert(edge_key(s[s.len() - 1]) == k);
                } else {
                    assert(rel_map(t).contains_key(k));
                    assert(exists|i: int| 0 <= i < t.len() && #[trigger] edge_key(t[i]) == k);
                    let i = choose|i: int| 0 <= i < t.len() && #[trigger] edge_key(t[i]) == k;
                    assert(t[i] == s[i]);
                    assert(edge_key(s[i]) == k);
                }
            }
            if exists|i: int| 0 <= i < s.len() && #[trigger] edge_key(s[i]) == k {
                let i = choose|i: int| 0 <= i < s.len() && #[trigger] edge_key(s[i]) == k;
                if i == s.len() - 1 {
                    assert(rel_map(s).contains_key(k));
                } else {
                    assert(edge_key(t[i]) == k);
                    assert(rel_map(t).contains_key(k));
                }
            }
        }
    }
}

/// With unique keys, the relation map holds each stored edge under its key.
pub proof fn lemma_rel_map_index(s: Seq<EdgeV>)
    requires
        unique_keys(s),
    ensures
        forall|i: int|
            0 <= i < s.len() ==> rel_map(s).contains_key(#[trigger] edge_key(s[i])) && rel_map(s)[
                edge_key(s[i])
            ] == s[i],
    decreases s.len(),
{
    if s.len() > 0 {
        let t = s.drop_last();
        assert(unique_keys(t));
        lemma_rel_map_index(t);
        assert forall|i: int|
            0 <= i < s.len() implies rel_map(s).contains_key(#[trigger] edge_key(s[i]))
            && rel_map(s)[edge_key(s[i])] == s[i] by {
            if i < s.len() - 1 {
                assert(edge_key(t[i]) == edge_key(s[i]));
                assert(edge_key(s[i]) != edge_key(s[s.len() - 1]));
            }
        }
    }
}

/// Appending an edge whose key is fresh adds exactly that entry to the map.
pub proof fn lemma_rel_map_push(s: Seq<EdgeV>, e: EdgeV)
    ensures
        rel_map(s.push(e)) == rel_map(s).insert(edge_key(e), e),
{
    assert(s.push(e).drop_last() =~= s);
    assert(s.push(e).last() == e);
}

/// Overwriting the one stored edge of a key updates exactly that entry of
/// the map.
pub proof fn lemma_rel_map_update(s: Seq<EdgeV>, i: int, e: EdgeV)
    requires
        unique_keys(s),
        0 <= i < s.len(),
        edge_key(e) == edge_key(s[i]),
    ensures
        rel_map(s.update(i, e)) == rel_map(s).insert(edge_key(e), e),
    decreases s.len(),
{
    let u = s.update(i, e);
    if i == s.len() - 1 {
        assert(u.drop_last() =~= s.drop_last());
        assert(u.last() == e);
        assert(rel_map(u) == rel_map(s.drop_last()).insert(edge_key(e), e));
        assert(rel_map(s).insert(edge_key(e), e) =~= rel_map(s.drop_last()).insert(
            edge_key(e),
            e,
        ));
    } else {
        let t = s.drop_last();
        assert(unique_keys(t));
        assert(t[i] == s[i]);
        lemma_rel_map_update(t, i, e);
        assert(u.drop_last() =~= t.update(i, e));
        assert(u.last() == s.last());
        assert(rel_map(u) == rel_map(t).insert(edge_key(e), e).insert(
            edge_key(s.last()),
            s.last(),
        ));
        assert(edge_key(s[i]) != edge_key(s[s.len() - 1]));
        assert(rel_map(t).insert(edge_key(e), e).insert(edge_key(s.last()), s.last())
            =~= rel_map(t).insert(edge_key(s.last()), s.last()).insert(edge_key(e), e));
    }
}

/// The spec-level ids of a vector of id strings.
pub open spec fn id_views(s: Seq<String>) -> Seq<Seq<char>> {
    s.map_values(|x: String| x@)
}

/// The set of ids that stored edges point at.
pub open spec fn edge_targets(s: Seq<Edge>) -> Set<Seq<char>> {
    edge_views(s).map_values(|e: EdgeV| e.to).to_set()
}

/// Whether some entry of `v` holds the given id.
pub(crate) fn contains_id(v: &Vec<String>, x: &String) -> (r: bool)
    ensures
        r == id_views(v@).contains(x@),
{
    let mut i: usize = 0;
    while i < v.len()
        invariant
            i <= v.len(),
            forall|j: int| 0 <= j < i ==> id_views(v@)[j] != x@,
        decreases v.len() - i,
    {
        if v[i] == *x {
            assert(id_views(v@)[i as int] == x@);
            return true;
        }
        i = i + 1;
    }
    assert(!id_views(v@).contains(x@));
    false
}

/// The acyclicity gate is sound: storing an edge whose reverse direction is
/// unreachable keeps the relation graph acyclic.
pub proof fn lemma_insert_edge_acyclic(
    m: Map<(Seq<char>, Seq<char>), EdgeV>,
    from: Seq<char>,
    to: Seq<char>,
    e: EdgeV,
)
    requires
        acyclic(m),
        !creates_cycle(m, from, to),
    ensures
        acyclic(m.insert((from, to), e)),
{
    let m2 = m.insert((from, to), e);
    assert forall|p: Seq<Seq<char>>|
        !(#[trigger] is_path(m2, p) && p.len() >= 2 && p.first() == p.last()) by {
        if is_path(m2, p) && p.len() >= 2 && p.first() == p.last() {
            if forall|i: int| #![trigger p[i]] 0 <= i < p.len() - 1 ==> has_edge(m, p[i], p[i + 1]) {
                assert(is_path(m, p));
            } else {
                let j = choose|i: int|
                    0 <= i < p.len() - 1 && #[trigger] p[i] == p[i] && !has_edge(m, p[i], p[i + 1]);
                assert(has_edge(m2, p[j], p[j + 1]));
                assert(p[j] == from && p[j + 1] == to);
                // Walk around the cycle from the target of the new edge back
                // to its source: p[j+1], ..., p[len-1] == p[0], p[1], ..., p[j].
                let n = p.len() as int;
                let r = p.subrange(j + 1, n) + p.subrange(1, j + 1);
                assert(r.len() == n - 1 + 0 - j + j == n - 1);
                assert(r.first() == p[j + 1]);
                assert(r.last() == if j >= 1 { p[j] } else { p[n - 1] });
                assert(r.last() == from);
                assert forall|i: int| 0 <= i < r.len() - 1 implies has_edge(
                    m2,
                    #[trigger] r[i],
                    r[i + 1],
                ) by {
                    if i < n - 1 - (j + 1) {
                        assert(r[i] == p[j + 1 + i] && r[i + 1] == p[j + 2 + i]);
                    } else if i == n - 1 - (j + 1) {
                        // junction: p[n-1] == p[0] steps to p[1]
                        assert(r[i] == p[n - 1] && r[i + 1] == p[1]);
                        assert(has_edge(m2, p[0], p[1]));
                    } else {
                        assert(r[i] == p[i - (n - 1 - (j + 1)) - 1 + 1] && r[i + 1] == p[i - (n - 1
                            - (j + 1)) + 1]);
                    }
                }
                assert(is_path(m2, r));
                lemma_reaches_refl(m, to);
                lemma_walk_back_reaches_from(m, from, to, e, r);
            }
        }
    }
}

/// Reachability extends backwards along a stored edge.
pub proof fn lemma_reaches_prepend(
    m: Map<(Seq<char>, Seq<char>), EdgeV>,
    a: Seq<char>,
    b: Seq<char>,
    c: Seq<char>,
)
    requires
        has_edge(m, a, b),
        reaches(m, b, c),
    ensures
        reaches(m, a, c),
{
    let p = choose|p: Seq<Seq<char>>| is_path(m, p) && p.first() == b && p.last() == c;
    let q = seq![a] + p;
    assert forall|i: int| 0 <= i < q.len() - 1 implies has_edge(m, #[trigger] q[i], q[i + 1]) by {
        if i == 0 {
            assert(q[0] == a && q[1] == p[0]);
        } else {
            assert(q[i] == p[i - 1] && q[i + 1] == p[i]);
        }
    }
    assert(is_path(m, q));
    assert(q.first() == a && q.last() == c);
}

/// A graph with no edges at all holds no walk of length two, so it is
/// acyclic.
pub proof fn lemma_no_edges_acyclic(m: Map<(Seq<char>, Seq<char>), EdgeV>)
    requires
        forall|a: Seq<char>, b: Seq<char>| !has_edge(m, a, b),
    ensures
        acyclic(m),
{
    assert forall|p: Seq<Seq<char>>|
        !(#[trigger] is_path(m, p) && p.len() >= 2 && p.first() == p.last()) by {
        if is_path(m, p) && p.len() >= 2 {
            assert(has_edge(m, p[0], p[1]));
        }
    }
}

/// Two graphs with the same edges have the same walks: reachability and
/// acyclicity carry over.
pub proof fn lemma_same_edges_same_reach(
    m1: Map<(Seq<char>, Seq<char>), EdgeV>,
    m2: Map<(Seq<char>, Seq<char>), EdgeV>,
)
    requires
        forall|a: Seq<char>, b: Seq<char>| has_edge(m1, a, b) <==> has_edge(m2, a, b),
    ensures
        forall|p: Seq<Seq<char>>| #[trigger] is_path(m1, p) <==> is_path(m2, p),
        forall|a: Seq<char>, b: Seq<char>| #[trigger] reaches(m1, a, b) <==> reaches(m2, a, b),
        acyclic(m1) <==> acyclic(m2),
{
    assert forall|p: Seq<Seq<char>>| #[trigger] is_path(m1, p) <==> is_path(m2, p) by {
        if is_path(m1, p) {
            assert forall|i: int| 0 <= i < p.len() - 1 implies has_edge(m2, #[trigger] p[i], p[i + 1]) by {
                assert(has_edge(m1, p[i], p[i + 1]));
            }
        }
        if is_path(m2, p) {
            assert forall|i: int| 0 <= i < p.len() - 1 implies has_edge(m1, #[trigger] p[i], p[i + 1]) by {
                assert(has_edge(m2, p[i], p[i + 1]));
            }
        }
    }
    assert forall|a: Seq<char>, b: Seq<char>| #[trigger] reaches(m1, a, b) <==> reaches(m2, a, b) by {
        if reaches(m1, a, b) {
            let p = choose|p: Seq<Seq<char>>| is_path(m1, p) && p.first() == a && p.last() == b;
            assert(is_path(m2, p));
        }
        if reaches(m2, a, b) {
            let p = choose|p: Seq<Seq<char>>| is_path(m2, p) && p.first() == a && p.last() == b;
            assert(is_path(m1, p));
        }
    }
    if acyclic(m1) {
        assert forall|p: Seq<Seq<char>>|
            !(#[trigger] is_path(m2, p) && p.len() >= 2 && p.first() == p.last()) by {
            if is_path(m2, p) {
                assert(is_path(m1, p));
            }
        }
    }
    if acyclic(m2) {
        assert forall|p: Seq<Seq<char>>|
            !(#[trigger] is_path(m1, p) && p.len() >= 2 && p.first() == p.last()) by {
            if is_path(m1, p) {
                assert(is_path(m2, p));
            }
        }
    }
}

/// A graph whose edges are a subset of an acyclic graph's is acyclic.
pub proof fn lemma_edge_subset_acyclic(
    m1: Map<(Seq<char>, Seq<char>), EdgeV>,
    m2: Map<(Seq<char>, Seq<char>), EdgeV>,
)
    requires
        acyclic(m2),
        forall|a: Seq<char>, b: Seq<char>| has_edge(m1, a, b) ==> has_edge(m2, a, b),
    ensures
        acyclic(m1),
{
    assert forall|p: Seq<Seq<char>>|
        !(#[trigger] is_path(m1, p) && p.len() >= 2 && p.first() == p.last()) by {
        if is_path(m1, p) && p.len() >= 2 && p.first() == p.last() {
            assert forall|i: int| 0 <= i < p.len() - 1 implies has_edge(m2, #[trigger] p[i], p[i + 1]) by {
                assert(has_edge(m1, p[i], p[i + 1]));
            }
            assert(is_path(m2, p));
        }
    }
}

/// In a graph extended only by edges leaving `x`, a walk that ends at an id
/// that already reached `x` starts at one too: the added edges cannot enter
/// the region that reaches `x`, since none of their targets reaches it.
proof fn lemma_walk_into_reaching_region(
    m1: Map<(Seq<char>, Seq<char>), EdgeV>,
    m2: Map<(Seq<char>, Seq<char>), EdgeV>,
    x: Seq<char>,
    ts: Set<Seq<char>>,
    q: Seq<Seq<char>>,
)
    requires
        forall|t: Seq<char>| ts.contains(t) ==> !reaches(m1, t, x),
        forall|a: Seq<char>, b: Seq<char>|
            #[trigger] has_edge(m2, a, b) <==> (has_edge(m1, a, b) || (a == x && ts.contains(b))),
        is_path(m2, q),
        reaches(m1, q.last(), x),
    ensures
        reaches(m1, q.first(), x),
    decreases q.len(),
{
    if q.len() > 1 {
        let n = q.len() as int;
        let a = q[n - 2];
        let b = q[n - 1];
        assert(has_edge(m2, a, b));
        if a == x && ts.contains(b) {
            assert(!reaches(m1, b, x));
        } else {
            assert(has_edge(m1, a, b));
        }
        lemma_reaches_prepend(m1, a, b, x);
        let q2 = q.drop_last();
        assert forall|i: int| 0 <= i < q2.len() - 1 implies has_edge(m2, #[trigger] q2[i], q2[i + 1]) by {
            assert(q2[i] == q[i] && q2[i + 1] == q[i + 1]);
        }
        assert(is_path(m2, q2));
        assert(q2.last() == a && q2.first() == q.first());
        lemma_walk_into_reaching_region(m1, m2, x, ts, q2);
    }
}

/// Adding edges that all leave one id keeps the graph acyclic, provided no
/// target of a new edge reaches back to that id and the id is not its own
/// target: how a block's parent links are admitted all at once.
pub proof fn lemma_add_out_edges_acyclic(
    m1: Map<(Seq<char>, Seq<char>), EdgeV>,
    m2: Map<(Seq<char>, Seq<char>), EdgeV>,
    x: Seq<char>,
    ts: Set<Seq<char>>,
)
    requires
        acyclic(m1),
        !ts.contains(x),
        forall|t: Seq<char>| ts.contains(t) ==> !reaches(m1, t, x),
        forall|a: Seq<char>, b: Seq<char>|
            #[trigger] has_edge(m2, a, b) <==> (has_edge(m1, a, b) || (a == x && ts.contains(b))),
    ensures
        acyclic(m2),
{
    assert forall|p: Seq<Seq<char>>|
        !(#[trigger] is_path(m2, p) && p.len() >= 2 && p.first() == p.last()) by {
        if is_path(m2, p) && p.len() >= 2 && p.first() == p.last() {
            if forall|i: int| #![trigger p[i]] 0 <= i < p.len() - 1 ==> has_edge(m1, p[i], p[i + 1]) {
                assert(is_path(m1, p));
            } else {
                let j = choose|i: int|
                    0 <= i < p.len() - 1 && #[trigger] p[i] == p[i] && !has_edge(m1, p[i], p[i + 1]);
                assert(has_edge(m2, p[j], p[j + 1]));
                assert(p[j] == x && ts.contains(p[j + 1]));
                // walk around the cycle from the new edge's target back to x
                let n = p.len() as int;
                let r = p.subrange(j + 1, n) + p.subrange(1, j + 1);
                assert(r.len() == n - 1);
                assert(r.first() == p[j + 1]);
                assert(r.last() == if j >= 1 { p[j] } else { p[n - 1] });
                assert(r.last() == x);
                assert forall|i: int| 0 <= i < r.len() - 1 implies has_edge(
                    m2,
                    #[trigger] r[i],
                    r[i + 1],
                ) by {
                    if i < n - 1 - (j + 1) {
                        assert(r[i] == p[j + 1 + i] && r[i + 1] == p[j + 2 + i]);
                    } else if i == n - 1 - (j + 1) {
                        assert(r[i] == p[n - 1] && r[i + 1] == p[1]);
                        assert(has_edge(m2, p[0], p[1]));
                    } else {
                        assert(r[i] == p[i - (n - 1 - (j + 1)) - 1 + 1] && r[i + 1] == p[i - (n - 1
                            - (j + 1)) + 1]);
                    }
                }
                assert(is_path(m2, r));
                lemma_reaches_refl(m1, x);
                lemma_walk_into_reaching_region(m1, m2, x, ts, r);
                assert(reaches(m1, p[j + 1], x));
            }
        }
    }
}

/// Overwriting a relation is idempotent and always allowed: once an acyclic
/// graph admitted the key `(from, to)`, writing that key again cannot close
/// a cycle, two writes to one key leave exactly the later record, and that
/// record is what a lookup of the key returns.
pub proof fn lemma_relation_overwrite(
    m: Map<(Seq<char>, Seq<char>), EdgeV>,
    e1: EdgeV,
    e2: EdgeV,
)
    requires
        acyclic(m),
        edge_key(e1) == edge_key(e2),
        !creates_cycle(m, e1.from, e1.to),
    ensures
        !creates_cycle(m.insert(edge_key(e1), e1), e2.from, e2.to),
        m.insert(edge_key(e1), e1).insert(edge_key(e2), e2) == m.insert(edge_key(e2), e2),
        m.insert(edge_key(e2), e2)[edge_key(e2)] == e2,
{
    let m1 = m.insert(edge_key(e1), e1);
    lemma_insert_edge_acyclic(m, e1.from, e1.to, e1);
    assert(e2.from == e1.from && e2.to == e1.to);
    if reaches(m1, e2.to, e2.from) {
        // a walk back from the target would close a cycle with the stored
        // edge, against the acyclicity just established
        let q = choose|q: Seq<Seq<char>>|
            is_path(m1, q) && q.first() == e1.to && q.last() == e1.from;
        let c = seq![e1.from] + q;
        assert(has_edge(m1, e1.from, e1.to));
        assert forall|i: int| 0 <= i < c.len() - 1 implies has_edge(m1, #[trigger] c[i], c[i + 1]) by {
            if i == 0 {
                assert(c[0] == e1.from && c[1] == q[0]);
            } else {
                assert(c[i] == q[i - 1] && c[i + 1] == q[i]);
            }
        }
        assert(is_path(m1, c));
        assert(c.len() >= 2 && c.first() == c.last());
    }
    assert(m.insert(edge_key(e1), e1).insert(edge_key(e2), e2) =~= m.insert(edge_key(e2), e2));
}

/// Decides whether storing the edge `from -> to` beside the given edges
/// would close a cycle, by an iterative depth-first search from `to` with a
/// visited set. Returns true exactly when `from` is reachable from `to`.
pub fn would_create_cycle(edges: &Vec<Edge>, from: &String, to: &String) -> (r: bool)
    ensures
        r == creates_cycle(rel_map(edge_views(edges@)), from@, to@),
{
    let ghost m = rel_map(edge_views(edges@));
    let mut visited: Vec<String> = Vec::new();
    let mut stack: Vec<String> = Vec::new();
    proof {
        lemma_reaches_refl(m, to@);
    }
    stack.push(to.clone());
    assert(id_views(stack@)[0] == to@);
    while stack.len() > 0
        invariant
            m == rel_map(edge_views(edges@)),
            forall|i: int|
                0 <= i < visited@.len() ==> reaches(m, to@, #[trigger] id_views(visited@)[i]),
            forall|i: int| 0 <= i < stack@.len() ==> reaches(m, to@, #[trigger] id_views(stack@)[i]),
            forall|i: int| 0 <= i < visited@.len() ==> #[trigger] id_views(visited@)[i] != from@,
            id_views(visited@).no_duplicates(),
            forall|i: int|
                0 <= i < visited@.len() ==> #[trigger] id_views(visited@)[i] == to@
                    || edge_targets(edges@).contains(id_views(visited@)[i]),
            forall|i: int|
                0 <= i < stack@.len() ==> #[trigger] id_views(stack@)[i] == to@ || edge_targets(
                    edges@,
                ).contains(id_views(stack@)[i]),
            visited@.len() <= edges@.len() + 1,
            id_views(visited@).contains(to@) || id_views(stack@).contains(to@),
            forall|i: int, y: Seq<char>|
                0 <= i < visited@.len() && #[trigger] has_edge(m, id_views(visited@)[i], y)
                    ==> id_views(visited@).contains(y) || id_views(stack@).contains(y),
        decreases edges@.len() + 1 - visited@.len(), stack@.len(),
    {
        let ghost old_stack = stack@;
        let current = stack.pop().unwrap();
        assert(current@ == id_views(old_stack)[old_stack.len() - 1]);
        assert(id_views(stack@) =~= id_views(old_stack).drop_last());
        if current == *from {
            assert(reaches(m, to@, from@));
            return true;
        }
        if !contains_id(&visited, &current) {
            // Mark `current` and queue every id its stored edges point at.
            let ghost pre_scan = stack@;
            let mut j: usize = 0;
            while j < edges.len()
                invariant
                    m == rel_map(edge_views(edges@)),
                    j <= edges@.len(),
                    reaches(m, to@, current@),
                    // the queue only grew
                    id_views(pre_scan).is_prefix_of(id_views(stack@)),
                    forall|i: int|
                        0 <= i < stack@.len() ==> reaches(m, to@, #[trigger] id_views(stack@)[i]),
                    forall|i: int|
                        0 <= i < stack@.len() ==> #[trigger] id_views(stack@)[i] == to@
                            || edge_targets(edges@).contains(id_views(stack@)[i]),
                    // every scanned edge out of `current` has its target queued
                    forall|i: int|
                        0 <= i < j && #[trigger] edge_views(edges@)[i].from == current@
                            ==> id_views(stack@).contains(edge_views(edges@)[i].to),
                decreases edges@.len() - j,
            {
                if edges[j].from == current {
                    let ghost before = stack@;
                    stack.push(edges[j].to.clone());
                    assert(id_views(stack@) =~= id_views(before).push(edge_views(edges@)[
                        j as int].to));
                    proof {
                        lemma_rel_map_contains(edge_views(edges@));
                        assert(edge_key(edge_views(edges@)[j as int]) == (
                            current@,
                            edge_views(edges@)[j as int].to,
                        ));
                        assert(has_edge(m, current@, edge_views(edges@)[j as int].to));
                        lemma_reaches_step(m, to@, current@, edge_views(edges@)[j as int].to);
                        assert(edge_targets(edges@).contains(
                            edge_views(edges@).map_values(|e: EdgeV| e.to)[j as int],
                        ));
                        assert(id_views(pre_scan).is_prefix_of(id_views(stack@)));
                        assert forall|i: int|
                            0 <= i < j + 1 && #[trigger] edge_views(edges@)[i].from == current@
                                implies id_views(stack@).contains(
                            edge_views(edges@)[i].to,
                        ) by {
                            if i == j {
                                assert(id_views(stack@)[id_views(stack@).len() - 1]
                                    == edge_views(edges@)[i].to);
                            } else {
                                let w = choose|w: int|
                                    0 <= w < before.len() && id_views(before)[w] == edge_views(
                                        edges@,
                                    )[i].to;
                                assert(id_views(stack@)[w] == edge_views(edges@)[i].to);
                            }
                        }
                    }
                }
                j = j + 1;
            }
            let ghost pre_mark = visited@;
            visited.push(current);
            assert(id_views(visited@) =~= id_views(pre_mark).push(id_views(old_stack).last()));
            proof {
                // every edge out of `current` is a stored edge, so its target
                // is now queued
                lemma_rel_map_contains(edge_views(edges@));
                let vv = id_views(visited@);
                assert forall|i: int, y: Seq<char>|
                    0 <= i < vv.len() && #[trigger] has_edge(m, vv[i], y) implies id_views(
                    visited@,
                ).contains(y) || id_views(stack@).contains(y) by {
                    if i < vv.len() - 1 {
                        assert(vv[i] == id_views(pre_mark)[i]);
                        // the closure held at the top of this iteration, over
                        // the marks and the queue as they then stood
                        assert(id_views(pre_mark).contains(y) || id_views(old_stack).contains(y));
                        if id_views(pre_mark).contains(y) {
                            let w = choose|w: int|
                                0 <= w < pre_mark.len() && id_views(pre_mark)[w] == y;
                            assert(vv[w] == y);
                        } else {
                            let w = choose|w: int|
                                0 <= w < old_stack.len() && id_views(old_stack)[w] == y;
                            if w < old_stack.len() - 1 {
                                assert(id_views(pre_scan)[w] == y);
                                assert(id_views(stack@)[w] == y);
                            } else {
                                assert(y == current@);
                                assert(vv[vv.len() - 1] == y);
                            }
                        }
                    } else {
                        let w = choose|w: int|
                            0 <= w < edge_views(edges@).len() && #[trigger] edge_key(
                                edge_views(edges@)[w],
                            ) == (current@, y);
                        assert(edge_views(edges@)[w].from == current@);
                        assert(id_views(stack@).contains(y));
                    }
                }
                // the visited ids stay distinct and within the finite universe
                // of `to` and the edge targets, so the visited count is bounded
                let targets = edge_views(edges@).map_values(|e: EdgeV| e.to);
                targets.lemma_cardinality_of_set();
                let universe = targets.to_set().insert(to@);
                assert(targets.to_set().finite()) by {
                    broadcast use seq_to_set_is_finite;

                }
                assert(universe.len() <= edges@.len() + 1);
                vv.unique_seq_to_set();
                assert(vv.to_set().subset_of(universe)) by {
                    assert forall|x: Seq<char>| vv.to_set().contains(x) implies universe.contains(
                        x,
                    ) by {
                        let i = choose|i: int| 0 <= i < vv.len() && vv[i] == x;
                    }
                }
                lemma_len_subset(vv.to_set(), universe);
                assert(visited@.len() <= edges@.len() + 1);
                // `to` stays marked or queued
                if !id_views(visited@).contains(to@) {
                    if id_views(pre_mark).contains(to@) {
                        let w = choose|w: int|
                            0 <= w < pre_mark.len() && id_views(pre_mark)[w] == to@;
                        assert(id_views(visited@)[w] == to@);
                    } else {
                        let w = choose|w: int|
                            0 <= w < old_stack.len() && id_views(old_stack)[w] == to@;
                        if w < old_stack.len() - 1 {
                            assert(id_views(pre_scan)[w] == to@);
                            assert(id_views(stack@)[w] == to@);
                        } else {
                            assert(vv.last() == to@);
                        }
                    }
                }
            }
        } else {
            // `current` is already marked; the closure invariant survives the
            // pop because every queued copy of it is covered by the mark.
            assert forall|i: int, y: Seq<char>|
                0 <= i < visited@.len() && #[trigger] has_edge(m, id_views(visited@)[i], y)
                    implies id_views(visited@).contains(y) || id_views(stack@).contains(y) by {
                if !id_views(visited@).contains(y) {
                    let w = choose|w: int| 0 <= w < old_stack.len() && id_views(old_stack)[w] == y;
                    if w < old_stack.len() - 1 {
                        assert(id_views(stack@)[w] == y);
                    } else {
                        assert(y == current@);
                        assert(id_views(visited@).contains(y));
                    }
                }
            }
            proof {
                if !id_views(visited@).contains(to@) {
                    let w = choose|w: int| 0 <= w < old_stack.len() && id_views(old_stack)[w] == to@;
                    if w < old_stack.len() - 1 {
                        assert(id_views(stack@)[w] == to@);
                    } else {
                        assert(current@ == to@);
                        assert(id_views(visited@).contains(to@));
                    }
                }
            }
        }
    }
    proof {
        let vs = id_views(visited@).to_set();
        assert(vs.contains(to@));
        assert(!vs.contains(from@)) by {
            if vs.contains(from@) {
                let i = choose|i: int|
                    0 <= i < visited@.len() && id_views(visited@)[i] == from@;
            }
        }
        assert(edge_closed(m, vs)) by {
            assert forall|x: Seq<char>, y: Seq<char>|
                vs.contains(x) && #[trigger] has_edge(m, x, y) implies vs.contains(y) by {
                let i = choose|i: int| 0 <= i < visited@.len() && id_views(visited@)[i] == x;
                assert(has_edge(m, id_views(visited@)[i], y));
                assert(id_views(visited@).contains(y));
            }
        }
        lemma_closed_no_reach(m, vs, to@, from@);
    }
    false
}

} // verus!
