//! Paths through a named, directed adjacency relation, and facts about them.

use vstd::prelude::*;

verus! {

/// `b` is listed among the neighbours of the node `a`.
pub open spec fn edge(g: Map<Seq<char>, Seq<Seq<char>>>, a: Seq<char>, b: Seq<char>) -> bool {
    g.contains_key(a) && g[a].contains(b)
}

/// The step from position `i` of `p` to position `i + 1` follows an edge.
pub open spec fn step_ok(g: Map<Seq<char>, Seq<Seq<char>>>, p: Seq<Seq<char>>, i: int) -> bool {
    edge(g, p[i], p[i + 1])
}

/// `p` is a non-empty walk along edges of `g`.
pub open spec fn is_path(g: Map<Seq<char>, Seq<Seq<char>>>, p: Seq<Seq<char>>) -> bool {
    &&& p.len() > 0
    &&& forall|i: int| 0 <= i < p.len() - 1 ==> #[trigger] step_ok(g, p, i)
}

/// `p` is a walk from `a` to `b`.
pub open spec fn path_between(
    g: Map<Seq<char>, Seq<Seq<char>>>,
    p: Seq<Seq<char>>,
    a: Seq<char>,
    b: Seq<char>,
) -> bool {
    is_path(g, p) && p[0] == a && p.last() == b
}

/// Some walk leads from `a` to `b`.
pub open spec fn reachable(g: Map<Seq<char>, Seq<Seq<char>>>, a: Seq<char>, b: Seq<char>) -> bool {
    exists|p: Seq<Seq<char>>| #[trigger] path_between(g, p, a, b)
}

/// `p` is a walk from `a` to `b` and no walk between them has fewer nodes.
pub open spec fn is_shortest(
    g: Map<Seq<char>, Seq<Seq<char>>>,
    p: Seq<Seq<char>>,
    a: Seq<char>,
    b: Seq<char>,
) -> bool {
    &&& path_between(g, p, a, b)
    &&& forall|q: Seq<Seq<char>>| #[trigger] path_between(g, q, a, b) ==> p.len() <= q.len()
}

/// Every name that a breadth-first search from `a` for `b` takes from its queue is a node
/// of `g`: the last name of each walk that comes first in breadth-first order among the
/// shortest walks to that name, and comes no later than every shortest walk to `b` (all
/// of them, when `b` cannot be reached).
pub open spec fn searched_names_are_nodes(g: Map<Seq<char>, Seq<Seq<char>>>, a: Seq<char>, b: Seq<char>) -> bool {
    forall|p: Seq<Seq<char>>|
        #[trigger] is_first_shortest(g, p, a) && (forall|q: Seq<Seq<char>>|
            #[trigger] is_shortest(g, q, a, b) ==> p.len() < q.len() || q == p || bfs_before(g, p, q))
            ==> g.contains_key(p.last())
}

/// A prefix of a walk is a walk.
pub proof fn lemma_path_prefix(g: Map<Seq<char>, Seq<Seq<char>>>, p: Seq<Seq<char>>, n: int)
    requires
        is_path(g, p),
        1 <= n <= p.len(),
    ensures
        is_path(g, p.take(n)),
        p.take(n)[0] == p[0],
        p.take(n).last() == p[n - 1],
{
    let t = p.take(n);
    assert forall|i: int| 0 <= i < t.len() - 1 implies #[trigger] step_ok(g, t, i) by {
        assert(step_ok(g, p, i));
    }
}

/// A walk followed by an edge out of its last node is a walk.
pub proof fn lemma_path_extend(g: Map<Seq<char>, Seq<Seq<char>>>, p: Seq<Seq<char>>, w: Seq<char>)
    requires
        is_path(g, p),
        edge(g, p.last(), w),
    ensures
        is_path(g, p.push(w)),
        p.push(w)[0] == p[0],
        p.push(w).last() == w,
        p.push(w).len() == p.len() + 1,
{
    let t = p.push(w);
    assert forall|i: int| 0 <= i < t.len() - 1 implies #[trigger] step_ok(g, t, i) by {
        if i < p.len() - 1 {
            assert(step_ok(g, p, i));
        }
    }
}

/// The single node `a` is a walk from `a` to itself, and the shortest one.
pub proof fn lemma_trivial_path(g: Map<Seq<char>, Seq<Seq<char>>>, a: Seq<char>)
    ensures
        is_shortest(g, seq![a], a, a),
{
    let p = seq![a];
    assert(is_path(g, p));
}

/// `p` and `q` first part after their `m`-th node `p[m - 1]`, and `p`'s next node is listed
/// at position `t` among that node's neighbours, before any occurrence of `q`'s next node.
pub open spec fn parts_at(
    g: Map<Seq<char>, Seq<Seq<char>>>,
    p: Seq<Seq<char>>,
    q: Seq<Seq<char>>,
    m: int,
    t: int,
) -> bool {
    &&& 1 <= m < p.len()
    &&& m < q.len()
    &&& p.take(m) == q.take(m)
    &&& 0 <= t < g[p[m - 1]].len()
    &&& g[p[m - 1]][t] == p[m]
    &&& forall|t2: int| 0 <= t2 <= t ==> #[trigger] g[p[m - 1]][t2] != q[m]
}

/// `p` comes before `q` in breadth-first order: they have the same length, and where they
/// first part, `p` goes on to a neighbour listed before `q`'s.
pub open spec fn bfs_before(g: Map<Seq<char>, Seq<Seq<char>>>, p: Seq<Seq<char>>, q: Seq<Seq<char>>) -> bool {
    &&& p.len() == q.len()
    &&& exists|m: int, t: int| #[trigger] parts_at(g, p, q, m, t)
}

/// `p` is a shortest walk from `a` to its last node, and among those it comes first in
/// breadth-first order.
pub open spec fn is_first_shortest(g: Map<Seq<char>, Seq<Seq<char>>>, p: Seq<Seq<char>>, a: Seq<char>) -> bool {
    &&& is_shortest(g, p, a, p.last())
    &&& forall|q: Seq<Seq<char>>| #[trigger] is_shortest(g, q, a, p.last()) ==> q == p || bfs_before(g, p, q)
}

/// No walk comes before itself.
pub proof fn lemma_bfs_irreflexive(g: Map<Seq<char>, Seq<Seq<char>>>, p: Seq<Seq<char>>)
    ensures
        !bfs_before(g, p, p),
{
    if bfs_before(g, p, p) {
        let (m, t) = choose|m: int, t: int| #[trigger] parts_at(g, p, p, m, t);
        assert(g[p[m - 1]][t] != p[m]);
    }
}

/// Breadth-first order is transitive.
pub proof fn lemma_bfs_transitive(
    g: Map<Seq<char>, Seq<Seq<char>>>,
    a: Seq<Seq<char>>,
    b: Seq<Seq<char>>,
    c: Seq<Seq<char>>,
)
    requires
        bfs_before(g, a, b),
        bfs_before(g, b, c),
    ensures
        bfs_before(g, a, c),
{
    let (m1, t1) = choose|m: int, t: int| #[trigger] parts_at(g, a, b, m, t);
    let (m2, t2) = choose|m: int, t: int| #[trigger] parts_at(g, b, c, m, t);
    if m1 < m2 {
        assert(b.take(m2)[m1] == c.take(m2)[m1]);
        assert(b[m1] == c[m1]);
        assert(a.take(m1) =~= c.take(m1)) by {
            assert forall|i: int| 0 <= i < m1 implies a.take(m1)[i] == c.take(m1)[i] by {
                assert(a.take(m1)[i] == b.take(m1)[i]);
                assert(b.take(m2)[i] == c.take(m2)[i]);
            }
        }
        assert(parts_at(g, a, c, m1, t1));
    } else if m2 < m1 {
        assert(a.take(m1)[m2] == b.take(m1)[m2]);
        assert(a[m2] == b[m2]);
        assert(a.take(m1)[m2 - 1] == b.take(m1)[m2 - 1]);
        assert(a.take(m2) =~= c.take(m2)) by {
            assert forall|i: int| 0 <= i < m2 implies a.take(m2)[i] == c.take(m2)[i] by {
                assert(a.take(m1)[i] == b.take(m1)[i]);
                assert(b.take(m2)[i] == c.take(m2)[i]);
            }
        }
        assert(parts_at(g, a, c, m2, t2));
    } else {
        let m = m1;
        assert(a.take(m) =~= c.take(m)) by {
            assert forall|i: int| 0 <= i < m implies a.take(m)[i] == c.take(m)[i] by {
                assert(a.take(m)[i] == b.take(m)[i]);
                assert(b.take(m)[i] == c.take(m)[i]);
            }
        }
        assert(a.take(m)[m - 1] == b.take(m)[m - 1]);
        assert(a[m - 1] == b[m - 1]);
        if t2 <= t1 {
            assert(g[a[m - 1]][t2] == b[m]);
        }
        assert(parts_at(g, a, c, m, t1));
    }
}

/// Extending two walks keeps their breadth-first order.
pub proof fn lemma_bfs_extend(
    g: Map<Seq<char>, Seq<Seq<char>>>,
    a: Seq<Seq<char>>,
    b: Seq<Seq<char>>,
    x: Seq<char>,
    y: Seq<char>,
)
    requires
        bfs_before(g, a, b),
    ensures
        bfs_before(g, a.push(x), b.push(y)),
{
    let (m, t) = choose|m: int, t: int| #[trigger] parts_at(g, a, b, m, t);
    assert(a.push(x).take(m) =~= a.take(m));
    assert(b.push(y).take(m) =~= b.take(m));
    assert(a.push(x)[m] == a[m]);
    assert(b.push(y)[m] == b[m]);
    assert(a.take(m)[m - 1] == a[m - 1]);
    assert(a.push(x)[m - 1] == a[m - 1]);
    assert(parts_at(g, a.push(x), b.push(y), m, t));
}

/// Two one-step extensions of a walk are ordered by where their new nodes are listed.
pub proof fn lemma_bfs_siblings(
    g: Map<Seq<char>, Seq<Seq<char>>>,
    p: Seq<Seq<char>>,
    x: Seq<char>,
    y: Seq<char>,
    t: int,
)
    requires
        p.len() >= 1,
        0 <= t < g[p.last()].len(),
        g[p.last()][t] == x,
        forall|t2: int| 0 <= t2 <= t ==> #[trigger] g[p.last()][t2] != y,
    ensures
        bfs_before(g, p.push(x), p.push(y)),
{
    let m = p.len() as int;
    assert(p.push(x).take(m) =~= p);
    assert(p.push(y).take(m) =~= p);
    assert(p.push(x)[m - 1] == p.last());
    assert(parts_at(g, p.push(x), p.push(y), m, t));
}

/// Dropping the last node of a shortest walk leaves a shortest walk.
pub proof fn lemma_shortest_prefix(g: Map<Seq<char>, Seq<Seq<char>>>, q: Seq<Seq<char>>, a: Seq<char>)
    requires
        is_shortest(g, q, a, q.last()),
        q.len() >= 2,
    ensures
        is_shortest(g, q.drop_last(), a, q[q.len() - 2]),
{
    let n = q.len() - 1;
    lemma_path_prefix(g, q, n);
    assert(q.take(n) =~= q.drop_last());
    assert(step_ok(g, q, n - 1));
    assert forall|r: Seq<Seq<char>>| #[trigger] path_between(g, r, a, q[q.len() - 2]) implies q.drop_last().len()
        <= r.len() by {
        lemma_path_extend(g, r, q.last());
        assert(path_between(g, r.push(q.last()), a, q.last()));
    }
}

/// At most one walk to a name comes first in breadth-first order among the shortest ones.
pub proof fn lemma_first_shortest_unique(
    g: Map<Seq<char>, Seq<Seq<char>>>,
    p1: Seq<Seq<char>>,
    p2: Seq<Seq<char>>,
    a: Seq<char>,
)
    requires
        is_first_shortest(g, p1, a),
        is_first_shortest(g, p2, a),
        p1.last() == p2.last(),
    ensures
        p1 == p2,
{
    assert(is_shortest(g, p2, a, p1.last()));
    assert(is_shortest(g, p1, a, p2.last()));
    if p1 != p2 {
        assert(bfs_before(g, p1, p2));
        assert(bfs_before(g, p2, p1));
        lemma_bfs_transitive(g, p1, p2, p1);
        lemma_bfs_irreflexive(g, p1);
    }
}

} // verus!
