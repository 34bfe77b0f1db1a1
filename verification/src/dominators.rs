//! Dominators of a directed graph with a start node.
//!
//! Node `a` dominates node `b` when every walk from the start to `b` visits
//! `a`; the immediate dominator of `b` is its strict dominator that every
//! other strict dominator of `b` dominates.

use vstd::prelude::*;
use crate::counting::{count_upto, lemma_count_strict};
use crate::graph::{
    adj_view, adj_wf, is_walk, lemma_last_occurrence, lemma_walk_concat, lemma_walk_prefix,
    lemma_walk_restrict, lemma_walk_suffix, lemma_walk_unrestricted, reach_avoiding, reaches,
};

verus! {

/// Some walk leads from `s` to `v`.
pub open spec fn reachable(g: Seq<Seq<usize>>, s: usize, v: usize) -> bool {
    reaches(g, s, v, g.len() as int)
}

/// `b` is reachable and every walk from `s` to `b` visits `a`.
pub open spec fn dominates(g: Seq<Seq<usize>>, s: usize, a: usize, b: usize) -> bool {
    &&& a < g.len()
    &&& reachable(g, s, b)
    &&& !reaches(g, s, b, a as int)
}

pub open spec fn strictly_dominates(g: Seq<Seq<usize>>, s: usize, a: usize, b: usize) -> bool {
    a != b && dominates(g, s, a, b)
}

/// `d` strictly dominates `b`, and every strict dominator of `b` dominates `d`.
pub open spec fn is_idom(g: Seq<Seq<usize>>, s: usize, b: usize, d: usize) -> bool {
    &&& strictly_dominates(g, s, d, b)
    &&& forall|e: usize| #[trigger] strictly_dominates(g, s, e, b) ==> dominates(g, s, e, d)
}

/// The immediate dominator of `b`, if it has one.
pub open spec fn immediate_dominator_of(g: Seq<Seq<usize>>, s: usize, b: usize) -> Option<usize> {
    if exists|d: usize| is_idom(g, s, b, d) {
        Some(choose|d: usize| is_idom(g, s, b, d))
    } else {
        None
    }
}

/// The number of nodes that dominate `b`.
pub open spec fn dom_rank(g: Seq<Seq<usize>>, s: usize, b: usize) -> nat {
    count_upto(g.len() as int, |x: int| dominates(g, s, x as usize, b))
}

/// The ends of a walk are nodes, and not the avoided one.
pub proof fn lemma_walk_ends_in_graph(g: Seq<Seq<usize>>, s: usize, v: usize, avoid: int)
    requires
        reaches(g, s, v, avoid),
    ensures
        v < g.len(),
        s < g.len(),
        v != avoid,
        s != avoid,
{
    let p = choose|p: Seq<usize>| #[trigger] is_walk(g, p, avoid) && p[0] == s && p.last() == v;
    assert(p[p.len() - 1] < g.len());
    assert(p[0] < g.len());
}

/// If `b` is reachable and every walk avoiding `a` misses `b`, then every
/// walk to `b` visits `a`; here: a walk from `s` to `b` that visits no `a`
/// would contradict domination.
pub proof fn lemma_walk_visits_dominator(g: Seq<Seq<usize>>, s: usize, a: usize, b: usize, p: Seq<usize>)
    requires
        dominates(g, s, a, b),
        is_walk(g, p, g.len() as int),
        p[0] == s,
        p.last() == b,
    ensures
        p.contains(a),
{
    if !p.contains(a) {
        lemma_walk_restrict(g, p, a as int);
        assert(is_walk(g, p, a as int));
    }
}

/// Every reachable node dominates itself.
pub proof fn lemma_dominates_reflexive(g: Seq<Seq<usize>>, s: usize, b: usize)
    requires
        reachable(g, s, b),
    ensures
        dominates(g, s, b, b),
{
    lemma_walk_ends_in_graph(g, s, b, g.len() as int);
    if reaches(g, s, b, b as int) {
        lemma_walk_ends_in_graph(g, s, b, b as int);
    }
}

/// The start node dominates every reachable node.
pub proof fn lemma_start_dominates(g: Seq<Seq<usize>>, s: usize, b: usize)
    requires
        reachable(g, s, b),
    ensures
        dominates(g, s, s, b),
{
    lemma_walk_ends_in_graph(g, s, b, g.len() as int);
    if reaches(g, s, b, s as int) {
        lemma_walk_ends_in_graph(g, s, b, s as int);
    }
}

/// A dominator of a node is itself reachable.
pub proof fn lemma_dominator_reachable(g: Seq<Seq<usize>>, s: usize, a: usize, b: usize)
    requires
        dominates(g, s, a, b),
    ensures
        reachable(g, s, a),
{
    let p = choose|p: Seq<usize>|
        #[trigger] is_walk(g, p, g.len() as int) && p[0] == s && p.last() == b;
    lemma_walk_visits_dominator(g, s, a, b, p);
    let i = choose|i: int| 0 <= i < p.len() && p[i] == a;
    lemma_walk_prefix(g, p, i, g.len() as int);
    assert(is_walk(g, p.take(i + 1), g.len() as int));
}

/// Domination is transitive.
pub proof fn lemma_dominates_transitive(g: Seq<Seq<usize>>, s: usize, a: usize, b: usize, c: usize)
    requires
        dominates(g, s, a, b),
        dominates(g, s, b, c),
    ensures
        dominates(g, s, a, c),
{
    if reaches(g, s, c, a as int) {
        let p = choose|p: Seq<usize>|
            #[trigger] is_walk(g, p, a as int) && p[0] == s && p.last() == c;
        lemma_walk_unrestricted(g, p, a as int);
        lemma_walk_visits_dominator(g, s, b, c, p);
        let i = choose|i: int| 0 <= i < p.len() && p[i] == b;
        lemma_walk_prefix(g, p, i, a as int);
        assert(is_walk(g, p.take(i + 1), a as int));
    }
}

proof fn lemma_antisymmetric_walk(g: Seq<Seq<usize>>, s: usize, a: usize, b: usize, p: Seq<usize>)
    requires
        dominates(g, s, a, b),
        dominates(g, s, b, a),
        is_walk(g, p, g.len() as int),
        p[0] == s,
        p.last() == b,
    ensures
        a == b,
    decreases p.len(),
{
    let n = g.len() as int;
    lemma_walk_visits_dominator(g, s, a, b, p);
    let i = choose|i: int| 0 <= i < p.len() && p[i] == a;
    lemma_walk_prefix(g, p, i, n);
    let q = p.take(i + 1);
    lemma_walk_visits_dominator(g, s, b, a, q);
    let j = choose|j: int| 0 <= j < q.len() && q[j] == b;
    if j != i {
        lemma_walk_prefix(g, q, j, n);
        lemma_antisymmetric_walk(g, s, a, b, q.take(j + 1));
    }
}

/// Two nodes that dominate each other are the same node.
pub proof fn lemma_dominates_antisymmetric(g: Seq<Seq<usize>>, s: usize, a: usize, b: usize)
    requires
        dominates(g, s, a, b),
        dominates(g, s, b, a),
    ensures
        a == b,
{
    let p = choose|p: Seq<usize>|
        #[trigger] is_walk(g, p, g.len() as int) && p[0] == s && p.last() == b;
    lemma_antisymmetric_walk(g, s, a, b, p);
}

/// A node has at most one immediate dominator.
pub proof fn lemma_idom_unique(g: Seq<Seq<usize>>, s: usize, b: usize, d1: usize, d2: usize)
    requires
        is_idom(g, s, b, d1),
        is_idom(g, s, b, d2),
    ensures
        d1 == d2,
{
    assert(strictly_dominates(g, s, d2, b));
    assert(strictly_dominates(g, s, d1, b));
    lemma_dominates_antisymmetric(g, s, d1, d2);
}

/// An immediate dominator is dominated by fewer nodes than the node it
/// immediately dominates, so chains of immediate dominators are finite.
pub proof fn lemma_idom_rank(g: Seq<Seq<usize>>, s: usize, b: usize, d: usize)
    requires
        is_idom(g, s, b, d),
    ensures
        dom_rank(g, s, d) < dom_rank(g, s, b),
{
    let n = g.len() as int;
    let f = |x: int| dominates(g, s, x as usize, d);
    let h = |x: int| dominates(g, s, x as usize, b);
    assert forall|x: int| 0 <= x < n && #[trigger] f(x) implies h(x) by {
        lemma_dominates_transitive(g, s, x as usize, d, b);
    }
    lemma_dominator_reachable(g, s, d, b);
    lemma_dominates_reflexive(g, s, b);
    lemma_walk_ends_in_graph(g, s, b, n);
    if dominates(g, s, b, d) {
        lemma_dominates_antisymmetric(g, s, b, d);
    }
    lemma_count_strict(n, f, h, b as int);
}

/// Two strict dominators of a node are ordered by domination.
pub proof fn lemma_strict_dominators_ordered(
    g: Seq<Seq<usize>>,
    s: usize,
    b: usize,
    d1: usize,
    d2: usize,
)
    requires
        strictly_dominates(g, s, d1, b),
        strictly_dominates(g, s, d2, b),
    ensures
        dominates(g, s, d1, d2) || dominates(g, s, d2, d1),
{
    let n = g.len() as int;
    lemma_dominator_reachable(g, s, d1, b);
    lemma_dominator_reachable(g, s, d2, b);
    if d1 == d2 {
        lemma_dominates_reflexive(g, s, d1);
    } else if !dominates(g, s, d1, d2) && !dominates(g, s, d2, d1) {
        // A walk to `d2` avoiding `d1`, and one to `d1` avoiding `d2`.
        let p1 = choose|p: Seq<usize>| #[trigger] is_walk(g, p, d1 as int) && p[0] == s && p.last() == d2;
        let p2 = choose|p: Seq<usize>| #[trigger] is_walk(g, p, d2 as int) && p[0] == s && p.last() == d1;
        let q = choose|p: Seq<usize>| #[trigger] is_walk(g, p, n) && p[0] == s && p.last() == b;
        lemma_walk_visits_dominator(g, s, d2, b, q);
        let i2 = lemma_last_occurrence(q, d2);
        lemma_walk_suffix(g, q, i2, n);
        let r = q.subrange(i2, q.len() as int);
        if !r.contains(d1) {
            lemma_walk_restrict(g, r, d1 as int);
            lemma_walk_concat(g, p1, r, d1 as int);
            assert(is_walk(g, p1 + r.drop_first(), d1 as int));
        } else {
            let j = choose|j: int| 0 <= j < r.len() && r[j] == d1;
            assert(q[i2 + j] == d1);
            assert(q.contains(d1));
            let i1 = lemma_last_occurrence(q, d1);
            assert(i1 > i2) by {
                if i1 <= i2 {
                    assert(i2 + j > i1);
                }
            }
            lemma_walk_suffix(g, q, i1, n);
            let r1 = q.subrange(i1, q.len() as int);
            assert(!r1.contains(d2)) by {
                if r1.contains(d2) {
                    let k = choose|k: int| 0 <= k < r1.len() && r1[k] == d2;
                    assert(q[i1 + k] == d2);
                }
            }
            lemma_walk_restrict(g, r1, d2 as int);
            lemma_walk_concat(g, p2, r1, d2 as int);
            assert(is_walk(g, p2 + r1.drop_first(), d2 as int));
        }
    }
}

/// Among the strict dominators of `b` below `k` (one of them being `w`),
/// one is dominated by the most nodes.
proof fn lemma_deepest_strict_dominator(g: Seq<Seq<usize>>, s: usize, b: usize, k: int, w: usize) -> (d: usize)
    requires
        0 <= k <= g.len(),
        g.len() <= usize::MAX,
        w < k,
        strictly_dominates(g, s, w, b),
    ensures
        d < k,
        strictly_dominates(g, s, d, b),
        forall|x: usize| x < k && #[trigger] strictly_dominates(g, s, x, b) ==> dom_rank(g, s, x)
            <= dom_rank(g, s, d),
    decreases k,
{
    let last = (k - 1) as usize;
    if w == last && !(exists|x: usize| x < last && #[trigger] strictly_dominates(g, s, x, b)) {
        assert forall|x: usize| x < k && #[trigger] strictly_dominates(g, s, x, b) implies dom_rank(
            g,
            s,
            x,
        ) <= dom_rank(g, s, last) by {
            assert(x == last);
        }
        last
    } else {
        let w2 = if w < last {
            w
        } else {
            choose|x: usize| x < last && #[trigger] strictly_dominates(g, s, x, b)
        };
        let d = lemma_deepest_strict_dominator(g, s, b, k - 1, w2);
        if strictly_dominates(g, s, last, b) && dom_rank(g, s, last) > dom_rank(g, s, d) {
            assert forall|x: usize| x < k && #[trigger] strictly_dominates(g, s, x, b) implies dom_rank(
                g,
                s,
                x,
            ) <= dom_rank(g, s, last) by {}
            last
        } else {
            d
        }
    }
}

/// Every node other than the start that the start reaches has an immediate
/// dominator: the dominators form a tree rooted at the start.
pub proof fn lemma_idom_exists(g: Seq<Seq<usize>>, s: usize, b: usize)
    requires
        g.len() <= usize::MAX,
        reachable(g, s, b),
        b != s,
    ensures
        exists|d: usize| is_idom(g, s, b, d),
        immediate_dominator_of(g, s, b) is Some,
{
    lemma_start_dominates(g, s, b);
    lemma_walk_ends_in_graph(g, s, b, g.len() as int);
    let d = lemma_deepest_strict_dominator(g, s, b, g.len() as int, s);
    assert forall|e: usize| #[trigger] strictly_dominates(g, s, e, b) implies dominates(g, s, e, d) by {
        lemma_strict_dominators_ordered(g, s, b, e, d);
        if !dominates(g, s, e, d) {
            // Then `d` dominates `e`, so `e` is deeper than `d`.
            assert(dominates(g, s, d, e));
            let f = |x: int| dominates(g, s, x as usize, d);
            let h = |x: int| dominates(g, s, x as usize, e);
            assert forall|x: int| 0 <= x < g.len() && #[trigger] f(x) implies h(x) by {
                lemma_dominates_transitive(g, s, x as usize, d, e);
            }
            lemma_dominator_reachable(g, s, e, b);
            lemma_dominates_reflexive(g, s, e);
            lemma_walk_ends_in_graph(g, s, e, g.len() as int);
            crate::counting::lemma_count_strict(g.len() as int, f, h, e as int);
            assert(e < g.len());
        }
    }
    assert(is_idom(g, s, b, d));
}

/// The immediate dominator named by `immediate_dominator_of` is one.
pub proof fn lemma_immediate_dominator_of(g: Seq<Seq<usize>>, s: usize, b: usize)
    ensures
        immediate_dominator_of(g, s, b) matches Some(d) ==> is_idom(g, s, b, d),
        immediate_dominator_of(g, s, b) is None ==> forall|d: usize| !is_idom(g, s, b, d),
{
}

/// The dominator tree of a graph from a start node.
pub struct Dominators {
    start: usize,
    reach: Vec<bool>,
    /// `avoiding[a][b]`: some walk from the start reaches `b` without visiting `a`.
    avoiding: Vec<Vec<bool>>,
    idom: Vec<Option<usize>>,
    graph: Ghost<Seq<Seq<usize>>>,
}

impl Dominators {
    pub closed spec fn graph(&self) -> Seq<Seq<usize>> {
        self.graph@
    }

    pub closed spec fn start(&self) -> usize {
        self.start
    }

    #[verifier::type_invariant]
    closed spec fn inv(&self) -> bool {
        let g = self.graph@;
        let n = g.len();
        &&& adj_wf(g)
        &&& self.start < n
        &&& self.reach@.len() == n
        &&& self.avoiding@.len() == n
        &&& self.idom@.len() == n
        &&& forall|v: int| 0 <= v < n ==> #[trigger] self.reach@[v] == reachable(g, self.start, v as usize)
        &&& forall|a: int| 0 <= a < n ==> (#[trigger] self.avoiding@[a])@.len() == n
        &&& forall|a: int, b: int|
            0 <= a < n && 0 <= b < n ==> #[trigger] self.avoiding@[a]@[b] == reaches(
                g,
                self.start,
                b as usize,
                a,
            )
        &&& forall|v: int|
            0 <= v < n ==> #[trigger] self.idom@[v] == immediate_dominator_of(g, self.start, v as usize)
    }

    /// Computes the dominators of `adj` from `start`.
    pub fn compute(adj: &Vec<Vec<usize>>, start: usize) -> (res: Dominators)
        requires
            adj_wf(adj_view(*adj)),
            start < adj.len(),
        ensures
            res.graph() == adj_view(*adj),
            res.start() == start,
    {
        let ghost g = adj_view(*adj);
        let n = adj.len();
        let reach = reach_avoiding(adj, start, n);
        let mut avoiding: Vec<Vec<bool>> = Vec::new();
        let mut a: usize = 0;
        while a < n
            invariant
                n == adj.len(),
                g == adj_view(*adj),
                adj_wf(g),
                start < n,
                a <= n,
                avoiding@.len() == a,
                forall|x: int| 0 <= x < a ==> (#[trigger] avoiding@[x])@.len() == n,
                forall|x: int, b: int|
                    0 <= x < a && 0 <= b < n ==> #[trigger] avoiding@[x]@[b] == reaches(
                        g,
                        start,
                        b as usize,
                        x,
                    ),
            decreases n - a,
        {
            let row = reach_avoiding(adj, start, a);
            avoiding.push(row);
            a = a + 1;
        }
        let mut idom: Vec<Option<usize>> = Vec::new();
        let mut b: usize = 0;
        while b < n
            invariant
                n == adj.len(),
                g == adj_view(*adj),
                adj_wf(g),
                start < n,
                b <= n,
                reach@.len() == n,
                forall|v: int| 0 <= v < n ==> #[trigger] reach@[v] == reachable(g, start, v as usize),
                avoiding@.len() == n,
                forall|x: int| 0 <= x < n ==> (#[trigger] avoiding@[x])@.len() == n,
                forall|x: int, y: int|
                    0 <= x < n && 0 <= y < n ==> #[trigger] avoiding@[x]@[y] == reaches(
                        g,
                        start,
                        y as usize,
                        x,
                    ),
                idom@.len() == b,
                forall|v: int|
                    0 <= v < b ==> #[trigger] idom@[v] == immediate_dominator_of(g, start, v as usize),
            decreases n - b,
        {
            let d = find_idom(&reach, &avoiding, Ghost(g), start, b);
            idom.push(d);
            b = b + 1;
        }
        Dominators { start, reach, avoiding, idom, graph: Ghost(g) }
    }

    pub fn num_nodes(&self) -> (n: usize)
        ensures
            n == self.graph().len(),
    {
        proof {
            use_type_invariant(self);
        }
        self.reach.len()
    }

    pub fn start_node(&self) -> (s: usize)
        ensures
            s == self.start(),
    {
        self.start
    }

    /// Whether `v` can be reached from the start.
    pub fn is_reachable(&self, v: usize) -> (res: bool)
        requires
            v < self.graph().len(),
        ensures
            res == reachable(self.graph(), self.start(), v),
    {
        proof {
            use_type_invariant(self);
        }
        self.reach[v]
    }

    /// Whether `a` dominates the reachable node `b`.
    pub fn dominates(&self, a: usize, b: usize) -> (res: bool)
        requires
            a < self.graph().len(),
            b < self.graph().len(),
            reachable(self.graph(), self.start(), b),
        ensures
            res == dominates(self.graph(), self.start(), a, b),
    {
        proof {
            use_type_invariant(self);
        }
        !self.avoiding[a][b]
    }

    /// The immediate dominator of `v`; `None` for the start node and for the
    /// nodes that cannot be reached.
    pub fn immediate_dominator(&self, v: usize) -> (res: Option<usize>)
        requires
            v < self.graph().len(),
        ensures
            res == immediate_dominator_of(self.graph(), self.start(), v),
    {
        proof {
            use_type_invariant(self);
        }
        self.idom[v]
    }
}

/// Finds the immediate dominator of `b` from the reachability tables.
fn find_idom(
    reach: &Vec<bool>,
    avoiding: &Vec<Vec<bool>>,
    Ghost(g): Ghost<Seq<Seq<usize>>>,
    start: usize,
    b: usize,
) -> (res: Option<usize>)
    requires
        adj_wf(g),
        start < g.len(),
        b < g.len(),
        reach@.len() == g.len(),
        forall|v: int| 0 <= v < g.len() ==> #[trigger] reach@[v] == reachable(g, start, v as usize),
        avoiding@.len() == g.len(),
        forall|x: int| 0 <= x < g.len() ==> (#[trigger] avoiding@[x])@.len() == g.len(),
        forall|x: int, y: int|
            0 <= x < g.len() && 0 <= y < g.len() ==> #[trigger] avoiding@[x]@[y] == reaches(
                g,
                start,
                y as usize,
                x,
            ),
    ensures
        res == immediate_dominator_of(g, start, b),
{
    let n = reach.len();
    if !reach[b] {
        return None;
    }
    let mut d: usize = 0;
    while d < n
        invariant
            n == g.len(),
            reach@.len() == n,
            b < n,
            reachable(g, start, b),
            forall|v: int| 0 <= v < n ==> #[trigger] reach@[v] == reachable(g, start, v as usize),
            avoiding@.len() == n,
            forall|x: int| 0 <= x < n ==> (#[trigger] avoiding@[x])@.len() == n,
            forall|x: int, y: int|
                0 <= x < n && 0 <= y < n ==> #[trigger] avoiding@[x]@[y] == reaches(
                    g,
                    start,
                    y as usize,
                    x,
                ),
            d <= n,
            forall|x: usize| x < d ==> !is_idom(g, start, b, x),
        decreases n - d,
    {
        if d != b && !avoiding[d][b] && reach[d] {
            // `d` strictly dominates `b`; check that every strict dominator of
            // `b` dominates `d`.
            let mut e: usize = 0;
            let mut ok = true;
            while e < n
                invariant
                    n == g.len(),
                    reach@.len() == n,
                    b < n,
                    d < n,
                    reachable(g, start, d),
                    reachable(g, start, b),
                    avoiding@.len() == n,
                    forall|x: int| 0 <= x < n ==> (#[trigger] avoiding@[x])@.len() == n,
                    forall|x: int, y: int|
                        0 <= x < n && 0 <= y < n ==> #[trigger] avoiding@[x]@[y] == reaches(
                            g,
                            start,
                            y as usize,
                            x,
                        ),
                    e <= n,
                    ok == forall|x: usize|
                        x < e && #[trigger] strictly_dominates(g, start, x, b) ==> dominates(
                            g,
                            start,
                            x,
                            d,
                        ),
                decreases n - e,
            {
                let ghost ok0 = ok;
                assert(strictly_dominates(g, start, e, b) == (e != b && !avoiding@[e as int]@[b as int]));
                assert(dominates(g, start, e, d) == !avoiding@[e as int]@[d as int]);
                if e != b && !avoiding[e][b] && avoiding[e][d] {
                    ok = false;
                }
                assert(ok == forall|x: usize|
                    x < e + 1 && #[trigger] strictly_dominates(g, start, x, b) ==> dominates(
                        g,
                        start,
                        x,
                        d,
                    )) by {
                    if ok {
                        assert forall|x: usize|
                            x < e + 1 && #[trigger] strictly_dominates(g, start, x, b) implies dominates(
                                g,
                                start,
                                x,
                                d,
                            ) by {
                            if x < e {
                                assert(ok0);
                            }
                        }
                    }
                }
                e = e + 1;
            }
            assert forall|x: usize| #[trigger] strictly_dominates(g, start, x, b) implies x < n by {}
            if ok {
                proof {
                    assert(is_idom(g, start, b, d));
                    let c = choose|c: usize| is_idom(g, start, b, c);
                    lemma_idom_unique(g, start, b, c, d);
                }
                return Some(d);
            }
        }
        proof {
            if is_idom(g, start, b, d) {
                lemma_dominator_reachable(g, start, d, b);
                assert(dominates(g, start, d, b));
            }
        }
        d = d + 1;
    }
    proof {
        assert forall|x: usize| !is_idom(g, start, b, x) by {
            if x >= n && is_idom(g, start, b, x) {
                assert(strictly_dominates(g, start, x, b));
            }
        }
    }
    None
}

} // verus!
