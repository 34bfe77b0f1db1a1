//! Directed graphs given by adjacency lists, walks through them, and a
//! depth-first search for the nodes reachable from a start node while
//! avoiding one node.

use vstd::prelude::*;
use crate::counting::{count_upto, lemma_count_strict};

verus! {

/// The adjacency lists of `g` as sequences.
pub open spec fn adj_view(g: Vec<Vec<usize>>) -> Seq<Seq<usize>> {
    Seq::new(g@.len(), |i: int| g@[i]@)
}

/// Every edge of `g` leads to a node of `g`.
pub open spec fn adj_wf(g: Seq<Seq<usize>>) -> bool {
    forall|u: int, i: int|
        0 <= u < g.len() && 0 <= i < g[u].len() ==> #[trigger] g[u][i] < g.len()
}

/// `p[i]` is followed in `p` by one of its successors.
pub open spec fn step(g: Seq<Seq<usize>>, p: Seq<usize>, i: int) -> bool {
    g[p[i] as int].contains(p[i + 1])
}

/// `p` is a non-empty walk through nodes of `g` that never visits `avoid`.
/// With `avoid` outside the nodes (such as `g.len()`) it is any walk.
pub open spec fn is_walk(g: Seq<Seq<usize>>, p: Seq<usize>, avoid: int) -> bool {
    &&& p.len() > 0
    &&& forall|i: int| 0 <= i < p.len() ==> #[trigger] p[i] < g.len() && p[i] != avoid
    &&& forall|i: int| 0 <= i < p.len() - 1 ==> #[trigger] step(g, p, i)
}

/// Some walk from `s` to `t` avoids `avoid`.
pub open spec fn reaches(g: Seq<Seq<usize>>, s: usize, t: usize, avoid: int) -> bool {
    exists|p: Seq<usize>| #[trigger] is_walk(g, p, avoid) && p[0] == s && p.last() == t
}

pub proof fn lemma_walk_single(g: Seq<Seq<usize>>, v: usize, avoid: int)
    requires
        v < g.len(),
        v != avoid,
    ensures
        is_walk(g, seq![v], avoid),
        reaches(g, v, v, avoid),
{
    assert(is_walk(g, seq![v], avoid));
}

pub proof fn lemma_walk_extend(g: Seq<Seq<usize>>, p: Seq<usize>, v: usize, avoid: int)
    requires
        is_walk(g, p, avoid),
        v < g.len(),
        v != avoid,
        g[p.last() as int].contains(v),
    ensures
        is_walk(g, p.push(v), avoid),
        p.push(v)[0] == p[0],
        p.push(v).last() == v,
{
    let q = p.push(v);
    assert forall|i: int| 0 <= i < q.len() - 1 implies #[trigger] step(g, q, i) by {
        if i < p.len() - 1 {
            assert(step(g, p, i));
        }
    }
}

/// A node reached by a walk from `s` extends to its successors.
pub proof fn lemma_reaches_extend(g: Seq<Seq<usize>>, s: usize, u: usize, v: usize, avoid: int)
    requires
        reaches(g, s, u, avoid),
        v < g.len(),
        v != avoid,
        g[u as int].contains(v),
    ensures
        reaches(g, s, v, avoid),
{
    let p = choose|p: Seq<usize>| #[trigger] is_walk(g, p, avoid) && p[0] == s && p.last() == u;
    lemma_walk_extend(g, p, v, avoid);
    assert(is_walk(g, p.push(v), avoid));
}

/// The first `i + 1` nodes of a walk are a walk.
pub proof fn lemma_walk_prefix(g: Seq<Seq<usize>>, p: Seq<usize>, i: int, avoid: int)
    requires
        is_walk(g, p, avoid),
        0 <= i < p.len(),
    ensures
        is_walk(g, p.take(i + 1), avoid),
        p.take(i + 1)[0] == p[0],
        p.take(i + 1).last() == p[i],
        p.take(i + 1).len() == i + 1,
{
    let q = p.take(i + 1);
    assert forall|j: int| 0 <= j < q.len() - 1 implies #[trigger] step(g, q, j) by {
        assert(step(g, p, j));
    }
}

/// The nodes of a walk from index `i` on are a walk.
pub proof fn lemma_walk_suffix(g: Seq<Seq<usize>>, p: Seq<usize>, i: int, avoid: int)
    requires
        is_walk(g, p, avoid),
        0 <= i < p.len(),
    ensures
        is_walk(g, p.subrange(i, p.len() as int), avoid),
        p.subrange(i, p.len() as int)[0] == p[i],
        p.subrange(i, p.len() as int).last() == p.last(),
{
    let q = p.subrange(i, p.len() as int);
    assert forall|j: int| 0 <= j < q.len() - 1 implies #[trigger] step(g, q, j) by {
        assert(step(g, p, i + j));
    }
}

/// A walk from `s` to `u` followed by a walk from `u` to `t` is a walk from
/// `s` to `t`.
pub proof fn lemma_walk_concat(g: Seq<Seq<usize>>, p: Seq<usize>, q: Seq<usize>, avoid: int)
    requires
        is_walk(g, p, avoid),
        is_walk(g, q, avoid),
        p.last() == q[0],
    ensures
        is_walk(g, p + q.drop_first(), avoid),
        (p + q.drop_first())[0] == p[0],
        (p + q.drop_first()).last() == q.last(),
{
    let r = p + q.drop_first();
    assert forall|i: int| 0 <= i < r.len() implies #[trigger] r[i] < g.len() && r[i] != avoid by {
        if i < p.len() {
            assert(r[i] == p[i]);
        } else {
            assert(r[i] == q[i - p.len() + 1]);
        }
    }
    assert forall|j: int| 0 <= j < r.len() - 1 implies #[trigger] step(g, r, j) by {
        if j < p.len() - 1 {
            assert(step(g, p, j));
        } else if j == p.len() - 1 {
            assert(step(g, q, 0));
        } else {
            assert(step(g, q, j - p.len() + 1));
        }
    }
    if q.len() == 1 {
        assert(r =~= p);
    }
}

/// Reachability is transitive.
pub proof fn lemma_reaches_transitive(g: Seq<Seq<usize>>, a: usize, b: usize, c: usize, avoid: int)
    requires
        reaches(g, a, b, avoid),
        reaches(g, b, c, avoid),
    ensures
        reaches(g, a, c, avoid),
{
    let p = choose|p: Seq<usize>| #[trigger] is_walk(g, p, avoid) && p[0] == a && p.last() == b;
    let q = choose|q: Seq<usize>| #[trigger] is_walk(g, q, avoid) && q[0] == b && q.last() == c;
    lemma_walk_concat(g, p, q, avoid);
}

/// A node that occurs in a sequence has a last occurrence.
pub proof fn lemma_last_occurrence(p: Seq<usize>, x: usize) -> (i: int)
    requires
        p.contains(x),
    ensures
        0 <= i < p.len(),
        p[i] == x,
        forall|j: int| i < j < p.len() ==> p[j] != x,
    decreases p.len(),
{
    if p.last() == x {
        p.len() - 1
    } else {
        let k = choose|k: int| 0 <= k < p.len() && p[k] == x;
        assert(p.drop_last()[k] == x);
        let i = lemma_last_occurrence(p.drop_last(), x);
        assert forall|j: int| i < j < p.len() implies p[j] != x by {
            if j < p.len() - 1 {
                assert(p.drop_last()[j] == p[j]);
            }
        }
        i
    }
}

/// A node that occurs in a sequence has a first occurrence.
pub proof fn lemma_first_occurrence(p: Seq<usize>, x: usize) -> (i: int)
    requires
        p.contains(x),
    ensures
        0 <= i < p.len(),
        p[i] == x,
        forall|j: int| 0 <= j < i ==> p[j] != x,
    decreases p.len(),
{
    if p[0] == x {
        0
    } else {
        let k = choose|k: int| 0 <= k < p.len() && p[k] == x;
        assert(p.drop_first()[k - 1] == x);
        let i = lemma_first_occurrence(p.drop_first(), x);
        assert forall|j: int| 0 <= j < i + 1 implies p[j] != x by {
            if j > 0 {
                assert(p.drop_first()[j - 1] == p[j]);
            }
        }
        i + 1
    }
}

/// A walk that avoids a node is also a walk that avoids nothing.
pub proof fn lemma_walk_unrestricted(g: Seq<Seq<usize>>, p: Seq<usize>, avoid: int)
    requires
        is_walk(g, p, avoid),
    ensures
        is_walk(g, p, g.len() as int),
{
    assert forall|j: int| 0 <= j < p.len() - 1 implies #[trigger] step(g, p, j) by {
        assert(step(g, p, j));
    }
}

/// A walk that does not visit `a` avoids `a`.
pub proof fn lemma_walk_restrict(g: Seq<Seq<usize>>, p: Seq<usize>, a: int)
    requires
        is_walk(g, p, g.len() as int),
        !p.contains(a as usize) || a < 0,
        a < g.len(),
    ensures
        is_walk(g, p, a),
{
    assert forall|i: int| 0 <= i < p.len() implies #[trigger] p[i] < g.len() && p[i] != a by {
        if p[i] == a {
            assert(p.contains(a as usize));
        }
    }
    assert forall|j: int| 0 <= j < p.len() - 1 implies #[trigger] step(g, p, j) by {
        assert(step(g, p, j));
    }
}

/// If `seen` holds the start and is closed under the edges that do not lead
/// to `avoid`, it holds every node of a walk from the start avoiding `avoid`.
proof fn lemma_closed_holds_walk(
    g: Seq<Seq<usize>>,
    seen: Seq<bool>,
    p: Seq<usize>,
    avoid: int,
    i: int,
)
    requires
        seen.len() == g.len(),
        is_walk(g, p, avoid),
        seen[p[0] as int],
        forall|v: int, j: int|
            0 <= v < g.len() && seen[v] && 0 <= j < g[v].len() ==> #[trigger] g[v][j] == avoid
                || seen[g[v][j] as int],
        0 <= i < p.len(),
    ensures
        seen[p[i] as int],
    decreases i,
{
    if i > 0 {
        lemma_closed_holds_walk(g, seen, p, avoid, i - 1);
        assert(step(g, p, i - 1));
        let u = p[i - 1] as int;
        let j = choose|j: int| 0 <= j < g[u].len() && g[u][j] == p[i];
        assert(g[u][j] == avoid || seen[g[u][j] as int]);
    }
}

pub open spec fn unseen(seen: Seq<bool>) -> nat {
    count_upto(seen.len() as int, |i: int| !seen[i])
}

proof fn lemma_unseen_mark(seen: Seq<bool>, w: int)
    requires
        0 <= w < seen.len(),
        !seen[w],
    ensures
        unseen(seen.update(w, true)) < unseen(seen),
{
    let s2 = seen.update(w, true);
    lemma_count_strict(
        seen.len() as int,
        |i: int| !s2[i],
        |i: int| !seen[i],
        w,
    );
}

/// The nodes reachable from `start` by walks that never visit `avoid`.
/// (With `avoid >= g.len()` these are all nodes reachable from `start`.)
pub fn reach_avoiding(g: &Vec<Vec<usize>>, start: usize, avoid: usize) -> (seen: Vec<bool>)
    requires
        adj_wf(adj_view(*g)),
        start < g.len(),
    ensures
        seen.len() == g.len(),
        forall|v: int|
            0 <= v < g.len() ==> (#[trigger] seen@[v] <==> reaches(
                adj_view(*g),
                start,
                v as usize,
                avoid as int,
            )),
{
    let ghost gv = adj_view(*g);
    let n = g.len();
    let mut seen: Vec<bool> = Vec::new();
    while seen.len() < n
        invariant
            seen.len() <= n,
            forall|i: int| 0 <= i < seen.len() ==> !seen@[i],
        decreases n - seen.len(),
    {
        seen.push(false);
    }
    let mut stack: Vec<usize> = Vec::new();
    if start != avoid {
        seen.set(start, true);
        stack.push(start);
        proof {
            lemma_walk_single(gv, start, avoid as int);
            assert(stack@[0] == start);
        }
    }
    while stack.len() > 0
        invariant
            gv == adj_view(*g),
            adj_wf(gv),
            n == g.len(),
            start < n,
            seen.len() == n,
            forall|i: int| 0 <= i < stack.len() ==> #[trigger] stack@[i] < n && seen@[stack@[i] as int],
            forall|v: int|
                0 <= v < n && #[trigger] seen@[v] ==> v != avoid && reaches(
                    gv,
                    start,
                    v as usize,
                    avoid as int,
                ),
            start != avoid ==> seen@[start as int],
            forall|v: int, j: int|
                0 <= v < n && seen@[v] && !stack@.contains(v as usize) && 0 <= j < gv[v].len()
                    ==> #[trigger] gv[v][j] == avoid || seen@[gv[v][j] as int],
        decreases 2 * unseen(seen@) + stack.len(),
    {
        let ghost measure = 2 * unseen(seen@) + stack.len();
        let ghost before = stack@;
        let u = stack.pop().unwrap();
        let ghost stack0 = stack@;
        assert forall|v: int, k: int|
            0 <= v < n && v != u && seen@[v] && !stack@.contains(v as usize) && 0 <= k
                < gv[v].len() implies #[trigger] gv[v][k] == avoid || seen@[gv[v][k] as int] by {
            if before.contains(v as usize) {
                let t = choose|t: int| 0 <= t < before.len() && before[t] == v;
                if t < stack0.len() {
                    assert(stack0[t] == v);
                }
            }
        }
        let succ = &g[u];
        let mut j: usize = 0;
        while j < succ.len()
            invariant
                gv == adj_view(*g),
                adj_wf(gv),
                n == g.len(),
                start < n,
                u < n,
                seen.len() == n,
                succ@ == gv[u as int],
                seen@[u as int],
                j <= succ.len(),
                2 * unseen(seen@) + stack.len() < measure,
                forall|i: int| 0 <= i < stack0.len() ==> stack@[i] == stack0[i],
                stack0.len() <= stack.len(),
                forall|i: int|
                    0 <= i < stack.len() ==> #[trigger] stack@[i] < n && seen@[stack@[i] as int],
                forall|v: int|
                    0 <= v < n && #[trigger] seen@[v] ==> v != avoid && reaches(
                        gv,
                        start,
                        v as usize,
                        avoid as int,
                    ),
                start != avoid ==> seen@[start as int],
                forall|k: int| 0 <= k < j ==> succ@[k] == avoid || seen@[succ@[k] as int],
                forall|v: int, k: int|
                    0 <= v < n && v != u && seen@[v] && !stack@.contains(v as usize) && 0 <= k
                        < gv[v].len() ==> #[trigger] gv[v][k] == avoid || seen@[gv[v][k] as int],
            decreases succ.len() - j,
        {
            let w = succ[j];
            assert(gv[u as int][j as int] < n);
            if w != avoid && !seen[w] {
                proof {
                    lemma_unseen_mark(seen@, w as int);
                    lemma_reaches_extend(gv, start, u, w, avoid as int);
                }
                let ghost old_stack = stack@;
                seen.set(w, true);
                stack.push(w);
                assert forall|v: int, k: int|
                    0 <= v < n && v != u && seen@[v] && !stack@.contains(v as usize) && 0 <= k
                        < gv[v].len() implies #[trigger] gv[v][k] == avoid || seen@[gv[v][k] as int] by {
                    if v != w {
                        assert(!old_stack.contains(v as usize)) by {
                            if old_stack.contains(v as usize) {
                                let t = choose|t: int| 0 <= t < old_stack.len() && old_stack[t] == v;
                                assert(stack@[t] == v);
                            }
                        }
                    } else {
                        assert(stack@[stack@.len() - 1] == w);
                    }
                }
            }
            j = j + 1;
        }
        proof {
            assert forall|v: int, k: int|
                0 <= v < n && seen@[v] && !stack@.contains(v as usize) && 0 <= k < gv[v].len()
                    implies #[trigger] gv[v][k] == avoid || seen@[gv[v][k] as int] by {
                if v == u {
                    assert(succ@[k] == gv[v][k]);
                }
            }
        }
    }
    proof {
        assert forall|v: int| 0 <= v < n implies (#[trigger] seen@[v] <==> reaches(
            gv,
            start,
            v as usize,
            avoid as int,
        )) by {
            if reaches(gv, start, v as usize, avoid as int) {
                let p = choose|p: Seq<usize>|
                    #[trigger] is_walk(gv, p, avoid as int) && p[0] == start && p.last() == v;
                assert(p[0] < n && p[0] != avoid);
                assert forall|x: int, k: int|
                    0 <= x < gv.len() && seen@[x] && 0 <= k < gv[x].len() implies #[trigger] gv[x][k]
                        == avoid || seen@[gv[x][k] as int] by {
                    assert(!stack@.contains(x as usize));
                }
                lemma_closed_holds_walk(gv, seen@, p, avoid as int, p.len() - 1);
            }
        }
    }
    seen
}

} // verus!
